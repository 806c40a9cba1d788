//! A stable sort by an order that is a type of its own.

use vstd::prelude::*;

verus! {

/// A strict order on `T`: what comes before what, up to ties.
pub trait Order<T> {
    spec fn less(a: T, b: T) -> bool;

    fn is_less(a: &T, b: &T) -> (r: bool)
        ensures
            r == Self::less(*a, *b),
    ;

    proof fn law_asymmetric(a: T, b: T)
        ensures
            Self::less(a, b) ==> !Self::less(b, a),
    ;

    proof fn law_transitive(a: T, b: T, c: T)
        ensures
            !Self::less(b, a) && !Self::less(c, b) ==> !Self::less(c, a),
    ;
}

/// `s` with `x` put in behind everything that it does not come before.
pub open spec fn sorted_insert<T, O: Order<T>>(s: Seq<T>, x: T) -> Seq<T>
    decreases s.len(),
{
    if s.len() > 0 && O::less(x, s.last()) {
        sorted_insert::<T, O>(s.drop_last(), x).push(s.last())
    } else {
        s.push(x)
    }
}

/// `s` in order, with ties kept in the order they had.
pub open spec fn stable_sorted<T, O: Order<T>>(s: Seq<T>) -> Seq<T>
    decreases s.len(),
{
    if s.len() == 0 {
        seq![]
    } else {
        sorted_insert::<T, O>(stable_sorted::<T, O>(s.drop_last()), s.last())
    }
}

/// No item comes before one that stands in front of it.
pub open spec fn in_order<T, O: Order<T>>(s: Seq<T>) -> bool {
    forall|i: int, j: int| 0 <= i < j < s.len() ==> !O::less(#[trigger] s[j], #[trigger] s[i])
}

proof fn lemma_insert_at<T, O: Order<T>>(s: Seq<T>, x: T, j: int)
    requires
        0 <= j <= s.len(),
        forall|k: int| j <= k < s.len() ==> O::less(x, #[trigger] s[k]),
        j == 0 || !O::less(x, s[j - 1]),
    ensures
        sorted_insert::<T, O>(s, x) == s.insert(j, x),
    decreases s.len(),
{
    if s.len() > j {
        assert(s.last() == s[s.len() - 1]);
        lemma_insert_at::<T, O>(s.drop_last(), x, j);
        assert(s.drop_last().insert(j, x).push(s.last()) =~= s.insert(j, x));
    } else {
        assert(s.push(x) =~= s.insert(j, x));
        if s.len() > 0 {
            assert(s.last() == s[j - 1]);
        }
    }
}

pub proof fn lemma_insert_in_order<T, O: Order<T>>(s: Seq<T>, x: T)
    requires
        in_order::<T, O>(s),
    ensures
        in_order::<T, O>(sorted_insert::<T, O>(s, x)),
        sorted_insert::<T, O>(s, x).len() == s.len() + 1,
        sorted_insert::<T, O>(s, x).to_multiset() == s.to_multiset().insert(x),
        forall|k: int|
            0 <= k <= s.len() ==> #[trigger] sorted_insert::<T, O>(s, x)[k] == x || s.contains(
                sorted_insert::<T, O>(s, x)[k],
            ),
    decreases s.len(),
{
    broadcast use vstd::seq_lib::group_to_multiset_ensures;

    let r = sorted_insert::<T, O>(s, x);
    if s.len() > 0 && O::less(x, s.last()) {
        let t = s.drop_last();
        lemma_insert_in_order::<T, O>(t, x);
        let q = sorted_insert::<T, O>(t, x);
        assert(s =~= t.push(s.last()));
        assert forall|i: int, j: int| 0 <= i < j < r.len() implies !O::less(
            #[trigger] r[j],
            #[trigger] r[i],
        ) by {
            if j == r.len() - 1 {
                assert(r[i] == q[i]);
                if q[i] == x {
                    O::law_asymmetric(x, s.last());
                } else {
                    let k = choose|k: int| 0 <= k < t.len() && t[k] == q[i];
                    assert(s[k] == q[i]);
                    assert(s[s.len() - 1] == s.last());
                }
            } else {
                assert(r[i] == q[i] && r[j] == q[j]);
            }
        }
        assert forall|k: int| 0 <= k <= s.len() implies #[trigger] r[k] == x || s.contains(r[k]) by {
            if k == s.len() {
                assert(r[k] == s[s.len() - 1]);
            } else {
                assert(r[k] == q[k]);
                if q[k] != x {
                    let m = choose|m: int| 0 <= m < t.len() && t[m] == q[k];
                    assert(s[m] == q[k]);
                }
            }
        }
        assert(s.to_multiset() =~= t.to_multiset().insert(s.last()));
        assert(r.to_multiset() =~= s.to_multiset().insert(x));
    } else {
        assert forall|i: int, j: int| 0 <= i < j < r.len() implies !O::less(
            #[trigger] r[j],
            #[trigger] r[i],
        ) by {
            if j == s.len() {
                assert(r[i] == s[i]);
                if i < s.len() - 1 {
                    assert(s[s.len() - 1] == s.last());
                    O::law_transitive(s[i], s.last(), x);
                }
            } else {
                assert(r[i] == s[i] && r[j] == s[j]);
            }
        }
        assert forall|k: int| 0 <= k <= s.len() implies #[trigger] r[k] == x || s.contains(r[k]) by {
            if k < s.len() {
                assert(r[k] == s[k]);
            }
        }
    }
}

/// Sorting puts the items in order and keeps each of them.
pub proof fn law_sorted<T, O: Order<T>>(s: Seq<T>)
    ensures
        in_order::<T, O>(stable_sorted::<T, O>(s)),
        stable_sorted::<T, O>(s).len() == s.len(),
        stable_sorted::<T, O>(s).to_multiset() == s.to_multiset(),
    decreases s.len(),
{
    broadcast use vstd::seq_lib::group_to_multiset_ensures;

    if s.len() > 0 {
        law_sorted::<T, O>(s.drop_last());
        lemma_insert_in_order::<T, O>(stable_sorted::<T, O>(s.drop_last()), s.last());
        assert(s =~= s.drop_last().push(s.last()));
        assert(s.to_multiset() =~= s.drop_last().to_multiset().insert(s.last()));
    } else {
        assert(stable_sorted::<T, O>(s) =~= s);
    }
}

/// Sorts `v` in place; what is equal in the order stays in its order.
pub fn stable_sort<T, O: Order<T>>(v: &mut Vec<T>)
    ensures
        final(v)@ == stable_sorted::<T, O>(old(v)@),
{
    let ghost orig = v@;
    let n: usize = v.len();
    let mut i: usize = 0;
    assert(stable_sorted::<T, O>(orig.take(0)) + orig.skip(0) =~= orig);
    while i < n
        invariant
            i <= n,
            n == orig.len(),
            v@ == stable_sorted::<T, O>(orig.take(i as int)) + orig.skip(i as int),
            stable_sorted::<T, O>(orig.take(i as int)).len() == i,
        decreases n - i,
    {
        let ghost head = stable_sorted::<T, O>(orig.take(i as int));
        let x = v.remove(i);
        assert(x == orig[i as int]);
        assert(v@ =~= head + orig.skip(i + 1));
        let mut j: usize = i;
        while j > 0 && O::is_less(&x, &v[j - 1])
            invariant
                j <= i,
                i == head.len(),
                i < n,
                n == orig.len(),
                v@ == head + orig.skip(i + 1),
                forall|k: int| j <= k < head.len() ==> O::less(x, #[trigger] head[k]),
            decreases j,
        {
            assert(v@[j - 1] == head[j - 1]);
            j -= 1;
        }
        proof {
            if j > 0 {
                assert(v@[j - 1] == head[j - 1]);
            }
            lemma_insert_at::<T, O>(head, x, j as int);
        }
        v.insert(j, x);
        proof {
            assert(orig.take(i + 1).drop_last() =~= orig.take(i as int));
            assert(v@ =~= head.insert(j as int, x) + orig.skip(i + 1));
        }
        i += 1;
    }
    assert(orig.take(n as int) =~= orig);
    assert(v@ =~= stable_sorted::<T, O>(orig));
}

/// `s` with `x` put in behind everything that it does not come before, by `less`.
pub open spec fn insert_by<T>(s: Seq<T>, x: T, less: spec_fn(T, T) -> bool) -> Seq<T>
    decreases s.len(),
{
    if s.len() > 0 && less(x, s.last()) {
        insert_by(s.drop_last(), x, less).push(s.last())
    } else {
        s.push(x)
    }
}

/// `s` in the order of `less`, with ties kept in the order they had.
pub open spec fn sorted_by<T>(s: Seq<T>, less: spec_fn(T, T) -> bool) -> Seq<T>
    decreases s.len(),
{
    if s.len() == 0 {
        seq![]
    } else {
        insert_by(sorted_by(s.drop_last(), less), s.last(), less)
    }
}

proof fn lemma_insert_map<T, U, O: Order<T>>(
    s: Seq<T>,
    x: T,
    f: spec_fn(T) -> U,
    less: spec_fn(U, U) -> bool,
)
    requires
        forall|a: T, b: T| #[trigger] O::less(a, b) == less(f(a), f(b)),
    ensures
        sorted_insert::<T, O>(s, x).map_values(f) == insert_by(s.map_values(f), f(x), less),
    decreases s.len(),
{
    let m = s.map_values(f);
    if s.len() > 0 && O::less(x, s.last()) {
        lemma_insert_map::<T, U, O>(s.drop_last(), x, f, less);
        assert(m.drop_last() =~= s.drop_last().map_values(f));
        assert(less(f(x), m.last()));
        assert(sorted_insert::<T, O>(s, x).map_values(f) =~= insert_by(m, f(x), less));
    } else {
        if s.len() > 0 {
            assert(O::less(x, s.last()) == less(f(x), f(s.last())));
        }
        assert(s.push(x).map_values(f) =~= m.push(f(x)));
    }
}

/// Sorting items by what an image of them says is sorting the images.
pub proof fn lemma_sort_map<T, U, O: Order<T>>(
    s: Seq<T>,
    f: spec_fn(T) -> U,
    less: spec_fn(U, U) -> bool,
)
    requires
        forall|a: T, b: T| #[trigger] O::less(a, b) == less(f(a), f(b)),
    ensures
        stable_sorted::<T, O>(s).map_values(f) == sorted_by(s.map_values(f), less),
    decreases s.len(),
{
    let m = s.map_values(f);
    if s.len() > 0 {
        lemma_sort_map::<T, U, O>(s.drop_last(), f, less);
        assert(m.drop_last() =~= s.drop_last().map_values(f));
        lemma_insert_map::<T, U, O>(
            stable_sorted::<T, O>(s.drop_last()),
            s.last(),
            f,
            less,
        );
    } else {
        assert(stable_sorted::<T, O>(s).map_values(f) =~= sorted_by(m, less));
    }
}

proof fn lemma_insert_by_keeps<T>(s: Seq<T>, x: T, less: spec_fn(T, T) -> bool)
    ensures
        insert_by(s, x, less).len() == s.len() + 1,
        insert_by(s, x, less).to_multiset() == s.to_multiset().insert(x),
    decreases s.len(),
{
    broadcast use vstd::seq_lib::group_to_multiset_ensures;

    if s.len() > 0 && less(x, s.last()) {
        lemma_insert_by_keeps(s.drop_last(), x, less);
        assert(s =~= s.drop_last().push(s.last()));
        assert(insert_by(s, x, less).to_multiset() =~= s.to_multiset().insert(x));
    }
}

/// Sorting keeps each item.
pub proof fn lemma_sorted_by_keeps<T>(s: Seq<T>, less: spec_fn(T, T) -> bool)
    ensures
        sorted_by(s, less).len() == s.len(),
        sorted_by(s, less).to_multiset() == s.to_multiset(),
        forall|x: T| #[trigger] sorted_by(s, less).contains(x) == s.contains(x),
        forall|i: int|
            0 <= i < s.len() ==> s.contains(#[trigger] sorted_by(s, less)[i]),
    decreases s.len(),
{
    broadcast use vstd::seq_lib::group_to_multiset_ensures;

    let r = sorted_by(s, less);
    if s.len() > 0 {
        lemma_sorted_by_keeps(s.drop_last(), less);
        lemma_insert_by_keeps(sorted_by(s.drop_last(), less), s.last(), less);
        assert(s =~= s.drop_last().push(s.last()));
        assert(r.to_multiset() =~= s.to_multiset());
    } else {
        assert(r =~= s);
    }
    assert forall|x: T| #[trigger] r.contains(x) == s.contains(x) by {
        assert(r.contains(x) <==> r.to_multiset().count(x) > 0);
        assert(s.contains(x) <==> s.to_multiset().count(x) > 0);
    }
    assert forall|i: int| 0 <= i < s.len() implies s.contains(#[trigger] r[i]) by {
        assert(r.contains(r[i]));
    }
}

/// `s` without the items that do not come behind the one kept in front of them.
pub open spec fn deduped<T, O: Order<T>>(s: Seq<T>) -> Seq<T>
    decreases s.len(),
{
    if s.len() == 0 {
        seq![]
    } else {
        let rest = deduped::<T, O>(s.drop_last());
        if rest.len() > 0 && !O::less(rest.last(), s.last()) {
            rest
        } else {
            rest.push(s.last())
        }
    }
}

/// The items in order, each once.
pub open spec fn distinct<T, O: Order<T>>(s: Seq<T>) -> Seq<T> {
    deduped::<T, O>(stable_sorted::<T, O>(s))
}

/// Sorts the items and keeps each of them once.
pub fn sort_distinct<T: Copy, O: Order<T>>(v: Vec<T>) -> (r: Vec<T>)
    ensures
        r@ == distinct::<T, O>(v@),
{
    let mut v = v;
    let ghost orig = v@;
    stable_sort::<T, O>(&mut v);
    let mut out: Vec<T> = Vec::new();
    let mut i: usize = 0;
    while i < v.len()
        invariant
            i <= v@.len(),
            v@ == stable_sorted::<T, O>(orig),
            out@ == deduped::<T, O>(v@.take(i as int)),
        decreases v@.len() - i,
    {
        assert(v@.take(i + 1).drop_last() =~= v@.take(i as int));
        let n: usize = out.len();
        if n == 0 || O::is_less(&out[n - 1], &v[i]) {
            out.push(v[i]);
        }
        i += 1;
    }
    assert(v@.take(i as int) =~= v@);
    out
}

/// What is left is in strict order.
pub proof fn law_distinct_is_strict<T, O: Order<T>>(s: Seq<T>)
    ensures
        forall|i: int|
            0 < i < distinct::<T, O>(s).len() ==> O::less(
                #[trigger] distinct::<T, O>(s)[i - 1],
                distinct::<T, O>(s)[i],
            ),
{
    lemma_deduped_strict::<T, O>(stable_sorted::<T, O>(s));
}

proof fn lemma_deduped_strict<T, O: Order<T>>(s: Seq<T>)
    ensures
        forall|i: int|
            0 < i < deduped::<T, O>(s).len() ==> O::less(
                #[trigger] deduped::<T, O>(s)[i - 1],
                deduped::<T, O>(s)[i],
            ),
    decreases s.len(),
{
    if s.len() > 0 {
        lemma_deduped_strict::<T, O>(s.drop_last());
        let rest = deduped::<T, O>(s.drop_last());
        let all = deduped::<T, O>(s);
        assert forall|i: int| 0 < i < all.len() implies O::less(#[trigger] all[i - 1], all[i]) by {
            if i < rest.len() {
                assert(all[i - 1] == rest[i - 1]);
            }
        }
    }
}

/// Numbers by size.
pub struct Ascending;

impl Order<u64> for Ascending {
    open spec fn less(a: u64, b: u64) -> bool {
        a < b
    }

    fn is_less(a: &u64, b: &u64) -> (r: bool) {
        *a < *b
    }

    proof fn law_asymmetric(a: u64, b: u64) {
    }

    proof fn law_transitive(a: u64, b: u64, c: u64) {
    }
}

/// What is left was there before.
pub proof fn lemma_distinct_contained<T, O: Order<T>>(s: Seq<T>)
    ensures
        forall|i: int|
            0 <= i < distinct::<T, O>(s).len() ==> s.contains(#[trigger] distinct::<T, O>(s)[i]),
{
    broadcast use vstd::seq_lib::group_to_multiset_ensures;

    let sorted = stable_sorted::<T, O>(s);
    law_sorted::<T, O>(s);
    lemma_deduped_contained::<T, O>(sorted);
    let d = distinct::<T, O>(s);
    assert forall|i: int| 0 <= i < d.len() implies s.contains(#[trigger] d[i]) by {
        assert(sorted.contains(d[i]));
        assert(sorted.to_multiset().contains(d[i]));
        assert(s.to_multiset().contains(d[i]));
    }
}

proof fn lemma_deduped_contained<T, O: Order<T>>(s: Seq<T>)
    ensures
        forall|i: int|
            0 <= i < deduped::<T, O>(s).len() ==> s.contains(#[trigger] deduped::<T, O>(s)[i]),
    decreases s.len(),
{
    if s.len() > 0 {
        lemma_deduped_contained::<T, O>(s.drop_last());
        let rest = deduped::<T, O>(s.drop_last());
        let all = deduped::<T, O>(s);
        assert forall|i: int| 0 <= i < all.len() implies s.contains(#[trigger] all[i]) by {
            if i < rest.len() {
                assert(all[i] == rest[i]);
                let k = choose|k: int| 0 <= k < s.drop_last().len() && s.drop_last()[k] == rest[i];
                assert(s[k] == all[i]);
            } else {
                assert(s[s.len() - 1] == all[i]);
            }
        }
    }
}

/// Nothing is lost: where only equal items are in no order, every item is still there.
pub proof fn law_distinct_keeps_all<T, O: Order<T>>(s: Seq<T>)
    requires
        forall|a: T, b: T| !O::less(a, b) && !(#[trigger] O::less(b, a)) ==> a == b,
    ensures
        forall|x: T| #[trigger] distinct::<T, O>(s).contains(x) <==> s.contains(x),
{
    broadcast use vstd::seq_lib::group_to_multiset_ensures;

    let sorted = stable_sorted::<T, O>(s);
    law_sorted::<T, O>(s);
    lemma_deduped_keeps_all::<T, O>(sorted);
    lemma_distinct_contained::<T, O>(s);
    let d = distinct::<T, O>(s);
    assert forall|x: T| #[trigger] d.contains(x) <==> s.contains(x) by {
        if s.contains(x) {
            assert(s.to_multiset().contains(x));
            assert(sorted.to_multiset().contains(x));
            assert(sorted.contains(x));
        }
        if d.contains(x) {
            let i = choose|i: int| 0 <= i < d.len() && d[i] == x;
            assert(s.contains(d[i]));
        }
    }
}

proof fn lemma_deduped_keeps_all<T, O: Order<T>>(s: Seq<T>)
    requires
        in_order::<T, O>(s),
        forall|a: T, b: T| !O::less(a, b) && !(#[trigger] O::less(b, a)) ==> a == b,
    ensures
        forall|x: T| #[trigger] s.contains(x) ==> deduped::<T, O>(s).contains(x),
    decreases s.len(),
{
    if s.len() > 0 {
        let front = s.drop_last();
        let rest = deduped::<T, O>(front);
        let all = deduped::<T, O>(s);
        assert(in_order::<T, O>(front)) by {
            assert forall|i: int, j: int| 0 <= i < j < front.len() implies !O::less(
                #[trigger] front[j],
                #[trigger] front[i],
            ) by {
                assert(front[i] == s[i] && front[j] == s[j]);
            }
        }
        lemma_deduped_keeps_all::<T, O>(front);
        lemma_deduped_contained::<T, O>(front);
        assert forall|x: T| #[trigger] s.contains(x) implies all.contains(x) by {
            let i = choose|i: int| 0 <= i < s.len() && s[i] == x;
            if i < front.len() {
                assert(front[i] == x);
                assert(front.contains(x));
                let j = choose|j: int| 0 <= j < rest.len() && rest[j] == x;
                assert(all[j] == x);
            } else if rest.len() > 0 && !O::less(rest.last(), s.last()) {
                let top = rest[rest.len() - 1];
                assert(front.contains(top));
                let j = choose|j: int| 0 <= j < front.len() && front[j] == top;
                assert(s[j] == top);
                assert(!O::less(s[i], s[j]));
                assert(top == x);
                assert(all[rest.len() - 1] == x);
            } else {
                assert(all[all.len() - 1] == x);
            }
        }
    }
}

} // verus!
