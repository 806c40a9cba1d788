//! Names that come close to one that is missing.

use vstd::prelude::*;
use crate::resolve::table::{SymbolTable, TableState};
use crate::sorting;
use crate::sorting::{stable_sort, Order};
use crate::text;
use crate::text::{chars_of, is_text_less, same_text};

verus! {

pub open spec fn least(a: nat, b: nat) -> nat {
    if b < a {
        b
    } else {
        a
    }
}

/// How many characters must be put in, taken out or exchanged to make one text of the
/// other.
pub open spec fn distance(a: Seq<char>, b: Seq<char>) -> nat
    decreases a.len() + b.len(),
{
    if a.len() == 0 {
        b.len()
    } else if b.len() == 0 {
        a.len()
    } else {
        least(
            least(distance(a.drop_last(), b) + 1, distance(a, b.drop_last()) + 1),
            distance(a.drop_last(), b.drop_last()) + if a.last() == b.last() {
                0nat
            } else {
                1nat
            },
        )
    }
}

/// The distance is the same both ways.
pub proof fn law_distance_is_symmetric(a: Seq<char>, b: Seq<char>)
    ensures
        distance(a, b) == distance(b, a),
    decreases a.len() + b.len(),
{
    if a.len() > 0 && b.len() > 0 {
        law_distance_is_symmetric(a.drop_last(), b);
        law_distance_is_symmetric(a, b.drop_last());
        law_distance_is_symmetric(a.drop_last(), b.drop_last());
    }
}

/// Only a text itself is at no distance.
pub proof fn law_distance_zero(a: Seq<char>, b: Seq<char>)
    ensures
        distance(a, b) == 0 <==> a == b,
    decreases a.len() + b.len(),
{
    if a.len() > 0 && b.len() > 0 {
        law_distance_zero(a.drop_last(), b.drop_last());
        if a.drop_last() == b.drop_last() && a.last() == b.last() {
            assert(a =~= a.drop_last().push(a.last()));
            assert(b =~= b.drop_last().push(b.last()));
        }
    } else {
        assert(a.len() == 0 && b.len() == 0 ==> a =~= b);
    }
}

/// No more changes are needed than the longer text has characters, and at least as
/// many as it has more of them.
pub proof fn law_distance_bounds(a: Seq<char>, b: Seq<char>)
    ensures
        distance(a, b) <= a.len() || distance(a, b) <= b.len(),
        a.len() <= b.len() + distance(a, b),
        b.len() <= a.len() + distance(a, b),
    decreases a.len() + b.len(),
{
    if a.len() > 0 && b.len() > 0 {
        law_distance_bounds(a.drop_last(), b);
        law_distance_bounds(a, b.drop_last());
        law_distance_bounds(a.drop_last(), b.drop_last());
    }
}

/// A way through a third text is no shorter.
pub proof fn law_distance_triangle(a: Seq<char>, b: Seq<char>, c: Seq<char>)
    ensures
        distance(a, c) <= distance(a, b) + distance(b, c),
    decreases a.len() + b.len() + c.len(),
{
    law_distance_bounds(a, b);
    law_distance_bounds(b, c);
    law_distance_bounds(a, c);
    if a.len() > 0 && b.len() > 0 && c.len() > 0 {
        let (x, y, z) = (a.drop_last(), b.drop_last(), c.drop_last());
        law_distance_triangle(x, b, c);
        law_distance_triangle(a, b, z);
        law_distance_triangle(a, y, c);
        law_distance_triangle(a, y, z);
        law_distance_triangle(x, y, c);
        law_distance_triangle(x, y, z);
    }
}

/// The number of edits between two texts, by rows of a table of which one is kept.
pub fn levenshtein(a: &str, b: &str) -> (r: usize)
    ensures
        r == distance(a@, b@),
{
    let x = chars_of(a);
    let y = chars_of(b);
    let m: usize = x.len();
    let n: usize = y.len();
    if m == 0 {
        return n;
    }
    if n == 0 {
        return m;
    }
    let mut row: Vec<usize> = Vec::new();
    let mut k: usize = 0;
    assert(x@.take(0) =~= seq![]);
    while k < n
        invariant
            k <= n == y@.len(),
            row@.len() == k,
            x@.take(0).len() == 0,
            forall|j: int| 0 <= j < k ==> #[trigger] row@[j] == distance(x@.take(0), y@.take(j)),
        decreases n - k,
    {
        row.push(k);
        k += 1;
    }
    row.push(n);
    let top: usize = row.len();
    assert(top == n + 1);
    let mut i: usize = 0;
    while i < m
        invariant
            i <= m == x@.len(),
            n == y@.len(),
            top == n + 1,
            row@.len() == n + 1,
            forall|j: int|
                0 <= j <= n ==> #[trigger] row@[j] == distance(x@.take(i as int), y@.take(j)),
        decreases m - i,
    {
        let ghost upper = x@.take(i as int);
        let ghost lower = x@.take(i + 1);
        assert(lower.drop_last() =~= upper);
        assert(lower.last() == x@[i as int]);
        let mut prev: usize = row[0];
        assert(y@.take(0).len() == 0);
        row.set(0, i + 1);
        let mut j: usize = 0;
        while j < n
            invariant
                i < m == x@.len(),
                j <= n == y@.len(),
                top == n + 1,
                row@.len() == n + 1,
                upper == x@.take(i as int),
                lower == x@.take(i + 1),
                lower.drop_last() == upper,
                lower.last() == x@[i as int],
                prev == distance(upper, y@.take(j as int)),
                forall|c: int| 0 <= c <= j ==> #[trigger] row@[c] == distance(lower, y@.take(c)),
                forall|c: int| j < c <= n ==> #[trigger] row@[c] == distance(upper, y@.take(c)),
            decreases n - j,
        {
            let ghost left = y@.take(j as int);
            let ghost here = y@.take(j + 1);
            assert(here.drop_last() =~= left);
            assert(here.last() == y@[j as int]);
            proof {
                law_distance_bounds(upper, left);
                assert(x@.len() == m && y@.len() == n);
            }
            let cost: usize = if x[i] == y[j] {
                0
            } else {
                1
            };
            let above: usize = row[j + 1].saturating_add(1);
            let before: usize = row[j].saturating_add(1);
            let mut new_val: usize = prev + cost;
            if above < new_val {
                new_val = above;
            }
            if before < new_val {
                new_val = before;
            }
            assert(row@[j as int] == distance(lower, left));
            assert(row@[j + 1] == distance(upper, here));
            assert(new_val == distance(lower, here));
            prev = row[j + 1];
            row.set(j + 1, new_val);
            j += 1;
        }
        i += 1;
    }
    assert(x@.take(m as int) =~= x@);
    assert(y@.take(n as int) =~= y@);
    row[n]
}

/// A name with its distance from the one that is looked for.
#[verifier::ext_equal]
pub struct HitModel {
    pub distance: nat,
    pub name: Seq<char>,
}

struct Hit {
    distance: usize,
    name: String,
}

impl View for Hit {
    type V = HitModel;

    closed spec fn view(&self) -> HitModel {
        HitModel { distance: self.distance as nat, name: self.name@ }
    }
}

/// The closer one comes first; of two that are as close, the one with the lesser name.
pub open spec fn closer(a: HitModel, b: HitModel) -> bool {
    if a.distance != b.distance {
        a.distance < b.distance
    } else {
        text::text_less(a.name, b.name)
    }
}

pub open spec fn closer_order() -> spec_fn(HitModel, HitModel) -> bool {
    |a: HitModel, b: HitModel| closer(a, b)
}

struct ByDistance;

impl Order<Hit> for ByDistance {
    closed spec fn less(a: Hit, b: Hit) -> bool {
        closer(a@, b@)
    }

    fn is_less(a: &Hit, b: &Hit) -> (r: bool) {
        if a.distance != b.distance {
            a.distance < b.distance
        } else {
            is_text_less(a.name.as_str(), b.name.as_str())
        }
    }

    proof fn law_asymmetric(a: Hit, b: Hit) {
        text::lemma_bytes_less_asymmetric(text::utf8(a.name@), text::utf8(b.name@));
    }

    proof fn law_transitive(a: Hit, b: Hit, c: Hit) {
        text::lemma_bytes_less_transitive(
            text::utf8(a.name@),
            text::utf8(b.name@),
            text::utf8(c.name@),
        );
    }
}

/// The name of the symbol in a slot.
pub open spec fn slot_name(table: TableState, i: int) -> Seq<char> {
    table.names[table.symbols[i].spec_name().0 as int]
}

/// Every symbol has a name that is interned.
pub open spec fn names_known(table: TableState) -> bool {
    forall|i: int|
        0 <= i < table.symbols.len() ==> (#[trigger] table.symbols[i]).spec_name().0
            < table.names.len()
}

/// The other names among the first `n` symbols that are within the budget.
pub open spec fn hits(table: TableState, query: Seq<char>, budget: usize, n: nat) -> Seq<HitModel>
    decreases n,
{
    if n == 0 {
        seq![]
    } else {
        let rest = hits(table, query, budget, (n - 1) as nat);
        let name = slot_name(table, n - 1);
        if name == query || distance(query, name) > budget {
            rest
        } else {
            rest.push(HitModel { distance: distance(query, name), name })
        }
    }
}

/// The names of hits, without those that stand right behind the same name.
pub open spec fn hit_names(s: Seq<HitModel>) -> Seq<Seq<char>>
    decreases s.len(),
{
    if s.len() == 0 {
        seq![]
    } else {
        let rest = hit_names(s.drop_last());
        if rest.len() > 0 && rest.last() == s.last().name {
            rest
        } else {
            rest.push(s.last().name)
        }
    }
}

/// The closest names, at most `max` of them.
pub open spec fn suggestions(
    table: TableState,
    query: Seq<char>,
    budget: usize,
    max: usize,
) -> Seq<Seq<char>> {
    let all = hit_names(
        sorting::sorted_by(hits(table, query, budget, table.symbols.len()), closer_order()),
    );
    if all.len() <= max {
        all
    } else {
        all.take(max as int)
    }
}

spec fn hits_view(s: Seq<Hit>) -> Seq<HitModel> {
    s.map_values(|h: Hit| h@)
}

fn collect_hits(table: &SymbolTable, query: &str, budget: usize) -> (r: Vec<Hit>)
    requires
        names_known(table@),
    ensures
        hits_view(r@) == hits(table@, query@, budget, table@.symbols.len()),
{
    let all = table.iter();
    let mut out: Vec<Hit> = Vec::new();
    let mut i: usize = 0;
    assert(hits_view(out@) =~= seq![]);
    while i < all.len()
        invariant
            i <= all@.len(),
            names_known(table@),
            all@ == Seq::new(
                table@.symbols.len(),
                |k: int| (crate::resolve::names::SymbolId(k as u32), table@.symbols[k]),
            ),
            hits_view(out@) == hits(table@, query@, budget, i as nat),
        decreases all@.len() - i,
    {
        assert(all@[i as int].1 == table@.symbols[i as int]);
        let candidate = table.name_str(all[i].1.name());
        assert(candidate@ == slot_name(table@, i as int));
        if !same_text(candidate, query) {
            let d: usize = levenshtein(query, candidate);
            if d <= budget {
                let hit = Hit { distance: d, name: candidate.to_owned() };
                let ghost before = hits_view(out@);
                out.push(hit);
                assert(hits_view(out@) =~= before.push(hit@));
            }
        }
        i += 1;
    }
    out
}

/// Names in the table that come close to a name, the closest first.
pub fn did_you_mean(table: &SymbolTable, query: &str, budget: usize, max: usize) -> (r: Vec<String>)
    requires
        names_known(table@),
    ensures
        text::texts(r@) == suggestions(table@, query@, budget, max),
{
    let mut found = collect_hits(table, query, budget);
    let ghost start = found@;
    stable_sort::<Hit, ByDistance>(&mut found);
    let ghost sorted = hits_view(found@);
    proof {
        sorting::lemma_sort_map::<Hit, HitModel, ByDistance>(
            start,
            |h: Hit| h@,
            closer_order(),
        );
        assert(sorted =~= sorting::sorted_by(hits_view(start), closer_order()));
    }
    let mut out: Vec<String> = Vec::new();
    let mut i: usize = 0;
    assert(text::texts(out@) =~= seq![]);
    while i < found.len()
        invariant
            i <= found@.len(),
            sorted == hits_view(found@),
            text::texts(out@) == hit_names(sorted.take(i as int)),
        decreases found@.len() - i,
    {
        assert(sorted.take(i + 1).drop_last() =~= sorted.take(i as int));
        assert(sorted[i as int] == found@[i as int]@);
        let n: usize = out.len();
        let ghost before = text::texts(out@);
        let again = n > 0 && same_text(out[n - 1].as_str(), found[i].name.as_str());
        assert(n > 0 ==> before.last() == out@[n - 1]@);
        if !again {
            let name = found[i].name.clone();
            out.push(name);
            assert(text::texts(out@) =~= before.push(name@));
        }
        i += 1;
    }
    assert(sorted.take(i as int) =~= sorted);
    let ghost all = text::texts(out@);
    out.truncate(max);
    proof {
        if all.len() <= max {
            assert(text::texts(out@) =~= all);
        } else {
            assert(text::texts(out@) =~= all.take(max as int));
        }
    }
    out
}

proof fn lemma_hits_close(table: TableState, query: Seq<char>, budget: usize, n: nat)
    requires
        n <= table.symbols.len(),
    ensures
        forall|i: int|
            #![trigger hits(table, query, budget, n)[i]]
            0 <= i < hits(table, query, budget, n).len() ==> close(
                table,
                query,
                budget,
                hits(table, query, budget, n)[i].name,
            ),
    decreases n,
{
    if n > 0 {
        lemma_hits_close(table, query, budget, (n - 1) as nat);
        let rest = hits(table, query, budget, (n - 1) as nat);
        let all = hits(table, query, budget, n);
        assert(is_slot_name(table, n - 1, slot_name(table, n - 1)));
        assert forall|i: int| #![trigger all[i]] 0 <= i < all.len() implies close(
            table,
            query,
            budget,
            all[i].name,
        ) by {
            if i < rest.len() {
                assert(all[i] == rest[i]);
            }
        }
    }
}

pub open spec fn is_slot_name(table: TableState, i: int, name: Seq<char>) -> bool {
    0 <= i < table.symbols.len() && name == slot_name(table, i)
}

/// Another name than the query, that a symbol has and that is within the budget.
pub open spec fn close(table: TableState, query: Seq<char>, budget: usize, name: Seq<char>) -> bool {
    &&& name != query
    &&& distance(query, name) <= budget
    &&& exists|i: int| is_slot_name(table, i, name)
}

proof fn lemma_sorted_all<T>(s: Seq<T>, less: spec_fn(T, T) -> bool, p: spec_fn(T) -> bool)
    requires
        forall|i: int| 0 <= i < s.len() ==> p(#[trigger] s[i]),
    ensures
        forall|i: int|
            0 <= i < sorting::sorted_by(s, less).len() ==> p(
                #[trigger] sorting::sorted_by(s, less)[i],
            ),
    decreases s.len(),
{
    if s.len() > 0 {
        assert forall|i: int| 0 <= i < s.drop_last().len() implies p(
            #[trigger] s.drop_last()[i],
        ) by {
            assert(s.drop_last()[i] == s[i]);
        }
        lemma_sorted_all(s.drop_last(), less, p);
        assert(p(s[s.len() - 1]));
        lemma_insert_all(sorting::sorted_by(s.drop_last(), less), s.last(), less, p);
    }
}

proof fn lemma_insert_all<T>(s: Seq<T>, x: T, less: spec_fn(T, T) -> bool, p: spec_fn(T) -> bool)
    requires
        forall|i: int| 0 <= i < s.len() ==> p(#[trigger] s[i]),
        p(x),
    ensures
        forall|i: int|
            0 <= i < sorting::insert_by(s, x, less).len() ==> p(
                #[trigger] sorting::insert_by(s, x, less)[i],
            ),
    decreases s.len(),
{
    if s.len() > 0 && less(x, s.last()) {
        assert forall|i: int| 0 <= i < s.drop_last().len() implies p(
            #[trigger] s.drop_last()[i],
        ) by {
            assert(s.drop_last()[i] == s[i]);
        }
        lemma_insert_all(s.drop_last(), x, less, p);
        assert(p(s[s.len() - 1]));
        let rest = sorting::insert_by(s.drop_last(), x, less);
        let all = sorting::insert_by(s, x, less);
        assert forall|i: int| 0 <= i < all.len() implies p(#[trigger] all[i]) by {
            if i < rest.len() {
                assert(all[i] == rest[i]);
            }
        }
    }
}

proof fn lemma_names_all(s: Seq<HitModel>, p: spec_fn(Seq<char>) -> bool)
    requires
        forall|i: int| 0 <= i < s.len() ==> p((#[trigger] s[i]).name),
    ensures
        forall|i: int| 0 <= i < hit_names(s).len() ==> p(#[trigger] hit_names(s)[i]),
    decreases s.len(),
{
    if s.len() > 0 {
        assert forall|i: int| 0 <= i < s.drop_last().len() implies p(
            (#[trigger] s.drop_last()[i]).name,
        ) by {
            assert(s.drop_last()[i] == s[i]);
        }
        lemma_names_all(s.drop_last(), p);
        assert(p(s[s.len() - 1].name));
        let rest = hit_names(s.drop_last());
        let all = hit_names(s);
        assert forall|i: int| 0 <= i < all.len() implies p(#[trigger] all[i]) by {
            if i < rest.len() {
                assert(all[i] == rest[i]);
            }
        }
    }
}

/// What is suggested is another name of the table within the budget, and no more than
/// `max` names are.
pub proof fn law_suggestions_are_close(
    table: TableState,
    query: Seq<char>,
    budget: usize,
    max: usize,
)
    ensures
        suggestions(table, query, budget, max).len() <= max,
        forall|i: int|
            0 <= i < suggestions(table, query, budget, max).len() ==> close(
                table,
                query,
                budget,
                #[trigger] suggestions(table, query, budget, max)[i],
            ),
{
    let n = table.symbols.len();
    let found = hits(table, query, budget, n);
    lemma_hits_close(table, query, budget, n);
    let p = |name: Seq<char>| close(table, query, budget, name);
    let q = |h: HitModel| close(table, query, budget, h.name);
    lemma_sorted_all(found, closer_order(), q);
    let sorted = sorting::sorted_by(found, closer_order());
    assert forall|i: int| 0 <= i < sorted.len() implies p((#[trigger] sorted[i]).name) by {
        assert(q(sorted[i]));
    }
    lemma_names_all(sorted, p);
    let names = hit_names(sorted);
    assert forall|i: int| 0 <= i < suggestions(table, query, budget, max).len() implies close(
        table,
        query,
        budget,
        #[trigger] suggestions(table, query, budget, max)[i],
    ) by {
        assert(p(names[i]));
    }
}

} // verus!
