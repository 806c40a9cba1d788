//! Where the quick reader of stubs and the general one agree.

use vstd::prelude::*;
use crate::macho::tbd::decode;
use crate::macho::tbd::direct;
use crate::macho::tbd::direct::Balance;
use crate::macho::tbd::TbdFault;
use crate::macho::tbd_yaml::scan;
use crate::macho::tbd_yaml::scan::Open;
use crate::macho::tbd_yaml::values;
use crate::macho::tbd_yaml::{Node, YamlFault};
use crate::text;

verus! {

/// The text escapes no `0`, which only the general reader takes for a zero character.
pub open spec fn no_nul_escape(s: Seq<char>) -> bool {
    forall|i: int| 0 <= i && i + 1 < s.len() && #[trigger] s[i] == '\\' ==> s[i + 1] != '0'
}

pub proof fn lemma_part_escapes_no_nul(s: Seq<char>, from: int, to: int)
    requires
        no_nul_escape(s),
        0 <= from <= to <= s.len(),
    ensures
        no_nul_escape(s.subrange(from, to)),
{
    let t = s.subrange(from, to);
    assert forall|i: int| 0 <= i && i + 1 < t.len() && #[trigger] t[i] == '\\' implies t[i + 1]
        != '0' by {
        assert(s[from + i] == t[i]);
        assert(s[from + i + 1] == t[i + 1]);
    }
}

pub proof fn lemma_start_part(s: Seq<char>) -> (a: int)
    ensures
        0 <= a <= s.len(),
        forall|j: int| 0 <= j < a ==> text::is_space(#[trigger] s[j]),
        text::trimmed_start(s) == s.subrange(a, s.len() as int),
    decreases s.len(),
{
    if s.len() > 0 && text::is_space(s.first()) {
        let a = lemma_start_part(s.drop_first());
        assert(s.drop_first().subrange(a, s.len() - 1) =~= s.subrange(a + 1, s.len() as int));
        assert forall|j: int| 0 <= j < a + 1 implies text::is_space(#[trigger] s[j]) by {
            if j > 0 {
                assert(s.drop_first()[j - 1] == s[j]);
            }
        }
        a + 1
    } else {
        assert(s.subrange(0, s.len() as int) =~= s);
        0
    }
}

proof fn lemma_end_part(s: Seq<char>) -> (b: int)
    ensures
        0 <= b <= s.len(),
        text::trimmed_end(s) == s.subrange(0, b),
    decreases s.len(),
{
    if s.len() > 0 && text::is_space(s.last()) {
        let b = lemma_end_part(s.drop_last());
        assert(s.drop_last().subrange(0, b) =~= s.subrange(0, b));
        b
    } else {
        assert(s.subrange(0, s.len() as int) =~= s);
        s.len() as int
    }
}

proof fn lemma_trimmed_escapes_no_nul(s: Seq<char>)
    requires
        no_nul_escape(s),
    ensures
        no_nul_escape(text::trimmed(s)),
{
    let a = lemma_start_part(s);
    let t = text::trimmed_start(s);
    lemma_part_escapes_no_nul(s, a, s.len() as int);
    let b = lemma_end_part(t);
    lemma_part_escapes_no_nul(t, 0, b);
}

proof fn lemma_trimmed_twice(s: Seq<char>)
    ensures
        text::trimmed(text::trimmed(s)) == text::trimmed(s),
{
    lemma_start_stays(s);
    lemma_end_stays(text::trimmed_start(s));
    let t = text::trimmed(s);
    let b = lemma_end_part(text::trimmed_start(s));
    if t.len() > 0 {
        assert(t.first() == text::trimmed_start(s).first());
    }
}

pub proof fn lemma_start_stays(s: Seq<char>)
    ensures
        text::trimmed_start(s).len() > 0 ==> !text::is_space(text::trimmed_start(s).first()),
    decreases s.len(),
{
    if s.len() > 0 && text::is_space(s.first()) {
        lemma_start_stays(s.drop_first());
    }
}

/// A text that starts with something else than white space is not blank.
pub proof fn lemma_trimmed_nonempty(s: Seq<char>)
    requires
        s.len() > 0,
        !text::is_space(s.first()),
    ensures
        text::trimmed(s).len() > 0,
        text::trimmed(s).first() == s.first(),
{
    let b = lemma_end_part(s);
    lemma_end_reaches(s);
}

proof fn lemma_end_reaches(s: Seq<char>)
    requires
        s.len() > 0,
        !text::is_space(s.first()),
    ensures
        text::trimmed_end(s).len() > 0,
    decreases s.len(),
{
    if text::is_space(s.last()) {
        lemma_end_reaches(s.drop_last());
    }
}

proof fn lemma_end_stays(s: Seq<char>)
    ensures
        text::trimmed_end(s).len() > 0 ==> !text::is_space(text::trimmed_end(s).last()),
        text::trimmed_end(text::trimmed_end(s)) == text::trimmed_end(s),
    decreases s.len(),
{
    if s.len() > 0 && text::is_space(s.last()) {
        lemma_end_stays(s.drop_last());
    }
}

proof fn lemma_single(s: Seq<char>, i: int, done: Seq<char>)
    requires
        0 <= i,
        values::single_from(s, i, done) is Some,
    ensures
        direct::halved_from(s, i, done) == values::single_from(s, i, done)->0,
    decreases s.len() - i,
{
    if i < s.len() {
        if s[i] != '\'' {
            lemma_single(s, i + 1, done.push(s[i]));
        } else {
            lemma_single(s, i + 2, done.push('\''));
        }
    }
}

proof fn lemma_double(s: Seq<char>, i: int, done: Seq<char>)
    requires
        0 <= i,
        no_nul_escape(s),
        values::double_from(s, i, done) is Ok,
    ensures
        direct::unescaped_from(s, i, done) == values::double_from(s, i, done)->Ok_0,
    decreases s.len() - i,
{
    if i < s.len() {
        if s[i] == '\\' {
            lemma_double(s, i + 2, done.push(values::unescaped(s[i + 1])));
        } else {
            lemma_double(s, i + 1, done.push(s[i]));
        }
    }
}

/// What the general reader takes for a scalar, the quick one takes for the same scalar.
pub proof fn law_scalars_agree(s: Seq<char>, line: usize, col: usize)
    requires
        no_nul_escape(s),
        values::inline_value(s, line, col) matches Ok(Node::Scalar(_)),
    ensures
        values::inline_value(s, line, col) == Ok::<Node, YamlFault>(Node::Scalar(direct::plain(s))),
{
    let t = text::trimmed(s);
    lemma_trimmed_escapes_no_nul(s);
    if t.len() >= 2 {
        lemma_part_escapes_no_nul(t, 1, t.len() - 1);
        if t.first() == '\'' && t.last() == '\'' {
            lemma_single(values::inner(t), 0, seq![]);
        } else if t.first() == '"' && t.last() == '"' {
            lemma_double(values::inner(t), 0, seq![]);
        }
    }
}

/// Every item is a scalar.
pub open spec fn all_scalars(items: Seq<Node>) -> bool {
    forall|i: int| 0 <= i < items.len() ==> #[trigger] items[i] is Scalar
}

pub open spec fn scalar_texts(items: Seq<Node>) -> Seq<Seq<char>> {
    items.map_values(|n: Node| n->Scalar_0)
}

proof fn lemma_texts_concat(a: Seq<Seq<char>>, b: Seq<Seq<char>>)
    ensures
        direct::flow_texts(a + b) == direct::flow_texts(a) + direct::flow_texts(b),
    decreases b.len(),
{
    if b.len() == 0 {
        assert(a + b =~= a);
        assert(direct::flow_texts(a) + direct::flow_texts(b) =~= direct::flow_texts(a));
    } else {
        lemma_texts_concat(a, b.drop_last());
        assert((a + b).drop_last() =~= a + b.drop_last());
        assert((a + b).last() == b.last());
        assert(direct::flow_texts(a + b) =~= direct::flow_texts(a) + direct::flow_texts(b));
    }
}

proof fn lemma_flow_texts_one(x: Seq<char>)
    ensures
        direct::flow_texts(seq![x]) == if text::trimmed(x).len() == 0 {
            Seq::<Seq<char>>::empty()
        } else {
            seq![direct::plain(text::trimmed(x))]
        },
{
    assert(seq![x].drop_last() =~= seq![]);
    assert(direct::flow_texts(seq![x].drop_last()) =~= seq![]);
    assert(direct::flow_texts(seq![x]) =~= if text::trimmed(x).len() == 0 {
        Seq::<Seq<char>>::empty()
    } else {
        seq![direct::plain(text::trimmed(x))]
    });
}

proof fn lemma_flow_items(
    s: Seq<char>,
    start: int,
    i: int,
    q: Open,
    done: Seq<Node>,
    line: usize,
    col: usize,
)
    requires
        0 <= start <= i <= s.len(),
        no_nul_escape(s),
        values::flow_from(s, start, i, q, done, line, col) is Ok,
        all_scalars(values::flow_from(s, start, i, q, done, line, col)->Ok_0),
    ensures
        ({
            let items = values::flow_from(s, start, i, q, done, line, col)->Ok_0;
            &&& done.len() <= items.len()
            &&& items.take(done.len() as int) == done
            &&& scalar_texts(items) == scalar_texts(done) + direct::flow_texts(
                scan::items_from(s, start, i, q),
            )
        }),
    decreases s.len() - i,
{
    let items = values::flow_from(s, start, i, q, done, line, col)->Ok_0;
    if i >= s.len() || s[i] == ',' && !q.quoted() && q.depth == 0 && !q.escapes(s, i) {
        let end = if i >= s.len() {
            s.len() as int
        } else {
            i
        };
        let x = s.subrange(start, end);
        let item = text::trimmed(x);
        lemma_part_escapes_no_nul(s, start, end);
        lemma_trimmed_escapes_no_nul(x);
        lemma_flow_texts_one(x);
        let more = if item.len() == 0 {
            done
        } else {
            done.push(values::inline_value(item, line, col)->Ok_0)
        };
        if i < s.len() {
            lemma_flow_items(s, i + 1, i + 1, q.past(s[i]), more, line, col);
            lemma_texts_concat(
                seq![x],
                scan::items_from(s, i + 1, i + 1, q.past(s[i])),
            );
        } else {
            assert(items.take(more.len() as int) =~= more);
        }
        if item.len() > 0 {
            let v = values::inline_value(item, line, col)->Ok_0;
            assert(items.take(more.len() as int)[done.len() as int] == v);
            assert(items[done.len() as int] == v);
            law_scalars_agree(item, line, col);
            assert(scalar_texts(more) =~= scalar_texts(done).push(direct::plain(item)));
        }
        assert(items.take(done.len() as int) =~= done) by {
            assert(items.take(more.len() as int).take(done.len() as int) =~= items.take(
                done.len() as int,
            ));
            assert(more.take(done.len() as int) =~= done);
        }
        assert(scalar_texts(items) =~= scalar_texts(done) + direct::flow_texts(
            scan::items_from(s, start, i, q),
        ));
    } else if q.escapes(s, i) {
        lemma_flow_items(s, start, i + 2, q, done, line, col);
    } else {
        lemma_flow_items(s, start, i + 1, q.past(s[i]), done, line, col);
    }
}

/// What the general reader takes for a list of scalars, the quick one takes for the same
/// list, if it has the whole list.
pub proof fn law_lists_agree(s: Seq<char>, line: usize, col: usize)
    requires
        no_nul_escape(s),
        values::inline_value(s, line, col) matches Ok(Node::Sequence(items)) && all_scalars(items),
    ensures
        direct::bracketed(text::trimmed(s)) == Ok::<Seq<Seq<char>>, TbdFault>(
            scalar_texts(values::inline_value(s, line, col)->Ok_0->Sequence_0),
        ),
{
    let t = text::trimmed(s);
    lemma_trimmed_escapes_no_nul(s);
    lemma_part_escapes_no_nul(t, 1, t.len() - 1);
    lemma_flow_items(values::inner(t), 0, 0, scan::nothing_open(), seq![], line, col);
    let items = values::inline_value(s, line, col)->Ok_0->Sequence_0;
    assert(scalar_texts(Seq::<Node>::empty()) + direct::flow_texts(
        scan::flow_items(values::inner(t)),
    ) =~= direct::flow_texts(scan::flow_items(values::inner(t))));
}

pub proof fn lemma_balance(t: Seq<char>, i: int, q: Open)
    requires
        0 <= i <= t.len() < 0x7fff_ffff,
        ({
            let b = Balance::level().after(t.take(i));
            &&& b.single == q.single && b.double == q.double && b.depth == q.depth && !b.escaped
            &&& -i <= q.depth <= i
        }),
    ensures
        Balance::level().after(t).depth == scan::open_at_end(t, i, q).depth,
    decreases t.len() - i,
{
    if i >= t.len() {
        assert(t.take(i) =~= t);
    } else {
        assert(t.take(i + 1).drop_last() =~= t.take(i));
        assert(t.take(i + 1).last() == t[i]);
        if q.escapes(t, i) {
            assert(t.take(i + 2).drop_last() =~= t.take(i + 1));
            assert(t.take(i + 2).last() == t[i + 1]);
            assert(Balance::level().after(t.take(i + 1)).escaped);
            lemma_balance(t, i + 2, q);
        } else if t[i] == '\\' && q.double {
            assert(t.take(i + 1) =~= t);
            assert(scan::open_at_end(t, i + 1, q.past(t[i])) == q.past(t[i]));
        } else {
            lemma_balance(t, i + 1, q.past(t[i]));
        }
    }
}

/// A list that is closed on its line is found whole there.
proof fn lemma_flow_on_line(raw: Seq<Seq<char>>, i: int, rest: Seq<char>, gather: bool)
    requires
        text::trimmed(rest).len() < 0x7fff_ffff,
        values::enclosed(text::trimmed(rest), '[', ']'),
        !scan::unbalanced(text::trimmed(rest)),
    ensures
        direct::flow_at(raw, i, rest, gather) == Ok::<(Seq<char>, int), TbdFault>(
            (text::trimmed(rest), i + 1),
        ),
{
    let t = text::trimmed(rest);
    assert(t.take(0) =~= seq![]);
    assert(Balance::level().after(t.take(0)) == Balance::level());
    lemma_balance(t, 0, scan::nothing_open());
}

} // verus!
