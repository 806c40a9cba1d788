//! Stubs of the usual form, and what both readers make of them.

use vstd::prelude::*;
use crate::chars;
use crate::macho::tbd;
use crate::macho::tbd::agree;
use crate::macho::tbd::decode;
use crate::macho::tbd::direct;
use crate::macho::tbd::direct::Balance;
use crate::macho::tbd::lockstep;
use crate::macho::tbd::lockstep::Page;
use crate::macho::tbd::{TargetModel, TbdFault, TbdModel};
use crate::macho::tbd_yaml;
use crate::macho::tbd_yaml::block;
use crate::macho::tbd_yaml::lines;
use crate::macho::tbd_yaml::lines::Line;
use crate::macho::tbd_yaml::scan;
use crate::macho::tbd_yaml::scan::Open;
use crate::macho::tbd_yaml::values;
use crate::macho::tbd_yaml::{DocumentModel, Node, YamlFault};
use crate::text;

verus! {

/// A line without its indentation and without blanks at its end.
pub open spec fn content(s: Seq<char>) -> Seq<char> {
    let t = lines::without_tail(s);
    t.skip(lines::spaces(t) as int)
}

/// A line that holds something, without a comment.
pub open spec fn tidy(s: Seq<char>) -> bool {
    let b = content(s);
    &&& b.len() > 0
    &&& !text::is_space(b.first())
    &&& !text::is_space(b.last())
    &&& scan::without_comment(b) == b
    &&& agree::no_nul_escape(b)
}

/// A line that holds nothing, or only a comment.
pub open spec fn idle_line(s: Seq<char>) -> bool {
    lines::is_idle(lines::without_tail(s))
}

/// A line that goes on with a list.
pub open spec fn continues(s: Seq<char>) -> bool {
    tidy(s) && lines::spaces(s) > 0 && !direct::is_mark(content(s))
}

/// Neither a quote nor a bracket nor an escape.
pub open spec fn is_simple(c: char) -> bool {
    c != '\'' && c != '"' && c != '[' && c != ']' && c != '{' && c != '}' && c != '\\'
}

/// A simple key, its colon, and a blank or nothing.
pub open spec fn keyed(s: Seq<char>) -> bool {
    let at = direct::first_colon(s);
    &&& at < s.len()
    &&& forall|i: int| 0 <= i < at ==> is_simple(#[trigger] s[i])
    &&& at + 1 == s.len() || s[at + 1] == ' '
}

proof fn lemma_spaces(t: Seq<char>)
    ensures
        lines::spaces(t) <= t.len(),
        ({
            let b = t.skip(lines::spaces(t) as int);
            b.len() > 0 && !text::is_space(b.first()) ==> text::trimmed_start(t) == b
        }),
    decreases t.len(),
{
    let b = t.skip(lines::spaces(t) as int);
    if t.len() > 0 && t.first() == ' ' {
        lemma_spaces(t.drop_first());
        assert(t.drop_first().skip(lines::spaces(t.drop_first()) as int) =~= b);
    } else {
        assert(b =~= t);
    }
}

/// More behind a line changes nothing about its indentation.
proof fn lemma_spaces_stay(t: Seq<char>, w: Seq<char>)
    requires
        lines::spaces(t) < t.len(),
    ensures
        lines::spaces(t + w) == lines::spaces(t),
    decreases t.len(),
{
    assert((t + w).first() == t.first());
    if t.first() == ' ' {
        assert((t + w).drop_first() =~= t.drop_first() + w);
        lemma_spaces_stay(t.drop_first(), w);
    }
}

/// What is taken off the end of a line is white space.
proof fn lemma_tail(s: Seq<char>) -> (w: Seq<char>)
    ensures
        s == lines::without_tail(s) + w,
        forall|j: int| 0 <= j < w.len() ==> text::is_space(#[trigger] w[j]),
    decreases s.len(),
{
    if s.len() > 0 && (scan::is_blank(s.last()) || s.last() == '\r') {
        let v = lemma_tail(s.drop_last());
        let w = v.push(s.last());
        assert(s =~= s.drop_last().push(s.last()));
        assert(lines::without_tail(s) == lines::without_tail(s.drop_last()));
        assert(s =~= lines::without_tail(s) + w);
        w
    } else {
        assert(s =~= lines::without_tail(s) + Seq::<char>::empty());
        Seq::empty()
    }
}

proof fn lemma_space_behind(b: Seq<char>, w: Seq<char>)
    requires
        forall|j: int| 0 <= j < w.len() ==> text::is_space(#[trigger] w[j]),
        b.len() > 0 ==> !text::is_space(b.last()),
    ensures
        text::trimmed_end(b + w) == b,
    decreases w.len(),
{
    if w.len() == 0 {
        assert(b + w =~= b);
    } else {
        assert((b + w).last() == w.last());
        assert((b + w).drop_last() =~= b + w.drop_last());
        lemma_space_behind(b, w.drop_last());
    }
}

proof fn lemma_all_space(w: Seq<char>)
    requires
        forall|j: int| 0 <= j < w.len() ==> text::is_space(#[trigger] w[j]),
    ensures
        text::trimmed_start(w) == Seq::<char>::empty(),
    decreases w.len(),
{
    if w.len() > 0 {
        assert(text::is_space(w[0]));
        lemma_all_space(w.drop_first());
    } else {
        assert(w =~= Seq::empty());
    }
}

proof fn lemma_lead_kept(s: Seq<char>)
    requires
        s.len() > 0,
        !text::is_space(s.first()),
    ensures
        text::trimmed_end(s).len() > 0,
        text::trimmed_end(s).first() == s.first(),
    decreases s.len(),
{
    if text::is_space(s.last()) {
        assert(s.drop_last().first() == s.first());
        lemma_lead_kept(s.drop_last());
    }
}

/// What both readers see of a tidy line.
proof fn lemma_tidy(s: Seq<char>)
    requires
        tidy(s),
    ensures
        !lines::is_idle(lines::without_tail(s)),
        text::trimmed_start(lines::without_tail(s)) == content(s),
        lines::spaces(lines::without_tail(s)) == lines::spaces(s),
        scan::without_comment(content(s)) == content(s),
        direct::busy(s) == Some(content(s)),
{
    let t = lines::without_tail(s);
    let b = content(s);
    lemma_spaces(t);
    let w = lemma_tail(s);
    lemma_spaces_stay(t, w);
    lemma_trimmed_start_more(t, w);
    lemma_space_behind(b, w);
    if b.first() == '#' {
        assert(scan::comment_from(b, 0, scan::nothing_open()) == 0);
        assert(b.take(0) =~= seq![]);
    }
}

/// What both readers see of an idle line.
proof fn lemma_idle(s: Seq<char>)
    requires
        idle_line(s),
    ensures
        direct::busy(s) is None,
        scan::without_comment(text::trimmed_start(lines::without_tail(s))) == Seq::<char>::empty(),
{
    let t = lines::without_tail(s);
    let w = lemma_tail(s);
    if t.len() == 0 {
        assert(s =~= w);
        lemma_all_space(w);
        assert(scan::without_comment(text::trimmed_start(t)) =~= Seq::empty());
    } else {
        let b = text::trimmed_start(t);
        lemma_trimmed_start_more(t, w);
        assert(!text::is_space('#'));
        lemma_lead_kept(b + w);
        assert(scan::comment_from(b, 0, scan::nothing_open()) == 0);
        assert(b.take(0) =~= seq![]);
    }
}

proof fn lemma_idle_lines(raw: Seq<Seq<char>>, a: int, b: int)
    requires
        forall|j: int| a <= j < b ==> idle_line(#[trigger] raw[j]),
    ensures
        lockstep::idle(raw, a, b),
{
    assert forall|j: int| a <= j < b implies direct::busy(#[trigger] raw[j]) is None by {
        lemma_idle(raw[j]);
    }
}

proof fn lemma_first_colon(s: Seq<char>)
    ensures
        0 <= direct::first_colon(s) <= s.len(),
        direct::first_colon(s) < s.len() ==> s[direct::first_colon(s)] == ':',
        forall|i: int| 0 <= i < direct::first_colon(s) ==> #[trigger] s[i] != ':',
    decreases s.len(),
{
    if s.len() > 0 && s.first() != ':' {
        let t = s.drop_first();
        lemma_first_colon(t);
        assert forall|i: int| 0 <= i < direct::first_colon(s) implies #[trigger] s[i] != ':' by {
            if i > 0 {
                assert(t[i - 1] == s[i]);
            }
        }
    }
}

proof fn lemma_colon_found(s: Seq<char>, at: int, i: int)
    requires
        0 <= i <= at < s.len(),
        forall|j: int| 0 <= j < at ==> is_simple(#[trigger] s[j]) && s[j] != ':',
        s[at] == ':',
        at + 1 == s.len() || s[at + 1] == ' ',
    ensures
        scan::colon_from(s, i, scan::nothing_open()) == Some(at),
    decreases at - i,
{
    if i < at {
        assert(is_simple(s[i]) && s[i] != ':');
        lemma_colon_found(s, at, i + 1);
    }
}

/// Both readers find the same key in a line and in the line with more behind it.
proof fn lemma_keyed(s: Seq<char>, full: Seq<char>)
    requires
        keyed(s),
        s.len() <= full.len(),
        full.take(s.len() as int) == s,
        s.len() < full.len() ==> full[s.len() as int] == ' ',
    ensures
        ({
            let at = direct::first_colon(s);
            &&& direct::key_rest(s) == Some(
                (text::trimmed(s.take(at)), text::trimmed_start(s.skip(at + 1))),
            )
            &&& lockstep::pair_of(full) == Ok::<(Seq<char>, Seq<char>), YamlFault>(
                (text::trimmed(s.take(at)), text::trimmed_start(full.skip(at + 1))),
            )
        }),
{
    let at = direct::first_colon(s);
    lemma_first_colon(s);
    assert forall|j: int| 0 <= j < at implies is_simple(#[trigger] full[j]) && full[j] != ':' by {
        assert(full[j] == full.take(s.len() as int)[j]);
        assert(s[j] == full[j]);
    }
    assert(full[at] == full.take(s.len() as int)[at]);
    if at + 1 < s.len() {
        assert(full[at + 1] == full.take(s.len() as int)[at + 1]);
    }
    lemma_colon_found(full, at, 0);
    assert(full.take(at) =~= s.take(at));
}

proof fn lemma_open_shift(p: Seq<char>, f: Seq<char>, j: int, q: Open)
    requires
        0 <= j,
    ensures
        scan::open_at_end(p + f, p.len() + j, q) == scan::open_at_end(f, j, q),
    decreases f.len() - j,
{
    if j < f.len() {
        assert((p + f)[p.len() + j] == f[j]);
        if q.escapes(f, j) {
            lemma_open_shift(p, f, j + 2, q);
        } else {
            assert(!q.escapes(p + f, p.len() + j));
            lemma_open_shift(p, f, j + 1, q.past(f[j]));
        }
    }
}

/// A simple text in front opens nothing.
proof fn lemma_open_behind(p: Seq<char>, f: Seq<char>, i: int)
    requires
        0 <= i <= p.len(),
        forall|j: int| 0 <= j < p.len() ==> is_simple(#[trigger] p[j]),
    ensures
        scan::open_at_end(p + f, i, scan::nothing_open()) == scan::open_at_end(
            f,
            0,
            scan::nothing_open(),
        ),
    decreases p.len() - i,
{
    if i < p.len() {
        assert((p + f)[i] == p[i]);
        assert(is_simple(p[i]));
        lemma_open_behind(p, f, i + 1);
    } else {
        lemma_open_shift(p, f, 0, scan::nothing_open());
    }
}

proof fn lemma_after_concat(b: Balance, s: Seq<char>, t: Seq<char>)
    ensures
        b.after(s + t) == b.after(s).after(t),
    decreases t.len(),
{
    if t.len() == 0 {
        assert(s + t =~= s);
    } else {
        lemma_after_concat(b, s, t.drop_last());
        assert((s + t).drop_last() =~= s + t.drop_last());
        assert((s + t).last() == t.last());
    }
}

/// A list over several lines is gathered alike.
proof fn lemma_gathered(
    raw: Seq<Seq<char>>,
    start: int,
    i: int,
    p: Seq<char>,
    flow: Seq<char>,
    first: Seq<char>,
    gather: bool,
)
    requires
        0 <= i <= raw.len(),
        flow.len() > 0,
        forall|j: int| 0 <= j < p.len() ==> is_simple(#[trigger] p[j]),
        lines::joined(raw, i, p + flow) matches Some((full, next)) && full.len() < 0x7fff_ffff && (
        forall|j: int| i <= j < next ==> continues(#[trigger] raw[j]) || idle_line(raw[j])),
    ensures
        ({
            let (full, next) = lines::joined(raw, i, p + flow)->0;
            let g = full.skip(p.len() as int);
            let r = direct::flow_from(
                raw,
                start,
                i,
                flow,
                Balance::level().after(flow),
                flow.last() == ']',
                first,
                gather,
            );
            &&& full == p + g
            &&& g.len() >= flow.len()
            &&& g.take(flow.len() as int) == flow
            &&& g.len() > flow.len() ==> g[flow.len() as int] == ' '
            &&& i <= next <= raw.len()
            &&& !scan::unbalanced(g)
            &&& g.last() == ']' && r is Ok ==> r->Ok_0 == (g, next)
            &&& g.last() == ']' && (forall|j: int| i <= j < next ==> continues(#[trigger] raw[j]))
                ==> r is Ok
        }),
    decreases raw.len() - i,
{
    let (full, next) = lines::joined(raw, i, p + flow)->0;
    let g = full.skip(p.len() as int);
    lines::lemma_joined(raw, i, p + flow);
    lemma_joined_longer(raw, i, p + flow);
    lemma_open_behind(p, flow, 0);
    assert(flow.take(0) =~= seq![]);
    agree::lemma_balance(flow, 0, scan::nothing_open());
    if !scan::unbalanced(p + flow) {
        assert(g =~= flow);
        assert(p + g =~= full);
        assert(g.take(flow.len() as int) =~= flow);
    } else {
        let s = raw[i];
        lines::lemma_joined(
            raw,
            i + 1,
            p + flow + seq![' '] + scan::without_comment(
                text::trimmed_start(lines::without_tail(s)),
            ),
        );
        assert(continues(s) || idle_line(s));
        let b = if idle_line(s) {
            Seq::empty()
        } else {
            content(s)
        };
        let longer = flow + seq![' '] + b;
        assert(p + flow + seq![' '] + b =~= p + longer);
        if idle_line(s) {
            lemma_idle(s);
            assert(!tidy(s)) by {
                if tidy(s) {
                    lemma_tidy(s);
                }
            }
        } else {
            lemma_tidy(s);
            lemma_after_concat(Balance::level(), flow, seq![' ']);
            lemma_after_concat(Balance::level(), flow + seq![' '], b);
            assert(longer.last() == b.last());
        }
        lemma_gathered(raw, start, i + 1, p, longer, first, gather);
        assert(g.take(longer.len() as int).take(flow.len() as int) =~= g.take(flow.len() as int));
        assert(longer.take(flow.len() as int) =~= flow);
        assert(g[flow.len() as int] == g.take(longer.len() as int)[flow.len() as int]);
    }
}

proof fn lemma_joined_longer(raw: Seq<Seq<char>>, i: int, content: Seq<char>)
    requires
        lines::joined(raw, i, content) is Some,
    ensures
        content.len() <= (lines::joined(raw, i, content)->0).0.len(),
    decreases raw.len() - i,
{
    if scan::unbalanced(content) && i < raw.len() {
        let more = content + seq![' '] + scan::without_comment(
            text::trimmed_start(lines::without_tail(raw[i])),
        );
        lemma_joined_longer(raw, i + 1, more);
    }
}

/// The text in brackets that a value starts with ends the value.
pub open spec fn closed(value: Seq<char>) -> bool {
    value.len() > 0 && value.first() == '[' ==> value.last() == ']'
}

/// A line of a text: the raw line `at`, with those that a list on it goes on over. `lead`
/// characters stand before its key.
pub open spec fn row(raw: Seq<Seq<char>>, at: int, lead: int) -> bool {
    let b = content(raw[at]);
    let first = b.skip(lead);
    let value = text::trimmed_start(first.skip(direct::first_colon(first) + 1));
    &&& 0 <= at < raw.len()
    &&& tidy(raw[at])
    &&& 0 <= lead < b.len()
    &&& forall|i: int| 0 <= i < lead ==> is_simple(#[trigger] b[i])
    &&& keyed(first)
    &&& lines::joined(raw, at + 1, b) matches Some((full, _)) && full.len() < 0x7fff_ffff && closed(
        text::trimmed_start(full.skip(lead + direct::first_colon(first) + 1)),
    ) && agree::no_nul_escape(full)
    &&& forall|j: int|
        at < j < behind(raw, at) ==> continues(#[trigger] raw[j]) || idle_line(raw[j])
    &&& value.len() > 0 && value.first() == '[' || behind(raw, at) == at + 1
}

/// The whole of the line that starts on raw line `at`, and the raw line behind it.
pub open spec fn whole(raw: Seq<Seq<char>>, at: int) -> Seq<char> {
    (lines::joined(raw, at + 1, content(raw[at]))->0).0
}

pub open spec fn behind(raw: Seq<Seq<char>>, at: int) -> int {
    (lines::joined(raw, at + 1, content(raw[at]))->0).1
}

/// The line that starts on raw line `at` goes on over no idle line.
pub open spec fn in_one(raw: Seq<Seq<char>>, at: int) -> bool {
    forall|j: int| at < j < behind(raw, at) ==> continues(#[trigger] raw[j])
}

proof fn lemma_trimmed_start_more(s: Seq<char>, more: Seq<char>)
    requires
        text::trimmed_start(s).len() > 0,
    ensures
        text::trimmed_start(s + more) == text::trimmed_start(s) + more,
    decreases s.len(),
{
    if s.len() > 0 && text::is_space(s.first()) {
        assert((s + more).drop_first() =~= s.drop_first() + more);
        lemma_trimmed_start_more(s.drop_first(), more);
    }
}

proof fn lemma_blank_lead(w: Seq<char>, g: Seq<char>)
    requires
        forall|j: int| 0 <= j < w.len() ==> text::is_space(#[trigger] w[j]),
        g.len() > 0,
        !text::is_space(g.first()),
    ensures
        text::trimmed_start(w + g) == g,
    decreases w.len(),
{
    if w.len() == 0 {
        assert(w + g =~= g);
    } else {
        assert((w + g).first() == w[0]);
        assert((w + g).drop_first() =~= w.drop_first() + g);
        assert forall|j: int| 0 <= j < w.drop_first().len() implies text::is_space(
            #[trigger] w.drop_first()[j],
        ) by {
            assert(w.drop_first()[j] == w[j + 1]);
        }
        lemma_blank_lead(w.drop_first(), g);
    }
}

/// The value of a line whose list starts behind `p`.
proof fn lemma_row_value(p: Seq<char>, g: Seq<char>, n: int)
    requires
        0 <= n <= p.len(),
        forall|j: int| n <= j < p.len() ==> text::is_space(#[trigger] p[j]),
        g.len() > 0,
        g.first() == '[',
        closed(text::trimmed_start((p + g).skip(n))),
    ensures
        text::trimmed_start((p + g).skip(n)) == g,
        text::trimmed(g) == g,
        g.last() == ']',
{
    let w = p.skip(n);
    assert((p + g).skip(n) =~= w + g);
    assert forall|j: int| 0 <= j < w.len() implies text::is_space(#[trigger] w[j]) by {
        assert(w[j] == p[n + j]);
    }
    lemma_blank_lead(w, g);
}

proof fn lemma_alone(raw: Seq<Seq<char>>, at: int, b: Seq<char>)
    requires
        0 <= at < raw.len(),
        lines::joined(raw, at + 1, b) matches Some((_, next)) && next == at + 1,
    ensures
        (lines::joined(raw, at + 1, b)->0).0 == b,
{
    if scan::unbalanced(b) && at + 1 < raw.len() {
        lines::lemma_joined(
            raw,
            at + 2,
            b + seq![' '] + scan::without_comment(
                text::trimmed_start(lines::without_tail(raw[at + 1])),
            ),
        );
    }
}

/// Both readers find the same key and value in a line.
#[verifier::rlimit(60)]
proof fn lemma_row_agrees(raw: Seq<Seq<char>>, at: int, lead: int)
    requires
        row(raw, at, lead),
    ensures
        lockstep::agrees(
            raw,
            at,
            behind(raw, at),
            content(raw[at]).skip(lead),
            whole(raw, at).skip(lead),
        ),
        in_one(raw, at) ==> lockstep::gathers(
            raw,
            at,
            lockstep::rest_of(content(raw[at]).skip(lead)),
        ),
        lockstep::key_at(whole(raw, at).skip(lead)) == text::trimmed(
            content(raw[at]).skip(lead).take(direct::first_colon(content(raw[at]).skip(lead))),
        ),
        lockstep::value_at(whole(raw, at).skip(lead)).len() == 0 <==> text::trimmed_start(
            content(raw[at]).skip(lead).skip(
                direct::first_colon(content(raw[at]).skip(lead)) + 1,
            ),
        ).len() == 0,
        content(raw[at]).len() <= whole(raw, at).len(),
        whole(raw, at).take(content(raw[at]).len() as int) == content(raw[at]),
{
    let b = content(raw[at]);
    let first = b.skip(lead);
    let colon = direct::first_colon(first);
    let rest = text::trimmed_start(first.skip(colon + 1));
    let full = whole(raw, at);
    let after = full.skip(lead);
    let value = text::trimmed_start(after.skip(colon + 1));
    let next = behind(raw, at);
    lemma_first_colon(first);
    lines::lemma_joined(raw, at + 1, b);
    lemma_joined_longer(raw, at + 1, b);
    assert(after.skip(colon + 1) =~= full.skip(lead + colon + 1));
    agree::lemma_start_stays(first.skip(colon + 1));
    if rest.len() > 0 && rest.first() == '[' {
        let a = agree::lemma_start_part(first.skip(colon + 1));
        let p = b.take(lead + colon + 1 + a);
        assert(b =~= p + rest);
        assert forall|j: int| 0 <= j < p.len() implies is_simple(#[trigger] p[j]) by {
            assert(p[j] == b[j]);
            if j >= lead {
                assert(b[j] == first[j - lead]);
                if j - lead > colon {
                    assert(text::is_space(first.skip(colon + 1)[j - lead - colon - 1]));
                    assert(first.skip(colon + 1)[j - lead - colon - 1] == b[j]);
                }
            }
        }
        assert(rest.last() == b.last());
        assert(text::trimmed_end(rest) == rest);
        assert(text::trimmed_start(rest) == rest);
        lemma_gathered(raw, at, at + 1, p, rest, rest, true);
        let g = full.skip(p.len() as int);
        assert(g.first() == g.take(rest.len() as int).first());
        assert forall|j: int| lead + colon + 1 <= j < p.len() implies text::is_space(
            #[trigger] p[j],
        ) by {
            assert(text::is_space(first.skip(colon + 1)[j - lead - colon - 1]));
            assert(first.skip(colon + 1)[j - lead - colon - 1] == p[j]);
        }
        lemma_row_value(p, g, lead + colon + 1);
        assert(value == g);
        assert forall|gather: bool|
            (in_one(raw, at) ==> (#[trigger] direct::flow_at(raw, at, rest, gather)) is Ok) && (
            direct::flow_at(raw, at, rest, gather) is Ok ==> direct::flow_at(
                raw,
                at,
                rest,
                gather,
            ) == Ok::<(Seq<char>, int), TbdFault>((text::trimmed(value), next))) by {
            lemma_gathered(raw, at, at + 1, p, rest, rest, gather);
        }
        assert(full.take(b.len() as int) =~= b) by {
            assert(p + g.take(rest.len() as int) =~= b);
        }
        assert(after.take(first.len() as int) =~= first);
        if first.len() < after.len() {
            assert(after[first.len() as int] == g[rest.len() as int]);
        }
        lemma_keyed(first, after);
    } else {
        lemma_alone(raw, at, b);
        assert(full == b);
        assert(after =~= first);
        assert(after.take(first.len() as int) =~= first);
        lemma_keyed(first, after);
        if value.len() > 0 {
            agree::lemma_trimmed_nonempty(value);
        }
    }
    let k = agree::lemma_start_part(after.skip(colon + 1));
    assert(value =~= full.subrange(lead + colon + 1 + k, full.len() as int));
    agree::lemma_part_escapes_no_nul(full, lead + colon + 1 + k, full.len() as int);
    assert(full.take(b.len() as int) =~= b);
}

/// The key of a line, and whether its value is on the line.
pub open spec fn key_in(s: Seq<char>) -> Seq<char> {
    text::trimmed(s.take(direct::first_colon(s)))
}

pub open spec fn bare(s: Seq<char>) -> bool {
    text::trimmed_start(s.skip(direct::first_colon(s) + 1)).len() == 0
}

/// A mark that parts documents, alone on its line but for a tag.
pub open spec fn mark_line(raw: Seq<Seq<char>>, at: int) -> bool {
    let b = content(raw[at]);
    &&& 0 <= at < raw.len()
    &&& tidy(raw[at])
    &&& lines::spaces(raw[at]) == 0
    &&& direct::is_mark(b)
    &&& !scan::unbalanced(b)
    &&& tbd_yaml::behind_mark(b).len() == 0
}

/// A key of a stub: with a value, or for entries to follow.
pub open spec fn top_line(raw: Seq<Seq<char>>, at: int) -> bool {
    let b = content(raw[at]);
    &&& row(raw, at, 0)
    &&& lines::spaces(raw[at]) == 0
    &&& b.first() != '-'
    &&& !direct::is_mark(b)
    &&& !chars::prefixed(b, "%YAML"@)
    &&& lockstep::is_scoped_key(key_in(b)) ==> bare(b)
}

/// The targets that an entry starts with.
pub open spec fn entry_line(raw: Seq<Seq<char>>, at: int) -> bool {
    let b = content(raw[at]);
    &&& row(raw, at, 2)
    &&& lines::spaces(raw[at]) == 2
    &&& b[0] == '-' && b[1] == ' ' && !text::is_space(b[2])
    &&& key_in(b.skip(2)) == "targets"@
    &&& !bare(b.skip(2))
}

/// A further key of an entry.
pub open spec fn nested_line(raw: Seq<Seq<char>>, at: int) -> bool {
    let b = content(raw[at]);
    &&& row(raw, at, 0)
    &&& lines::spaces(raw[at]) == 4
    &&& b.first() != '-'
    &&& !direct::is_mark(b)
    &&& key_in(b) != "targets"@
    &&& !bare(b)
}

/// Line `k` of a text whose lines start on the raw lines `rows`. Up to the next one there
/// are only idle lines.
pub open spec fn line_fits(raw: Seq<Seq<char>>, rows: Seq<int>, k: int) -> bool {
    let under = k > 0 && (entry_line(raw, rows[k - 1]) || nested_line(raw, rows[k - 1]));
    &&& behind(raw, rows[k]) <= rows[k + 1] <= raw.len()
    &&& forall|j: int|
        behind(raw, rows[k]) <= j < rows[k + 1] ==> idle_line(#[trigger] raw[j])
    &&& {
        ||| mark_line(raw, rows[k])
        ||| top_line(raw, rows[k]) && (bare(content(raw[rows[k]])) ==> k + 2 < rows.len()
            && entry_line(raw, rows[k + 1]))
        ||| entry_line(raw, rows[k]) && (under || k > 0 && top_line(raw, rows[k - 1]) && bare(
            content(raw[rows[k - 1]]),
        ))
        ||| nested_line(raw, rows[k]) && under
    }
}

/// A text of the usual form: documents of keys with values, and of keys with entries
/// that are indented by two, each with its targets first and its other keys indented by
/// four. Lists may go on over indented lines. Blank lines and lines with only a comment
/// may stand anywhere; the other lines have no comments. The lines start on the raw
/// lines `rows`.
pub open spec fn usual_text(input: Seq<char>, rows: Seq<int>) -> bool {
    let raw = text::split(input, '\n');
    let m = rows.len() - 1;
    &&& m >= 0
    &&& 0 <= rows[0]
    &&& forall|j: int| 0 <= j < rows[0] ==> idle_line(#[trigger] raw[j])
    &&& rows[m] == raw.len()
    &&& forall|k: int| 0 <= k < m ==> #[trigger] line_fits(raw, rows, k)
}

/// Line `k` goes on over no idle line, and stands behind none if it is indented.
pub open spec fn is_smooth(raw: Seq<Seq<char>>, rows: Seq<int>, k: int) -> bool {
    in_one(raw, rows[k]) && (k > 0 && lines::spaces(raw[rows[k]]) > 0 ==> behind(
        raw,
        rows[k - 1],
    ) == rows[k])
}

/// Blank lines and lines with only a comment stand neither in lists nor in front of
/// indented lines.
pub open spec fn smooth_text(input: Seq<char>, rows: Seq<int>) -> bool {
    let raw = text::split(input, '\n');
    forall|k: int| 0 <= k < rows.len() - 1 ==> #[trigger] is_smooth(raw, rows, k)
}

pub open spec fn line_at(raw: Seq<Seq<char>>, at: int) -> Line {
    Line {
        indent: lines::spaces(raw[at]) as usize,
        content: whole(raw, at),
        line_no: (at + 1) as usize,
    }
}

pub open spec fn lines_of(raw: Seq<Seq<char>>, rows: Seq<int>) -> Seq<Line> {
    Seq::new((rows.len() - 1) as nat, |k: int| line_at(raw, rows[k]))
}

/// What every line has in common.
proof fn lemma_line(raw: Seq<Seq<char>>, rows: Seq<int>, k: int)
    requires
        0 <= k < rows.len() - 1,
        line_fits(raw, rows, k),
    ensures
        0 <= rows[k] < behind(raw, rows[k]) <= rows[k + 1] <= raw.len(),
        tidy(raw[rows[k]]),
        lines::joined(raw, rows[k] + 1, content(raw[rows[k]])) == Some(
            (whole(raw, rows[k]), behind(raw, rows[k])),
        ),
        lines::spaces(raw[rows[k]]) <= 4,
        lockstep::idle(raw, behind(raw, rows[k]), rows[k + 1]),
        mark_line(raw, rows[k]) ==> behind(raw, rows[k]) == rows[k] + 1,
{
    lines::lemma_joined(raw, rows[k] + 1, content(raw[rows[k]]));
    lemma_idle_lines(raw, behind(raw, rows[k]), rows[k + 1]);
}

/// The general reader passes over idle lines.
proof fn lemma_idle_skipped(raw: Seq<Seq<char>>, i: int, e: int, done: Seq<Line>)
    requires
        0 <= i <= e <= raw.len(),
        forall|j: int| i <= j < e ==> idle_line(#[trigger] raw[j]),
    ensures
        lines::lines_from(raw, i, done) == lines::lines_from(raw, e, done),
    decreases e - i,
{
    if i < e {
        assert(idle_line(raw[i]));
        lemma_idle_skipped(raw, i + 1, e, done);
    }
}

proof fn lemma_lines(raw: Seq<Seq<char>>, rows: Seq<int>, k: int)
    requires
        0 <= k < rows.len(),
        rows[rows.len() - 1] == raw.len(),
        forall|i: int| 0 <= i < rows.len() - 1 ==> #[trigger] line_fits(raw, rows, i),
    ensures
        lines::lines_from(raw, rows[k], lines_of(raw, rows).take(k)) == Ok::<
            Seq<Line>,
            YamlFault,
        >(lines_of(raw, rows)),
    decreases rows.len() - k,
{
    let all = lines_of(raw, rows);
    let i = rows[k];
    if k == rows.len() - 1 {
        assert(all.take(k) =~= all);
    } else {
        assert(line_fits(raw, rows, k));
        lemma_line(raw, rows, k);
        lemma_tidy(raw[i]);
        lemma_lines(raw, rows, k + 1);
        assert(all.take(k + 1) =~= all.take(k).push(all[k]));
        lemma_idle_skipped(raw, behind(raw, i), rows[k + 1], all.take(k + 1));
    }
}

/// The lines from `a` to `e` as a page.
spec fn page_of(raw: Seq<Seq<char>>, rows: Seq<int>, a: int, e: int) -> Page {
    Page {
        raw,
        rows: rows.subrange(a, e + 1),
        ends: Seq::new((e - a) as nat, |k: int| behind(raw, rows[a + k])),
        lines: lines_of(raw, rows).subrange(a, e),
    }
}

/// The lines from `a` to `e` are all those of a document.
#[verifier::opaque]
spec fn is_body(raw: Seq<Seq<char>>, rows: Seq<int>, a: int, e: int) -> bool {
    let m = rows.len() - 1;
    &&& 0 <= a <= e <= m
    &&& rows[m] == raw.len()
    &&& forall|k: int| 0 <= k < m ==> #[trigger] line_fits(raw, rows, k)
    &&& forall|k: int| a <= k < e ==> !direct::is_mark(content(#[trigger] raw[rows[k]]))
    &&& e < m ==> direct::is_mark(content(raw[rows[e]]))
    &&& a == 0 || direct::is_mark(content(raw[rows[a - 1]]))
}

proof fn lemma_dash(s: Seq<char>)
    ensures
        s.len() > 0 && s.first() != '-' ==> !block::is_item(s),
        s.len() > 2 && s[0] == '-' && s[1] == ' ' ==> block::is_item(s) && s != "-"@
            && !direct::is_mark(s),
        "- "@.len() == 2,
        direct::is_mark(s) ==> !chars::prefixed(s, "%YAML"@),
{
    reveal_strlit("- ");
    reveal_strlit("-");
    reveal_strlit("---");
    reveal_strlit("...");
    reveal_strlit("%YAML");
    if s.len() > 2 && s[0] == '-' && s[1] == ' ' {
        assert(s.take(2) =~= "- "@);
        assert("-"@.len() == 1);
        if chars::prefixed(s, "---"@) {
            assert(s.take(3)[1] == "---"@[1]);
        }
        if chars::prefixed(s, "..."@) {
            assert(s.take(3)[0] == "..."@[0]);
        }
    }
    if s.len() > 0 && chars::prefixed(s, "- "@) {
        assert(s.take(2)[0] == "- "@[0]);
    }
    if chars::prefixed(s, "%YAML"@) {
        assert(s.take(5)[0] == "%YAML"@[0]);
        if chars::prefixed(s, "---"@) {
            assert(s.take(3)[0] == "---"@[0]);
        }
        if chars::prefixed(s, "..."@) {
            assert(s.take(3)[0] == "..."@[0]);
        }
    }
}

/// What a list goes on over is indented, and no mark.
proof fn lemma_going_on(raw: Seq<Seq<char>>, at: int, next: int)
    requires
        0 <= at,
        forall|j: int| at < j < next ==> continues(#[trigger] raw[j]) || idle_line(raw[j]),
    ensures
        forall|j: int|
            at < j < next ==> direct::busy(#[trigger] raw[j]) is Some ==> !direct::is_mark(
                direct::busy(raw[j])->0,
            ) && lines::spaces(raw[j]) > 0,
{
    assert forall|j: int| at < j < next implies direct::busy(#[trigger] raw[j]) is Some
        ==> !direct::is_mark(direct::busy(raw[j])->0) && lines::spaces(raw[j]) > 0 by {
        if continues(raw[j]) {
            lemma_tidy(raw[j]);
        } else {
            lemma_idle(raw[j]);
        }
    }
}

proof fn lemma_page_line(raw: Seq<Seq<char>>, rows: Seq<int>, a: int, e: int, k: int)
    requires
        is_body(raw, rows, a, e),
        a <= k < e,
    ensures
        ({
            let page = page_of(raw, rows, a, e);
            &&& page.rows[k - a] == rows[k]
            &&& page.rows[k - a + 1] == rows[k + 1]
            &&& page.ends[k - a] == behind(raw, rows[k])
            &&& page.lines[k - a] == line_at(raw, rows[k])
            &&& page.busy(k - a) == content(raw[rows[k]])
            &&& entry_line(raw, rows[k]) ==> page.entry(k - a)
            &&& nested_line(raw, rows[k]) ==> page.nested(k - a)
            &&& in_one(raw, rows[k]) && (entry_line(raw, rows[k]) || nested_line(raw, rows[k]))
                ==> page.taken(k - a)
        }),
{
    reveal(is_body);
    let page = page_of(raw, rows, a, e);
    let at = rows[k];
    let b = content(raw[at]);
    assert(line_fits(raw, rows, k));
    lemma_line(raw, rows, k);
    lemma_tidy(raw[at]);
    lemma_dash(b);
    lemma_dash(whole(raw, at));
    if entry_line(raw, at) || nested_line(raw, at) {
        lemma_going_on(raw, at, behind(raw, at));
    }
    if entry_line(raw, at) {
        lemma_row_agrees(raw, at, 2);
        let full = whole(raw, at);
        assert(full[0] == full.take(b.len() as int)[0] && full[1] == full.take(b.len() as int)[1]);
        let g = b.skip(2);
        assert(b.drop_first() =~= seq![' '] + g);
        lemma_blank_lead(seq![' '], g);
    }
    if nested_line(raw, at) {
        lemma_row_agrees(raw, at, 0);
        assert(b.skip(0) =~= b);
        assert(whole(raw, at).skip(0) =~= whole(raw, at));
        assert(whole(raw, at)[0] == whole(raw, at).take(b.len() as int)[0]);
    }
}

proof fn lemma_page_top(raw: Seq<Seq<char>>, rows: Seq<int>, a: int, e: int, k: int)
    requires
        is_body(raw, rows, a, e),
        a <= k < e,
        top_line(raw, rows[k]),
    ensures
        page_of(raw, rows, a, e).top(k - a),
        in_one(raw, rows[k]) ==> page_of(raw, rows, a, e).taken(k - a),
        lockstep::value_at(page_of(raw, rows, a, e).lines[k - a].content).len() == 0 <==> bare(
            content(raw[rows[k]]),
        ),
{
    reveal(is_body);
    let page = page_of(raw, rows, a, e);
    let at = rows[k];
    let b = content(raw[at]);
    assert(line_fits(raw, rows, k));
    lemma_page_line(raw, rows, a, e, k);
    lemma_line(raw, rows, k);
    lemma_tidy(raw[at]);
    lemma_dash(whole(raw, at));
    lemma_row_agrees(raw, at, 0);
    assert(b.skip(0) =~= b);
    assert(whole(raw, at).skip(0) =~= whole(raw, at));
    assert(whole(raw, at)[0] == whole(raw, at).take(b.len() as int)[0]);
    lemma_going_on(raw, at, behind(raw, at));
    if bare(b) {
        assert(!mark_line(raw, at));
        assert(entry_line(raw, rows[k + 1]));
        lemma_dash(content(raw[rows[k + 1]]));
        assert(k + 1 < e);
        lemma_page_line(raw, rows, a, e, k + 1);
    }
}

/// The lines of a document are read alike.
proof fn lemma_page(raw: Seq<Seq<char>>, rows: Seq<int>, a: int, e: int)
    requires
        is_body(raw, rows, a, e),
    ensures
        page_of(raw, rows, a, e).usual(),
        a < e ==> page_of(raw, rows, a, e).top(0),
{
    reveal(is_body);
    let page = page_of(raw, rows, a, e);
    let m = rows.len() - 1;
    let n = page.lines.len() as int;
    assert forall|k: int| 0 <= k < n implies #[trigger] page.top(k) || page.entry(k) && k > 0 && (
    page.entry(k - 1) || page.nested(k - 1) || page.top(k - 1) && lockstep::value_at(
        page.lines[k - 1].content,
    ).len() == 0) || page.nested(k) && k > 0 && (page.entry(k - 1) || page.nested(k - 1)) by {
        let g = a + k;
        assert(line_fits(raw, rows, g));
        assert(!direct::is_mark(content(raw[rows[g]])));
        lemma_page_line(raw, rows, a, e, g);
        if top_line(raw, rows[g]) {
            lemma_page_top(raw, rows, a, e, g);
        } else {
            assert(g > 0);
            lemma_dash(content(raw[rows[g - 1]]));
            assert(!direct::is_mark(content(raw[rows[g - 1]])));
            assert(k > 0);
            lemma_page_line(raw, rows, a, e, g - 1);
            if top_line(raw, rows[g - 1]) {
                lemma_page_top(raw, rows, a, e, g - 1);
            }
        }
    }
    if a < e {
        assert(line_fits(raw, rows, a));
        assert(!direct::is_mark(content(raw[rows[a]])));
        if a > 0 {
            lemma_dash(content(raw[rows[a - 1]]));
        }
        assert(top_line(raw, rows[a]));
        lemma_page_top(raw, rows, a, e, a);
    }
    assert(page.end() == rows[e]);
    if e < m {
        assert(line_fits(raw, rows, e));
        lemma_line(raw, rows, e);
        lemma_tidy(raw[rows[e]]);
    }
}

/// Every line of a text is smooth.
#[verifier::opaque]
spec fn all_smooth(raw: Seq<Seq<char>>, rows: Seq<int>) -> bool {
    forall|k: int| 0 <= k < rows.len() - 1 ==> #[trigger] is_smooth(raw, rows, k)
}

proof fn lemma_page_smooth(raw: Seq<Seq<char>>, rows: Seq<int>, a: int, e: int)
    requires
        is_body(raw, rows, a, e),
        all_smooth(raw, rows),
    ensures
        page_of(raw, rows, a, e).smooth(),
{
    reveal(is_body);
    reveal(all_smooth);
    reveal(Page::smooth);
    let page = page_of(raw, rows, a, e);
    assert forall|k: int| 0 <= k < page.lines.len() implies page.taken(k) && ((
    #[trigger] page.lines[k]).indent > 0 && k > 0 ==> page.ends[k - 1] == page.rows[k]) by {
        let g = a + k;
        assert(line_fits(raw, rows, g));
        assert(is_smooth(raw, rows, g));
        assert(!direct::is_mark(content(raw[rows[g]])));
        lemma_page_line(raw, rows, a, e, g);
        lemma_line(raw, rows, g);
        if top_line(raw, rows[g]) {
            lemma_page_top(raw, rows, a, e, g);
        }
    }
}

/// The lines of a text are of the usual form.
#[verifier::opaque]
spec fn fits(raw: Seq<Seq<char>>, rows: Seq<int>) -> bool {
    let m = rows.len() - 1;
    &&& m >= 0
    &&& rows[m] == raw.len()
    &&& forall|k: int| 0 <= k < m ==> #[trigger] line_fits(raw, rows, k)
}

proof fn lemma_rows_grow(raw: Seq<Seq<char>>, rows: Seq<int>, i: int, j: int)
    requires
        fits(raw, rows),
        0 <= i <= j < rows.len(),
    ensures
        0 <= rows[i] <= rows[j] <= raw.len(),
        i < j ==> rows[i] < rows[j],
    decreases j - i,
{
    reveal(fits);
    if i < j {
        assert(line_fits(raw, rows, i));
        lemma_line(raw, rows, i);
        lemma_rows_grow(raw, rows, i + 1, j);
    } else if j < rows.len() - 1 {
        assert(line_fits(raw, rows, j));
        lemma_line(raw, rows, j);
    }
}

/// A line is a mark for both readers or for none.
proof fn lemma_marks(raw: Seq<Seq<char>>, rows: Seq<int>, k: int)
    requires
        fits(raw, rows),
        0 <= k < rows.len() - 1,
    ensures
        ({
            let b = content(raw[rows[k]]);
            let line = lines_of(raw, rows)[k];
            &&& tbd_yaml::ends_document(line) == direct::is_mark(b)
            &&& direct::is_mark(b) ==> line.content == b && mark_line(raw, rows[k])
            &&& top_line(raw, rows[k]) ==> !chars::prefixed(line.content, "%YAML"@)
            &&& tbd_yaml::mark_fault(lines_of(raw, rows), k) is None
            &&& direct::busy(raw[rows[k]]) == Some(b)
        }),
{
    reveal(fits);
    let at = rows[k];
    let b = content(raw[at]);
    let full = whole(raw, at);
    assert(line_fits(raw, rows, k));
    lemma_line(raw, rows, k);
    lemma_tidy(raw[at]);
    lemma_dash(b);
    lemma_dash(full);
    if mark_line(raw, at) {
        lemma_alone(raw, at, b);
    } else if entry_line(raw, at) {
        lemma_row_agrees(raw, at, 2);
        assert(full[0] == full.take(b.len() as int)[0] && full[1] == full.take(b.len() as int)[1]);
    } else {
        lemma_row_agrees(raw, at, 0);
        assert(b.skip(0) =~= b);
        lemma_first_colon(b);
        let c = direct::first_colon(b);
        assert(full[c] == full.take(b.len() as int)[c]);
        lemma_lead_stays(b, full, c, "---"@);
        lemma_lead_stays(b, full, c, "..."@);
        lemma_lead_stays(b, full, c, "%YAML"@);
    }
}

/// A line with a colon in it has the same lead as the line with more behind it.
proof fn lemma_lead_stays(b: Seq<char>, full: Seq<char>, c: int, p: Seq<char>)
    requires
        0 <= c < b.len() <= full.len(),
        full.take(b.len() as int) == b,
        b[c] == ':',
        p == "---"@ || p == "..."@ || p == "%YAML"@,
    ensures
        chars::prefixed(full, p) ==> chars::prefixed(b, p),
{
    reveal_strlit("---");
    reveal_strlit("...");
    reveal_strlit("%YAML");
    if chars::prefixed(full, p) {
        let n = p.len() as int;
        if n <= b.len() {
            assert(b.take(n) =~= full.take(n));
        } else {
            assert(full.take(b.len() as int)[c] == full[c]);
            assert(full.take(n)[c] == p[c]);
            assert(p[0] != ':' && p[1] != ':' && p[2] != ':');
            if p == "%YAML"@ {
                assert(p[3] != ':' && p[4] != ':');
            }
        }
    }
}

proof fn lemma_document_end(raw: Seq<Seq<char>>, rows: Seq<int>, i: int)
    requires
        fits(raw, rows),
        0 <= i <= rows.len() - 1,
    ensures
        ({
            let e = tbd_yaml::document_end(lines_of(raw, rows), i);
            &&& i <= e <= rows.len() - 1
            &&& forall|k: int| i <= k < e ==> !direct::is_mark(content(#[trigger] raw[rows[k]]))
            &&& e < rows.len() - 1 ==> direct::is_mark(content(raw[rows[e]]))
        }),
    decreases rows.len() - i,
{
    reveal(fits);
    if i < rows.len() - 1 {
        lemma_marks(raw, rows, i);
        if !direct::is_mark(content(raw[rows[i]])) {
            lemma_document_end(raw, rows, i + 1);
        }
    }
}

proof fn lemma_documents_prefix(raw: Seq<Seq<char>>, rows: Seq<int>, k: int, docs: Seq<DocumentModel>)
    requires
        fits(raw, rows),
        0 <= k <= rows.len() - 1,
        tbd_yaml::documents_from(lines_of(raw, rows), k, docs) is Ok,
    ensures
        ({
            let all = tbd_yaml::documents_from(lines_of(raw, rows), k, docs)->Ok_0;
            docs.len() <= all.len() && all.take(docs.len() as int) == docs
        }),
    decreases rows.len() - k,
{
    reveal(fits);
    let lines = lines_of(raw, rows);
    let all = tbd_yaml::documents_from(lines, k, docs)->Ok_0;
    if k < rows.len() - 1 {
        lemma_document_end(raw, rows, k);
        lemma_document_end(raw, rows, k + 1);
        lemma_marks(raw, rows, k);
        if chars::prefixed(lines[k].content, "%YAML"@) {
            lemma_documents_prefix(raw, rows, k + 1, docs);
        } else {
            let (tag, start, end) = tbd_yaml::document_bounds(lines, k);
            let next = tbd_yaml::behind(lines, end);
            let root = tbd_yaml::body(lines, start, end)->Ok_0;
            let more = match root {
                Some(root) => docs.push(DocumentModel { tag, root }),
                None => docs,
            };
            lemma_next_document(raw, rows, k);
            lemma_documents_prefix(raw, rows, next, more);
            assert(all.take(more.len() as int).take(docs.len() as int) =~= all.take(
                docs.len() as int,
            ));
            assert(more.take(docs.len() as int) =~= docs);
        }
    } else {
        assert(all.take(docs.len() as int) =~= docs);
    }
}

proof fn lemma_next_document(raw: Seq<Seq<char>>, rows: Seq<int>, k: int)
    requires
        fits(raw, rows),
        0 <= k < rows.len() - 1,
    ensures
        ({
            let lines = lines_of(raw, rows);
            let (_, start, end) = tbd_yaml::document_bounds(lines, k);
            &&& k <= start <= end <= rows.len() - 1
            &&& k < tbd_yaml::behind(lines, end) <= rows.len() - 1
        }),
{
    reveal(fits);
    let lines = lines_of(raw, rows);
    lemma_document_end(raw, rows, k);
    lemma_document_end(raw, rows, k + 1);
    lemma_marks(raw, rows, k);
}

proof fn lemma_blank_seen(wanted: TargetModel, full: bool)
    ensures
        tbd::seen(TbdModel::blank(), wanted, full) == TbdModel::blank(),
{
    assert(tbd::seen(TbdModel::blank(), wanted, full) =~= TbdModel::blank());
}

/// The stub of a document on both sides.
proof fn lemma_document(
    raw: Seq<Seq<char>>,
    rows: Seq<int>,
    a: int,
    e: int,
    wanted: TargetModel,
    full: bool,
)
    requires
        is_body(raw, rows, a, e),
        a < e,
        tbd_yaml::body(lines_of(raw, rows), a, e) matches Ok(Some(root)) && decode::document(
            DocumentModel { tag: None, root },
        ) is Ok,
    ensures
        lockstep::same_or_refused(
            direct::document_from(raw, rows[a], wanted, full, TbdModel::blank()),
            (
                tbd::seen(
                    decode::document(
                        DocumentModel {
                            tag: None,
                            root: tbd_yaml::body(lines_of(raw, rows), a, e)->Ok_0->0,
                        },
                    )->Ok_0,
                    wanted,
                    full,
                ),
                rows[e],
            ),
            all_smooth(raw, rows),
        ),
{
    let page = page_of(raw, rows, a, e);
    lemma_page(raw, rows, a, e);
    lemma_blank_seen(wanted, full);
    lemma_page_size(raw, rows, a, e);
    lemma_page_keys(page, wanted, full);
    if all_smooth(raw, rows) {
        lemma_page_smooth(raw, rows, a, e);
    }
}

proof fn lemma_page_size(raw: Seq<Seq<char>>, rows: Seq<int>, a: int, e: int)
    requires
        is_body(raw, rows, a, e),
    ensures
        page_of(raw, rows, a, e).lines == lines_of(raw, rows).subrange(a, e),
        page_of(raw, rows, a, e).lines.len() == e - a,
        page_of(raw, rows, a, e).rows[0] == rows[a],
        page_of(raw, rows, a, e).raw == raw,
        page_of(raw, rows, a, e).end() == rows[e],
{
    reveal(is_body);
}

proof fn lemma_page_keys(page: Page, wanted: TargetModel, full: bool)
    requires
        page.usual(),
        page.lines.len() > 0,
        page.top(0),
        block::block(page.lines, 0, 0) matches Ok((root, taken)) && taken >= page.lines.len()
            && decode::document(DocumentModel { tag: None, root }) is Ok,
    ensures
        lockstep::same_or_refused(
            direct::document_from(
                page.raw,
                page.rows[0],
                wanted,
                full,
                tbd::seen(TbdModel::blank(), wanted, full),
            ),
            (
                tbd::seen(
                    decode::document(
                        DocumentModel {
                            tag: None,
                            root: (block::block(page.lines, 0, 0)->Ok_0).0,
                        },
                    )->Ok_0,
                    wanted,
                    full,
                ),
                page.end(),
            ),
            page.smooth(),
        ),
{
    lemma_first_block(page);
    lockstep::lemma_mapping_goes_on(page, 0, seq![]);
    lockstep::lemma_keys(page, 0, seq![], wanted, full, TbdModel::blank());
}

/// A document without lines on the quick side.
proof fn lemma_no_document(
    raw: Seq<Seq<char>>,
    rows: Seq<int>,
    e: int,
    wanted: TargetModel,
    full: bool,
)
    requires
        is_body(raw, rows, e, e),
    ensures
        direct::document_from(raw, rows[e], wanted, full, TbdModel::blank()) == Ok::<
            (TbdModel, int),
            TbdFault,
        >((TbdModel::blank(), rows[e])),
{
    let m = rows.len() - 1;
    reveal_strlit("");
    lemma_page_size(raw, rows, e, e);
    lemma_body_fits(raw, rows, e, e);
    lemma_rows_grow(raw, rows, e, m);
    if e < m {
        reveal(is_body);
        lemma_marks(raw, rows, e);
    } else {
        lemma_last(raw, rows);
    }
}

proof fn lemma_body_fits(raw: Seq<Seq<char>>, rows: Seq<int>, a: int, e: int)
    requires
        is_body(raw, rows, a, e),
    ensures
        fits(raw, rows),
        0 <= a <= e <= rows.len() - 1,
        e < rows.len() - 1 ==> direct::is_mark(content(raw[rows[e]])),
{
    reveal(is_body);
    reveal(fits);
}

proof fn lemma_last(raw: Seq<Seq<char>>, rows: Seq<int>)
    requires
        fits(raw, rows),
    ensures
        rows[rows.len() - 1] == raw.len(),
{
    reveal(fits);
}

proof fn lemma_first_block(page: Page)
    requires
        page.usual(),
        page.lines.len() > 0,
        page.top(0),
    ensures
        block::block(page.lines, 0, 0) == block::mapping_from(page.lines, 0, 0, seq![]),
{
}

/// The quick reader passes over idle lines.
proof fn lemma_idle_between(
    raw: Seq<Seq<char>>,
    i: int,
    e: int,
    wanted: TargetModel,
    full: bool,
    done: Seq<TbdModel>,
)
    requires
        0 <= i <= e <= raw.len(),
        lockstep::idle(raw, i, e),
    ensures
        direct::stubs_from(raw, i, wanted, full, done) == direct::stubs_from(
            raw,
            e,
            wanted,
            full,
            done,
        ),
    decreases e - i,
{
    if i < e {
        assert(direct::busy(raw[i]) is None);
        lemma_idle_between(raw, i + 1, e, wanted, full, done);
    }
}

proof fn lemma_behind_mark(raw: Seq<Seq<char>>, rows: Seq<int>, k: int)
    requires
        fits(raw, rows),
        0 <= k < rows.len() - 1,
        direct::is_mark(content(raw[rows[k]])),
    ensures
        0 <= rows[k] < rows[k + 1] <= raw.len(),
        lockstep::idle(raw, rows[k] + 1, rows[k + 1]),
{
    lemma_marks(raw, rows, k);
    reveal(fits);
    assert(line_fits(raw, rows, k));
    lemma_line(raw, rows, k);
}

/// Behind the documents so far, the quick reader goes on where the general one does.
proof fn lemma_resumed(
    raw: Seq<Seq<char>>,
    rows: Seq<int>,
    a: int,
    e: int,
    wanted: TargetModel,
    full: bool,
    done: Seq<TbdModel>,
)
    requires
        fits(raw, rows),
        is_body(raw, rows, a, e),
    ensures
        direct::stubs_from(raw, rows[e], wanted, full, done) == direct::stubs_from(
            raw,
            rows[tbd_yaml::behind(lines_of(raw, rows), e)],
            wanted,
            full,
            done,
        ),
{
    let m = rows.len() - 1;
    lemma_page_size(raw, rows, a, e);
    lemma_body_fits(raw, rows, a, e);
    lemma_rows_grow(raw, rows, e, m);
    if e < m {
        lemma_marks(raw, rows, e);
        lemma_behind_mark(raw, rows, e);
        lemma_idle_between(raw, rows[e] + 1, rows[e + 1], wanted, full, done);
    }
}

/// A document starts at line `k`, or the text ends.
spec fn boundary(raw: Seq<Seq<char>>, rows: Seq<int>, k: int) -> bool {
    k == 0 || k == rows.len() - 1 || direct::is_mark(content(raw[rows[k - 1]])) || direct::is_mark(
        content(raw[rows[k]]),
    )
}

/// Where the document at line `k` stands.
proof fn lemma_bounds(raw: Seq<Seq<char>>, rows: Seq<int>, k: int)
    requires
        fits(raw, rows),
        0 <= k < rows.len() - 1,
        boundary(raw, rows, k),
    ensures
        ({
            let lines = lines_of(raw, rows);
            let b = content(raw[rows[k]]);
            let (_, a, e) = tbd_yaml::document_bounds(lines, k);
            let next = tbd_yaml::behind(lines, e);
            &&& lines.len() == rows.len() - 1
            &&& !chars::prefixed(lines[k].content, "%YAML"@)
            &&& tbd_yaml::mark_fault(lines, k) is None
            &&& tbd_yaml::mark_fault(lines, e) is None
            &&& direct::busy(raw[rows[k]]) == Some(b)
            &&& !chars::prefixed(b, "%YAML"@)
            &&& k < next <= rows.len() - 1
            &&& boundary(raw, rows, next)
            &&& if chars::prefixed(b, "..."@) {
                &&& a == e
                &&& next == k + 1
            } else {
                &&& is_body(raw, rows, a, e)
                &&& a == if chars::prefixed(b, "---"@) {
                    k + 1
                } else {
                    k
                }
                &&& 0 <= rows[k] < rows[e] <= raw.len()
            }
        }),
{
    let lines = lines_of(raw, rows);
    let b = content(raw[rows[k]]);
    let m = rows.len() - 1;
    let (_, a, e) = tbd_yaml::document_bounds(lines, k);
    lemma_next_document(raw, rows, k);
    lemma_marks(raw, rows, k);
    lemma_dash(b);
    lemma_document_end(raw, rows, a);
    lemma_document_end(raw, rows, k);
    if e < m {
        lemma_marks(raw, rows, e);
    }
    lemma_one_mark(b);
    assert(!direct::is_mark(b) ==> top_line(raw, rows[k])) by {
        reveal(fits);
        assert(line_fits(raw, rows, k));
        if k > 0 {
            lemma_dash(content(raw[rows[k - 1]]));
        }
    }
    if !chars::prefixed(b, "..."@) {
        assert(is_body(raw, rows, a, e)) by {
            reveal(is_body);
            reveal(fits);
        }
        lemma_page_size(raw, rows, a, e);
        lemma_rows_grow(raw, rows, k, e);
        lemma_rows_grow(raw, rows, e, m);
        lemma_last(raw, rows);
    }
}

proof fn lemma_one_mark(b: Seq<char>)
    ensures
        !(chars::prefixed(b, "---"@) && chars::prefixed(b, "..."@)),
{
    reveal_strlit("---");
    reveal_strlit("...");
    if chars::prefixed(b, "---"@) && chars::prefixed(b, "..."@) {
        assert(b.take(3)[0] == "---"@[0]);
        assert(b.take(3)[0] == "..."@[0]);
    }
}

proof fn lemma_seen_push(acc: Seq<TbdModel>, x: TbdModel, wanted: TargetModel, full: bool)
    ensures
        tbd::seen(x, wanted, full).targets == x.targets,
        tbd::seen_docs(acc.push(x), wanted, full) == if tbd::any_serves(x.targets, wanted) {
            tbd::seen_docs(acc, wanted, full).push(tbd::seen(x, wanted, full))
        } else {
            tbd::seen_docs(acc, wanted, full)
        },
{
    reveal(tbd::seen_docs);
    assert(acc.push(x).drop_last() =~= acc);
    let before = tbd::narrowed_docs(acc, wanted);
    let y = tbd::narrowed(x, wanted);
    assert(tbd::without_exports(before.push(y)) =~= tbd::without_exports(before).push(
        tbd::stripped(y),
    ));
}

proof fn lemma_documents(
    raw: Seq<Seq<char>>,
    rows: Seq<int>,
    k: int,
    wanted: TargetModel,
    full: bool,
    docs: Seq<DocumentModel>,
    acc: Seq<TbdModel>,
)
    requires
        fits(raw, rows),
        0 <= k <= rows.len() - 1,
        boundary(raw, rows, k),
        tbd_yaml::documents_from(lines_of(raw, rows), k, docs) matches Ok(all)
            && decode::documents_from(all, docs.len() as int, acc) is Ok,
    ensures
        lockstep::same_or_refused(
            direct::stubs_from(raw, rows[k], wanted, full, tbd::seen_docs(acc, wanted, full)),
            tbd::seen_docs(
                decode::documents_from(
                    tbd_yaml::documents_from(lines_of(raw, rows), k, docs)->Ok_0,
                    docs.len() as int,
                    acc,
                )->Ok_0,
                wanted,
                full,
            ),
            all_smooth(raw, rows),
        ),
    decreases rows.len() - k,
{
    let lines = lines_of(raw, rows);
    let m = rows.len() - 1;
    let all = tbd_yaml::documents_from(lines, k, docs)->Ok_0;
    let done = tbd::seen_docs(acc, wanted, full);
    lemma_rows_grow(raw, rows, k, k);
    if k == m {
        lemma_last(raw, rows);
    } else {
        lemma_bounds(raw, rows, k);
        let b = content(raw[rows[k]]);
        let (tag, a, e) = tbd_yaml::document_bounds(lines, k);
        let next = tbd_yaml::behind(lines, e);
        let root = tbd_yaml::body(lines, a, e)->Ok_0;
        let more = match root {
            Some(root) => docs.push(DocumentModel { tag, root }),
            None => docs,
        };
        lemma_documents_prefix(raw, rows, next, more);
        if root is Some {
            assert(all[docs.len() as int] == DocumentModel { tag, root: root->0 }) by {
                assert(all.take(more.len() as int)[docs.len() as int] == more[docs.len() as int]);
            }
        }
        let found = match root {
            Some(root) => acc.push(decode::document(DocumentModel { tag, root })->Ok_0),
            None => acc,
        };
        lemma_documents(raw, rows, next, wanted, full, more, found);
        if direct::is_mark(b) {
            lemma_behind_mark(raw, rows, k);
            lemma_idle_between(raw, rows[k] + 1, rows[k + 1], wanted, full, done);
            lockstep::lemma_idle_passed(
                raw,
                rows[k] + 1,
                rows[k + 1],
                wanted,
                full,
                TbdModel::blank(),
            );
        }
        if !chars::prefixed(b, "..."@) {
            if a < e {
                lemma_document(raw, rows, a, e, wanted, full);
                let x = decode::document(DocumentModel { tag, root: root->0 })->Ok_0;
                lemma_seen_push(acc, x, wanted, full);
            } else {
                lemma_body_fits(raw, rows, a, e);
                lemma_no_document(raw, rows, e, wanted, full);
            }
            lemma_resumed(raw, rows, a, e, wanted, full, tbd::seen_docs(found, wanted, full));
        }
    }
}

/// What both readers make of a text of the usual form.
proof fn lemma_read_alike(input: Seq<char>, rows: Seq<int>, wanted: TargetModel, full: bool)
    requires
        usual_text(input, rows),
        decode::stubs(input) is Ok,
    ensures
        lockstep::same_or_refused(
            direct::direct_stubs(input, wanted, full),
            tbd::seen_docs(decode::stubs(input)->Ok_0, wanted, full),
            smooth_text(input, rows),
        ),
{
    reveal(fits);
    reveal(all_smooth);
    reveal(tbd::seen_docs);
    let raw = text::split(input, '\n');
    text::lemma_split_nonempty(input, '\n');
    lemma_lines(raw, rows, 0);
    assert(lines_of(raw, rows).take(0) =~= seq![]);
    assert(tbd::narrowed_docs(Seq::<TbdModel>::empty(), wanted) =~= seq![]);
    assert(tbd::without_exports(Seq::<TbdModel>::empty()) =~= seq![]);
    lemma_idle_lines(raw, 0, rows[0]);
    lemma_rows_grow(raw, rows, 0, rows.len() - 1);
    lemma_idle_skipped(raw, 0, rows[0], seq![]);
    lemma_idle_between(raw, 0, rows[0], wanted, full, seq![]);
    lemma_documents(raw, rows, 0, wanted, full, seq![], seq![]);
}

/// On a text of the usual form that the general reader takes, `parse_tbd_for_target`
/// gives the same stubs, narrowed to the target. The quick reader alone does so unless a
/// blank line or one with only a comment stands in a list or in front of an indented
/// line: then it may refuse the text.
pub proof fn law_quick_reading_agrees(input: Seq<char>, rows: Seq<int>, wanted: TargetModel)
    requires
        usual_text(input, rows),
        decode::stubs(input) is Ok,
    ensures
        smooth_text(input, rows) ==> direct::direct_stubs(input, wanted, true) == Ok::<
            Seq<TbdModel>,
            TbdFault,
        >(tbd::narrowed_docs(decode::stubs(input)->Ok_0, wanted)),
        direct::stubs_for(input, wanted) == Ok::<Seq<TbdModel>, TbdFault>(
            tbd::narrowed_docs(decode::stubs(input)->Ok_0, wanted),
        ),
{
    reveal(tbd::seen_docs);
    lemma_read_alike(input, rows, wanted, true);
}

/// The same of the reading that passes over what the stubs export.
pub proof fn law_quick_metadata_agrees(input: Seq<char>, rows: Seq<int>, wanted: TargetModel)
    requires
        usual_text(input, rows),
        decode::stubs(input) is Ok,
    ensures
        direct::metadata_for(input, wanted) == Ok::<Seq<TbdModel>, TbdFault>(
            tbd::without_exports(tbd::narrowed_docs(decode::stubs(input)->Ok_0, wanted)),
        ),
{
    reveal(tbd::seen_docs);
    lemma_read_alike(input, rows, wanted, false);
}

} // verus!
