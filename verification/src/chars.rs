//! Texts as vectors of characters.

use vstd::prelude::*;
use crate::text;
use crate::text::{chars_of, skip_space, trim_bounds};

verus! {

/// The texts of these rows.
pub open spec fn rows(v: Seq<Vec<char>>) -> Seq<Seq<char>> {
    v.map_values(|r: Vec<char>| r@)
}

/// `s` starts with `p`.
pub open spec fn prefixed(s: Seq<char>, p: Seq<char>) -> bool {
    p.len() <= s.len() && s.take(p.len() as int) == p
}

/// A part of a text.
pub fn part(s: &Vec<char>, from: usize, to: usize) -> (r: Vec<char>)
    requires
        from <= to <= s@.len(),
    ensures
        r@ == s@.subrange(from as int, to as int),
{
    let mut out: Vec<char> = Vec::new();
    let mut i: usize = from;
    assert(out@ =~= s@.subrange(from as int, from as int));
    while i < to
        invariant
            from <= i <= to <= s@.len(),
            out@ == s@.subrange(from as int, i as int),
        decreases to - i,
    {
        out.push(s[i]);
        assert(out@ =~= s@.subrange(from as int, i + 1));
        i += 1;
    }
    out
}

pub fn trim(s: &Vec<char>) -> (r: Vec<char>)
    ensures
        r@ == text::trimmed(s@),
{
    let (from, to) = trim_bounds(s, 0, s.len());
    assert(s@.subrange(0, s@.len() as int) =~= s@);
    part(s, from, to)
}

pub fn trim_start(s: &Vec<char>) -> (r: Vec<char>)
    ensures
        r@ == text::trimmed_start(s@),
{
    let from: usize = skip_space(s, 0, s.len());
    assert(s@.subrange(0, s@.len() as int) =~= s@);
    part(s, from, s.len())
}

/// What stands behind the prefix `p`.
pub fn strip_prefix(s: &Vec<char>, p: &str) -> (r: Option<Vec<char>>)
    ensures
        match r {
            Some(rest) => prefixed(s@, p@) && rest@ == s@.skip(p@.len() as int),
            None => !prefixed(s@, p@),
        },
{
    let want = chars_of(p);
    if want.len() > s.len() {
        return None;
    }
    let mut i: usize = 0;
    while i < want.len()
        invariant
            want@ == p@,
            i <= want@.len() <= s@.len(),
            forall|k: int| 0 <= k < i ==> #[trigger] s@[k] == want@[k],
        decreases want@.len() - i,
    {
        if s[i] != want[i] {
            assert(s@.take(want@.len() as int)[i as int] != want@[i as int]);
            return None;
        }
        i += 1;
    }
    assert(s@.take(p@.len() as int) =~= p@);
    let rest = part(s, i, s.len());
    assert(rest@ =~= s@.skip(p@.len() as int));
    Some(rest)
}

pub fn starts_with(s: &Vec<char>, p: &str) -> (r: bool)
    ensures
        r == prefixed(s@, p@),
{
    strip_prefix(s, p).is_some()
}

/// The text is `t`.
pub fn is_text(s: &Vec<char>, t: &str) -> (r: bool)
    ensures
        r == (s@ == t@),
{
    match strip_prefix(s, t) {
        Some(rest) => {
            if rest.len() == 0 {
                assert(s@ =~= s@.take(t@.len() as int));
                true
            } else {
                assert(rest@.len() == s@.len() - t@.len());
                false
            }
        },
        None => {
            assert(s@ == t@ ==> s@.take(t@.len() as int) =~= t@);
            false
        },
    }
}

pub fn append(out: &mut Vec<char>, more: &Vec<char>)
    ensures
        final(out)@ == old(out)@ + more@,
{
    let mut i: usize = 0;
    assert(out@ =~= old(out)@ + more@.take(0));
    while i < more.len()
        invariant
            i <= more@.len(),
            out@ == old(out)@ + more@.take(i as int),
        decreases more@.len() - i,
    {
        out.push(more[i]);
        assert(out@ =~= old(out)@ + more@.take(i + 1));
        i += 1;
    }
    assert(more@.take(i as int) =~= more@);
}

/// The parts between the `sep`s.
pub fn split_on(s: &Vec<char>, sep: char) -> (r: Vec<Vec<char>>)
    ensures
        rows(r@) == text::split(s@, sep),
{
    let ghost all = s@;
    let mut out: Vec<Vec<char>> = Vec::new();
    let mut start: usize = 0;
    let mut i: usize = 0;
    assert(rows(out@) =~= seq![]);
    assert(all.take(0) =~= seq![]);
    assert(all.subrange(0, 0) =~= seq![]);
    assert(text::split(all.take(0), sep).drop_last() =~= seq![]);
    while i < s.len()
        invariant
            all == s@,
            start <= i <= s@.len(),
            text::split(all.take(i as int), sep).len() > 0,
            text::split(all.take(i as int), sep).last() == all.subrange(start as int, i as int),
            rows(out@) == text::split(all.take(i as int), sep).drop_last(),
        decreases s@.len() - i,
    {
        let ghost before = text::split(all.take(i as int), sep);
        proof {
            assert(all.take(i + 1).drop_last() =~= all.take(i as int));
            assert(all.take(i + 1).last() == all[i as int]);
        }
        if s[i] == sep {
            let row = part(s, start, i);
            let ghost was = rows(out@);
            out.push(row);
            start = i + 1;
            proof {
                let after = text::split(all.take(i + 1), sep);
                assert(after.drop_last() =~= before);
                assert(rows(out@) =~= was.push(row@));
                assert(before =~= was.push(row@));
                assert(all.subrange(start as int, i + 1) =~= seq![]);
            }
        } else {
            proof {
                let after = text::split(all.take(i + 1), sep);
                assert(after.drop_last() =~= before.drop_last());
                assert(all.subrange(start as int, i + 1) =~= all.subrange(
                    start as int,
                    i as int,
                ).push(all[i as int]));
            }
        }
        i += 1;
    }
    let row = part(s, start, i);
    let ghost was = rows(out@);
    out.push(row);
    proof {
        assert(all.take(i as int) =~= all);
        assert(rows(out@) =~= was.push(row@));
        assert(rows(out@) =~= text::split(all, sep));
    }
    out
}

pub proof fn lemma_trimmed_len(s: Seq<char>)
    ensures
        text::trimmed_start(s).len() <= s.len(),
        text::trimmed_end(s).len() <= s.len(),
        text::trimmed(s).len() <= s.len(),
    decreases s.len(),
{
    lemma_trimmed_start_len(s);
    lemma_trimmed_end_len(s);
    lemma_trimmed_end_len(text::trimmed_start(s));
}

proof fn lemma_trimmed_start_len(s: Seq<char>)
    ensures
        text::trimmed_start(s).len() <= s.len(),
    decreases s.len(),
{
    if s.len() > 0 && text::is_space(s.first()) {
        lemma_trimmed_start_len(s.drop_first());
    }
}

proof fn lemma_trimmed_end_len(s: Seq<char>)
    ensures
        text::trimmed_end(s).len() <= s.len(),
    decreases s.len(),
{
    if s.len() > 0 && text::is_space(s.last()) {
        lemma_trimmed_end_len(s.drop_last());
    }
}

} // verus!
