//! Which symbols an image shows to others.

use vstd::prelude::*;
use crate::options::LinkOptions;
use crate::text;
use crate::text::{chars_of, string_between, trim_bounds};

verus! {

/// Where a wildcard match is: the places in the pattern and the value, and the last `*`
/// with the place in the value from which it is being tried.
pub struct Scan {
    pub p: int,
    pub v: int,
    pub star: Option<int>,
    pub backtrack: int,
}

/// `pattern[p..]` consists of stars.
pub open spec fn only_stars(pattern: Seq<u8>, p: int) -> bool
    decreases pattern.len() - p,
{
    if p < 0 || p >= pattern.len() {
        p == pattern.len()
    } else {
        pattern[p] == 0x2a && only_stars(pattern, p + 1)
    }
}

/// Whether a match succeeds from `s` on. A `?` stands for one byte and a `*` for any
/// number of them; a `*` that meets a `*` is taken for that byte.
pub open spec fn scan_matches(pattern: Seq<u8>, value: Seq<u8>, s: Scan) -> bool
    decreases value.len() - s.backtrack, pattern.len() - s.p,
{
    if !(0 <= s.backtrack <= s.v <= value.len() && 0 <= s.p <= pattern.len()) {
        false
    } else if s.v == value.len() {
        only_stars(pattern, s.p)
    } else if s.p < pattern.len() && (pattern[s.p] == 0x3f || pattern[s.p] == value[s.v]) {
        scan_matches(pattern, value, Scan { p: s.p + 1, v: s.v + 1, ..s })
    } else if s.p < pattern.len() && pattern[s.p] == 0x2a {
        scan_matches(
            pattern,
            value,
            Scan { p: s.p + 1, v: s.v, star: Some(s.p), backtrack: s.v },
        )
    } else {
        match s.star {
            Some(star) => if 0 <= star < pattern.len() {
                scan_matches(
                    pattern,
                    value,
                    Scan {
                        p: star + 1,
                        v: s.backtrack + 1,
                        star: s.star,
                        backtrack: s.backtrack + 1,
                    },
                )
            } else {
                false
            },
            None => false,
        }
    }
}

/// The pattern matches the value.
pub open spec fn wildcard(pattern: Seq<u8>, value: Seq<u8>) -> bool {
    scan_matches(pattern, value, Scan { p: 0, v: 0, star: None, backtrack: 0 })
}

pub fn wildcard_matches(pattern: &str, value: &str) -> (r: bool)
    ensures
        r == wildcard(text::utf8(pattern@), text::utf8(value@)),
{
    let pat = pattern.as_bytes();
    let val = value.as_bytes();
    let mut p: usize = 0;
    let mut v: usize = 0;
    let mut star: Option<usize> = None;
    let mut backtrack: usize = 0;
    assert(val.len() == val@.len() && pat.len() == pat@.len());
    let ghost want = wildcard(pat@, val@);
    while v < val.len()
        invariant
            0 <= backtrack <= v <= val@.len(),
            p <= pat@.len(),
            pat@.len() <= usize::MAX,
            val@.len() <= usize::MAX,
            star matches Some(s) ==> s < pat@.len(),
            want == scan_matches(
                pat@,
                val@,
                Scan {
                    p: p as int,
                    v: v as int,
                    star: match star {
                        Some(s) => Some(s as int),
                        None => None,
                    },
                    backtrack: backtrack as int,
                },
            ),
            want == wildcard(text::utf8(pattern@), text::utf8(value@)),
        decreases val@.len() - backtrack, pat@.len() - p,
    {
        if p < pat.len() && (pat[p] == 0x3f || pat[p] == val[v]) {
            p += 1;
            v += 1;
        } else if p < pat.len() && pat[p] == 0x2a {
            star = Some(p);
            p += 1;
            backtrack = v;
        } else if let Some(s) = star {
            p = s + 1;
            backtrack += 1;
            v = backtrack;
        } else {
            return false;
        }
    }
    while p < pat.len() && pat[p] == 0x2a
        invariant
            p <= pat@.len(),
            want == only_stars(pat@, p as int),
            want == wildcard(pat@, val@),
        decreases pat@.len() - p,
    {
        p += 1;
    }
    p == pat.len()
}

/// What a pattern means: `?` is any one byte, `*` any number of bytes, and any other
/// byte is itself.
pub open spec fn glob(pattern: Seq<u8>, value: Seq<u8>) -> bool
    decreases pattern.len(), value.len(),
{
    if pattern.len() == 0 {
        value.len() == 0
    } else if pattern[0] == 0x2a {
        glob(pattern.drop_first(), value) || value.len() > 0 && glob(pattern, value.drop_first())
    } else {
        value.len() > 0 && (pattern[0] == 0x3f || pattern[0] == value[0]) && glob(
            pattern.drop_first(),
            value.drop_first(),
        )
    }
}

/// No byte is a star.
pub open spec fn starless(s: Seq<u8>) -> bool {
    forall|i: int| 0 <= i < s.len() ==> s[i] != 0x2a
}

proof fn lemma_skip(s: Seq<u8>, i: int)
    requires
        0 <= i < s.len(),
    ensures
        s.skip(i).drop_first() == s.skip(i + 1),
        s.skip(i)[0] == s[i],
        s.skip(i).len() == s.len() - i,
{
    assert(s.skip(i).drop_first() =~= s.skip(i + 1));
}

proof fn lemma_only_stars(pattern: Seq<u8>, p: int)
    requires
        0 <= p <= pattern.len(),
    ensures
        only_stars(pattern, p) == glob(pattern.skip(p), seq![]),
    decreases pattern.len() - p,
{
    if p < pattern.len() {
        lemma_skip(pattern, p);
        lemma_only_stars(pattern, p + 1);
    }
}

/// A part without stars takes as many bytes as it has.
proof fn lemma_plain_part(pattern: Seq<u8>, from: int, to: int, value: Seq<u8>, k: int)
    requires
        0 <= from <= to <= pattern.len(),
        forall|i: int| from <= i < to ==> pattern[i] != 0x2a,
        0 <= k <= value.len(),
        glob(pattern.skip(from), value.skip(k)),
    ensures
        k + (to - from) <= value.len(),
        glob(pattern.skip(to), value.skip(k + (to - from))),
    decreases to - from,
{
    if from < to {
        lemma_skip(pattern, from);
        assert(k < value.len());
        lemma_skip(value, k);
        lemma_plain_part(pattern, from + 1, to, value, k + 1);
    }
}

/// A match behind a star starts somewhere.
proof fn lemma_star_start(pattern: Seq<u8>, s: int, value: Seq<u8>, k: int) -> (j: int)
    requires
        0 <= s < pattern.len(),
        pattern[s] == 0x2a,
        0 <= k <= value.len(),
        glob(pattern.skip(s), value.skip(k)),
    ensures
        k <= j <= value.len(),
        glob(pattern.skip(s + 1), value.skip(j)),
    decreases value.len() - k,
{
    lemma_skip(pattern, s);
    if glob(pattern.skip(s + 1), value.skip(k)) {
        k
    } else {
        assert(k < value.len());
        lemma_skip(value, k);
        lemma_star_start(pattern, s, value, k + 1)
    }
}

/// A star takes what comes before a match.
proof fn lemma_star_takes(pattern: Seq<u8>, s: int, value: Seq<u8>, k: int, j: int)
    requires
        0 <= s < pattern.len(),
        pattern[s] == 0x2a,
        0 <= k <= j <= value.len(),
        glob(pattern.skip(s), value.skip(j)),
    ensures
        glob(pattern.skip(s), value.skip(k)),
    decreases j - k,
{
    if k < j {
        lemma_star_takes(pattern, s, value, k + 1, j);
        lemma_skip(pattern, s);
        lemma_skip(value, k);
    }
}

/// Some later start of the last star leads to a match.
pub open spec fn later_match(pattern: Seq<u8>, value: Seq<u8>, s: Scan) -> bool {
    match s.star {
        Some(star) => s.backtrack < value.len() && glob(
            pattern.skip(star),
            value.skip(s.backtrack + 1),
        ),
        None => false,
    }
}

/// What holds in the middle of a match: since its last star the pattern has had no
/// other, and as many bytes of it as of the value were passed.
pub open spec fn scanning(pattern: Seq<u8>, value: Seq<u8>, s: Scan) -> bool {
    &&& 0 <= s.backtrack <= s.v <= value.len()
    &&& 0 <= s.p <= pattern.len()
    &&& match s.star {
        Some(star) => {
            &&& 0 <= star < s.p
            &&& pattern[star] == 0x2a
            &&& s.p - (star + 1) == s.v - s.backtrack
            &&& forall|i: int| star + 1 <= i < s.p ==> pattern[i] != 0x2a
        },
        None => true,
    }
}

proof fn lemma_scan_is_glob(pattern: Seq<u8>, value: Seq<u8>, s: Scan)
    requires
        scanning(pattern, value, s),
        starless(pattern) || starless(value),
    ensures
        scan_matches(pattern, value, s) == (glob(pattern.skip(s.p), value.skip(s.v))
            || later_match(pattern, value, s)),
    decreases value.len() - s.backtrack, pattern.len() - s.p,
{
    if later_match(pattern, value, s) {
        let star = s.star->0;
        let j = lemma_star_start(pattern, star, value, s.backtrack + 1);
        lemma_plain_part(pattern, star + 1, s.p, value, j);
    }
    if s.v == value.len() {
        assert(value.skip(s.v) =~= seq![]);
        lemma_only_stars(pattern, s.p);
    } else if s.p < pattern.len() && (pattern[s.p] == 0x3f || pattern[s.p] == value[s.v]) {
        let next = Scan { p: s.p + 1, v: s.v + 1, ..s };
        lemma_skip(pattern, s.p);
        lemma_skip(value, s.v);
        lemma_scan_is_glob(pattern, value, next);
    } else if s.p < pattern.len() && pattern[s.p] == 0x2a {
        let next = Scan { p: s.p + 1, v: s.v, star: Some(s.p), backtrack: s.v };
        lemma_skip(pattern, s.p);
        lemma_skip(value, s.v);
        lemma_scan_is_glob(pattern, value, next);
        if later_match(pattern, value, s) {
            let star = s.star->0;
            let j = lemma_star_start(pattern, star, value, s.backtrack + 1);
            lemma_plain_part(pattern, star + 1, s.p, value, j);
            lemma_star_takes(pattern, s.p, value, s.v, j + (s.p - (star + 1)));
        }
    } else {
        if s.p < pattern.len() {
            lemma_skip(pattern, s.p);
        }
        lemma_skip(value, s.v);
        assert(!glob(pattern.skip(s.p), value.skip(s.v)));
        if let Some(star) = s.star {
            let next = Scan {
                p: star + 1,
                v: s.backtrack + 1,
                star: s.star,
                backtrack: s.backtrack + 1,
            };
            lemma_skip(pattern, star);
            lemma_scan_is_glob(pattern, value, next);
            if s.backtrack + 1 < value.len() {
                lemma_skip(value, s.backtrack + 1);
            }
        }
    }
}

/// Where the pattern or the value has no star, matching is what the pattern means.
pub proof fn law_wildcard_is_glob(pattern: Seq<u8>, value: Seq<u8>)
    requires
        starless(pattern) || starless(value),
    ensures
        wildcard(pattern, value) == glob(pattern, value),
{
    lemma_scan_is_glob(pattern, value, Scan { p: 0, v: 0, star: None, backtrack: 0 });
    assert(pattern.skip(0) =~= pattern);
    assert(value.skip(0) =~= value);
}

proof fn lemma_scan_is_sound(pattern: Seq<u8>, value: Seq<u8>, s: Scan)
    requires
        0 <= s.backtrack <= s.v <= value.len(),
        0 <= s.p <= pattern.len(),
        s.star matches Some(star) ==> 0 <= star < s.p && pattern[star] == 0x2a,
        scan_matches(pattern, value, s),
    ensures
        glob(pattern.skip(s.p), value.skip(s.v)) || later_match(pattern, value, s),
    decreases value.len() - s.backtrack, pattern.len() - s.p,
{
    if s.v == value.len() {
        assert(value.skip(s.v) =~= seq![]);
        lemma_only_stars(pattern, s.p);
    } else {
        lemma_skip(value, s.v);
        if s.p < pattern.len() {
            lemma_skip(pattern, s.p);
        }
        if s.p < pattern.len() && (pattern[s.p] == 0x3f || pattern[s.p] == value[s.v]) {
            lemma_scan_is_sound(pattern, value, Scan { p: s.p + 1, v: s.v + 1, ..s });
            if pattern[s.p] == 0x2a && glob(pattern.skip(s.p + 1), value.skip(s.v + 1)) {
                assert(glob(pattern.skip(s.p), value.skip(s.v + 1)));
            }
        } else if s.p < pattern.len() && pattern[s.p] == 0x2a {
            lemma_scan_is_sound(
                pattern,
                value,
                Scan { p: s.p + 1, v: s.v, star: Some(s.p), backtrack: s.v },
            );
        } else if let Some(star) = s.star {
            lemma_skip(pattern, star);
            if s.backtrack + 1 < value.len() {
                lemma_skip(value, s.backtrack + 1);
            }
            lemma_scan_is_sound(
                pattern,
                value,
                Scan { p: star + 1, v: s.backtrack + 1, star: s.star, backtrack: s.backtrack + 1 },
            );
        }
    }
}

/// Whatever is matched, the pattern means.
pub proof fn law_wildcard_stays_in_glob(pattern: Seq<u8>, value: Seq<u8>)
    ensures
        wildcard(pattern, value) ==> glob(pattern, value),
{
    if wildcard(pattern, value) {
        lemma_scan_is_sound(pattern, value, Scan { p: 0, v: 0, star: None, backtrack: 0 });
        assert(pattern.skip(0) =~= pattern);
        assert(value.skip(0) =~= value);
    }
}

/// The patterns of the names that an image shows and hides.
#[derive(Debug, Clone, PartialEq, Eq)]
pub struct SymbolVisibilityPolicy {
    pub exported: Vec<String>,
    pub unexported: Vec<String>,
}

/// One of the patterns matches the name.
pub open spec fn any_matches(patterns: Seq<String>, name: Seq<char>) -> bool {
    exists|i: int|
        0 <= i < patterns.len() && wildcard(
            text::utf8((#[trigger] patterns[i])@),
            text::utf8(name),
        )
}

fn matches_any(patterns: &Vec<String>, name: &str) -> (r: bool)
    ensures
        r == any_matches(patterns@, name@),
{
    let mut i: usize = 0;
    while i < patterns.len()
        invariant
            i <= patterns@.len(),
            forall|k: int|
                0 <= k < i ==> !wildcard(
                    text::utf8((#[trigger] patterns@[k])@),
                    text::utf8(name@),
                ),
        decreases patterns@.len() - i,
    {
        if wildcard_matches(patterns[i].as_str(), name) {
            return true;
        }
        i += 1;
    }
    false
}

impl SymbolVisibilityPolicy {
    /// A name is hidden if there are names to show and it is not one of them, or if it
    /// is one of those to hide.
    pub open spec fn spec_hides(self, name: Seq<char>) -> bool {
        self.exported@.len() > 0 && !any_matches(self.exported@, name) || any_matches(
            self.unexported@,
            name,
        )
    }

    pub fn hides(&self, name: &str) -> (r: bool)
        ensures
            r == self.spec_hides(name@),
    {
        if self.exported.len() > 0 && !matches_any(&self.exported, name) {
            return true;
        }
        matches_any(&self.unexported, name)
    }
}

proof fn lemma_glob_of_itself(s: Seq<u8>)
    requires
        starless(s),
    ensures
        glob(s, s),
    decreases s.len(),
{
    if s.len() > 0 {
        assert forall|i: int| 0 <= i < s.drop_first().len() implies s.drop_first()[i] != 0x2a by {
            assert(s.drop_first()[i] == s[i + 1]);
        }
        assert(s[0] != 0x2a);
        lemma_glob_of_itself(s.drop_first());
    }
}

/// A name that is listed to be hidden is hidden, whatever else is listed. One that is
/// listed to be shown is shown if no pattern for hiding stands for it. Once something is
/// listed to be shown, a name that none of those patterns stands for is hidden; and where
/// nothing is listed, nothing is hidden.
pub proof fn law_listed_names(policy: SymbolVisibilityPolicy, name: Seq<char>)
    requires
        starless(text::utf8(name)),
    ensures
        policy.exported@.len() == 0 && policy.unexported@.len() == 0 ==> !policy.spec_hides(name),
        (exists|i: int|
            0 <= i < policy.unexported@.len() && (#[trigger] policy.unexported@[i])@ == name)
            ==> policy.spec_hides(name),
        (exists|i: int|
            0 <= i < policy.exported@.len() && (#[trigger] policy.exported@[i])@ == name)
            && (forall|i: int|
            0 <= i < policy.unexported@.len() ==> !glob(
                text::utf8((#[trigger] policy.unexported@[i])@),
                text::utf8(name),
            )) ==> !policy.spec_hides(name),
        policy.exported@.len() > 0 && (forall|i: int|
            0 <= i < policy.exported@.len() ==> !glob(
                text::utf8((#[trigger] policy.exported@[i])@),
                text::utf8(name),
            )) ==> policy.spec_hides(name),
        policy.exported@.len() == 0 && (forall|i: int|
            0 <= i < policy.unexported@.len() ==> !glob(
                text::utf8((#[trigger] policy.unexported@[i])@),
                text::utf8(name),
            )) ==> !policy.spec_hides(name),
{
    let bytes = text::utf8(name);
    lemma_glob_of_itself(bytes);
    assert forall|p: Seq<u8>| #[trigger] wildcard(p, bytes) == glob(p, bytes) by {
        law_wildcard_is_glob(p, bytes);
    }
    if exists|i: int|
        0 <= i < policy.unexported@.len() && (#[trigger] policy.unexported@[i])@ == name {
        let i = choose|i: int|
            0 <= i < policy.unexported@.len() && (#[trigger] policy.unexported@[i])@ == name;
        assert(wildcard(text::utf8(policy.unexported@[i]@), bytes));
    }
    if exists|i: int|
        0 <= i < policy.exported@.len() && (#[trigger] policy.exported@[i])@ == name {
        let i = choose|i: int|
            0 <= i < policy.exported@.len() && (#[trigger] policy.exported@[i])@ == name;
        assert(wildcard(text::utf8(policy.exported@[i]@), bytes));
    }
}

/// The patterns of several symbol lists, one list after the other.
pub open spec fn listed_patterns(lists: Seq<Seq<char>>) -> Seq<Seq<char>>
    decreases lists.len(),
{
    if lists.len() == 0 {
        seq![]
    } else {
        listed_patterns(lists.drop_last()) + trimmed_lines(text::split(lists.last(), '\n'))
    }
}

fn add_lists(patterns: &mut Vec<String>, lists: &Vec<String>)
    ensures
        text::texts(final(patterns)@) == text::texts(old(patterns)@) + listed_patterns(
            text::texts(lists@),
        ),
{
    let ghost start = text::texts(patterns@);
    let ghost all = text::texts(lists@);
    let mut i: usize = 0;
    assert(start =~= start + listed_patterns(all.take(0)));
    while i < lists.len()
        invariant
            i <= lists@.len(),
            all == text::texts(lists@),
            text::texts(patterns@) == start + listed_patterns(all.take(i as int)),
        decreases lists@.len() - i,
    {
        assert(all.take(i + 1).drop_last() =~= all.take(i as int));
        assert(all[i as int] == lists@[i as int]@);
        let ghost before = text::texts(patterns@);
        let mut more = symbol_patterns(lists[i].as_str());
        let ghost added = text::texts(more@);
        patterns.append(&mut more);
        assert(text::texts(patterns@) =~= before + added);
        assert(text::texts(patterns@) =~= start + listed_patterns(all.take(i + 1)));
        i += 1;
    }
    assert(all.take(i as int) =~= all);
}

fn copied(list: &Vec<String>) -> (r: Vec<String>)
    ensures
        text::texts(r@) == text::texts(list@),
{
    let mut out: Vec<String> = Vec::new();
    let mut i: usize = 0;
    assert(text::texts(out@) =~= text::texts(list@).take(0));
    while i < list.len()
        invariant
            i <= list@.len(),
            text::texts(out@) == text::texts(list@).take(i as int),
        decreases list@.len() - i,
    {
        let ghost before = text::texts(out@);
        let s = list[i].clone();
        out.push(s);
        assert(text::texts(out@) =~= before.push(s@));
        assert(text::texts(list@)[i as int] == list@[i as int]@);
        assert(text::texts(out@) =~= text::texts(list@).take(i + 1));
        i += 1;
    }
    assert(text::texts(list@).take(i as int) =~= text::texts(list@));
    out
}

impl SymbolVisibilityPolicy {
    /// The policy of the options, with the patterns of symbol lists behind those that
    /// the options name themselves.
    pub fn from_opts(
        opts: &LinkOptions,
        exported_lists: &Vec<String>,
        unexported_lists: &Vec<String>,
    ) -> (r: SymbolVisibilityPolicy)
        ensures
            text::texts(r.exported@) == text::texts(opts.exported_symbols@) + listed_patterns(
                text::texts(exported_lists@),
            ),
            text::texts(r.unexported@) == text::texts(opts.unexported_symbols@) + listed_patterns(
                text::texts(unexported_lists@),
            ),
    {
        let mut exported = copied(&opts.exported_symbols);
        let mut unexported = copied(&opts.unexported_symbols);
        add_lists(&mut exported, exported_lists);
        add_lists(&mut unexported, unexported_lists);
        SymbolVisibilityPolicy { exported, unexported }
    }
}

/// The lines that hold something, without the white space around them.
pub open spec fn trimmed_lines(lines: Seq<Seq<char>>) -> Seq<Seq<char>>
    decreases lines.len(),
{
    if lines.len() == 0 {
        seq![]
    } else {
        let rest = trimmed_lines(lines.drop_last());
        let line = text::trimmed(lines.last());
        if line.len() == 0 {
            rest
        } else {
            rest.push(line)
        }
    }
}

/// The patterns of a symbol list: one on each line that is not blank.
pub fn symbol_patterns(contents: &str) -> (r: Vec<String>)
    ensures
        text::texts(r@) == trimmed_lines(text::split(contents@, '\n')),
{
    let chars = chars_of(contents);
    let ghost s = contents@;
    let mut out: Vec<String> = Vec::new();
    let mut start: usize = 0;
    let mut i: usize = 0;
    assert(text::texts(out@) =~= seq![]);
    assert(s.take(0) =~= seq![]);
    assert(s.subrange(0, 0) =~= seq![]);
    assert(text::split(s.take(0), '\n').drop_last() =~= seq![]);
    while i < chars.len()
        invariant
            chars@ == s,
            start <= i <= chars@.len(),
            text::split(s.take(i as int), '\n').len() > 0,
            text::split(s.take(i as int), '\n').last() == s.subrange(start as int, i as int),
            text::texts(out@) == trimmed_lines(text::split(s.take(i as int), '\n').drop_last()),
        decreases chars@.len() - i,
    {
        let ghost lines = text::split(s.take(i as int), '\n');
        proof {
            assert(s.take(i + 1).drop_last() =~= s.take(i as int));
            assert(s.take(i + 1).last() == s[i as int]);
        }
        if chars[i] == '\n' {
            push_trimmed(&chars, start, i, &mut out);
            start = i + 1;
            proof {
                let after = text::split(s.take(i + 1), '\n');
                assert(after.drop_last() =~= lines);
                assert(s.subrange(start as int, i + 1) =~= seq![]);
            }
        } else {
            proof {
                let after = text::split(s.take(i + 1), '\n');
                assert(after.drop_last() =~= lines.drop_last());
                assert(s.subrange(start as int, i + 1) =~= s.subrange(start as int, i as int).push(
                    s[i as int],
                ));
            }
        }
        i += 1;
    }
    push_trimmed(&chars, start, i, &mut out);
    assert(s.take(i as int) =~= s);
    out
}

fn push_trimmed(chars: &Vec<char>, from: usize, to: usize, out: &mut Vec<String>)
    requires
        from <= to <= chars@.len(),
    ensures
        ({
            let line = text::trimmed(chars@.subrange(from as int, to as int));
            text::texts(final(out)@) == if line.len() == 0 {
                text::texts(old(out)@)
            } else {
                text::texts(old(out)@).push(line)
            }
        }),
{
    let (start, end) = trim_bounds(chars, from, to);
    if start < end {
        out.push(string_between(chars, start, end));
        assert(text::texts(out@) =~= text::texts(old(out)@).push(
            text::trimmed(chars@.subrange(from as int, to as int)),
        ));
    }
}

} // verus!
