//! Scanning a text with an eye on its quotes and brackets.

use vstd::prelude::*;
use crate::text;

verus! {

/// What is open at some point of a text.
#[verifier::ext_equal]
pub struct Open {
    pub single: bool,
    pub double: bool,
    /// Brackets and braces opened but not closed; negative if more were closed.
    pub depth: int,
}

pub open spec fn nothing_open() -> Open {
    Open { single: false, double: false, depth: 0 }
}

impl Open {
    pub open spec fn quoted(self) -> bool {
        self.single || self.double
    }

    /// What is open behind the character `c`.
    pub open spec fn past(self, c: char) -> Open {
        if c == '\'' && !self.double {
            Open { single: !self.single, ..self }
        } else if c == '"' && !self.single {
            Open { double: !self.double, ..self }
        } else if (c == '[' || c == '{') && !self.quoted() {
            Open { depth: self.depth + 1, ..self }
        } else if (c == ']' || c == '}') && !self.quoted() {
            Open { depth: self.depth - 1, ..self }
        } else {
            self
        }
    }

    /// The character at `i` takes the one behind it out of account.
    pub open spec fn escapes(self, s: Seq<char>, i: int) -> bool {
        s[i] == '\\' && self.double && i + 1 < s.len()
    }
}

/// The same in executable form.
#[derive(Debug, Clone, Copy)]
pub struct Scan {
    single: bool,
    double: bool,
    depth: i128,
}

impl View for Scan {
    type V = Open;

    closed spec fn view(&self) -> Open {
        Open { single: self.single, double: self.double, depth: self.depth as int }
    }
}

impl Scan {
    pub fn new() -> (r: Scan)
        ensures
            r@ == nothing_open(),
    {
        Scan { single: false, double: false, depth: 0 }
    }

    pub fn quoted(&self) -> (r: bool)
        ensures
            r == self@.quoted(),
    {
        self.single || self.double
    }

    pub fn level(&self) -> (r: bool)
        ensures
            r == (self@.depth == 0),
    {
        self.depth == 0
    }

    pub fn in_double(&self) -> (r: bool)
        ensures
            r == self@.double,
    {
        self.double
    }

    pub fn advance(&mut self, c: char)
        requires
            -0x1_0000_0000_0000_0000 <= old(self)@.depth <= 0x1_0000_0000_0000_0000,
        ensures
            final(self)@ == old(self)@.past(c),
    {
        if c == '\'' && !self.double {
            self.single = !self.single;
        } else if c == '"' && !self.single {
            self.double = !self.double;
        } else if (c == '[' || c == '{') && !self.single && !self.double {
            self.depth = self.depth + 1;
        } else if (c == ']' || c == '}') && !self.single && !self.double {
            self.depth = self.depth - 1;
        }
    }
}

/// What is open at the end of a text.
pub open spec fn open_at_end(s: Seq<char>, i: int, q: Open) -> Open
    decreases s.len() - i,
{
    if i >= s.len() {
        q
    } else if q.escapes(s, i) {
        open_at_end(s, i + 2, q)
    } else {
        open_at_end(s, i + 1, q.past(s[i]))
    }
}

/// Not every bracket is closed.
pub open spec fn unbalanced(s: Seq<char>) -> bool {
    open_at_end(s, 0, nothing_open()).depth != 0
}

pub fn flow_unbalanced(s: &Vec<char>) -> (r: bool)
    ensures
        r == unbalanced(s@),
{
    let mut scan = Scan::new();
    let mut i: usize = 0;
    while i < s.len()
        invariant
            i <= s@.len(),
            -(i as int) <= scan@.depth <= i,
            open_at_end(s@, 0, nothing_open()) == open_at_end(s@, i as int, scan@),
        decreases s@.len() - i,
    {
        if s[i] == '\\' && scan.in_double() && i + 1 < s.len() {
            i += 2;
        } else {
            scan.advance(s[i]);
            i += 1;
        }
    }
    !scan.level()
}

pub open spec fn is_blank(c: char) -> bool {
    c == ' ' || c == '\t'
}

/// Where a comment starts, or the end of the text.
pub open spec fn comment_from(s: Seq<char>, i: int, q: Open) -> int
    decreases s.len() - i,
{
    if i >= s.len() {
        s.len() as int
    } else if q.escapes(s, i) {
        comment_from(s, i + 2, q)
    } else if s[i] == '#' && !q.quoted() && (i == 0 || is_blank(s[i - 1])) {
        i
    } else {
        comment_from(s, i + 1, q.past(s[i]))
    }
}

/// A line without its comment and the white space in front of that.
pub open spec fn without_comment(s: Seq<char>) -> Seq<char> {
    let at = comment_from(s, 0, nothing_open());
    if at < s.len() {
        text::trimmed_end(s.take(at))
    } else {
        s
    }
}

pub fn strip_eol_comment(s: Vec<char>) -> (r: Vec<char>)
    ensures
        r@ == without_comment(s@),
{
    let mut scan = Scan::new();
    let mut i: usize = 0;
    while i < s.len()
        invariant
            i <= s@.len(),
            -(i as int) <= scan@.depth <= i,
            comment_from(s@, 0, nothing_open()) == comment_from(s@, i as int, scan@),
        decreases s@.len() - i,
    {
        if s[i] == '\\' && scan.in_double() && i + 1 < s.len() {
            i += 2;
        } else {
            if s[i] == '#' && !scan.quoted() && (i == 0 || s[i - 1] == ' ' || s[i - 1] == '\t') {
                let to: usize = text::drop_space(&s, 0, i);
                assert(s@.subrange(0, i as int) =~= s@.take(i as int));
                return crate::chars::part(&s, 0, to);
            }
            scan.advance(s[i]);
            i += 1;
        }
    }
    s
}

/// The colon that parts a key from its value: outside quotes and brackets, and
/// with a blank or nothing behind it.
pub open spec fn colon_from(s: Seq<char>, i: int, q: Open) -> Option<int>
    decreases s.len() - i,
{
    if i >= s.len() {
        None
    } else if q.escapes(s, i) {
        colon_from(s, i + 2, q)
    } else if s[i] == ':' && !q.quoted() && q.depth == 0 && (i + 1 == s.len() || is_blank(
        s[i + 1],
    )) {
        Some(i)
    } else {
        colon_from(s, i + 1, q.past(s[i]))
    }
}

pub proof fn lemma_colon(s: Seq<char>, i: int, q: Open)
    requires
        0 <= i,
    ensures
        match colon_from(s, i, q) {
            Some(at) => i <= at < s.len(),
            None => true,
        },
    decreases s.len() - i,
{
    if i < s.len() {
        if q.escapes(s, i) {
            lemma_colon(s, i + 2, q);
        } else {
            lemma_colon(s, i + 1, q.past(s[i]));
        }
    }
}

pub fn find_top_level_mapping_colon(s: &Vec<char>) -> (r: Option<usize>)
    ensures
        match r {
            Some(at) => colon_from(s@, 0, nothing_open()) == Some(at as int) && at < s@.len(),
            None => colon_from(s@, 0, nothing_open()) is None,
        },
{
    let mut scan = Scan::new();
    let mut i: usize = 0;
    while i < s.len()
        invariant
            i <= s@.len(),
            -(i as int) <= scan@.depth <= i,
            colon_from(s@, 0, nothing_open()) == colon_from(s@, i as int, scan@),
        decreases s@.len() - i,
    {
        if s[i] == '\\' && scan.in_double() && i + 1 < s.len() {
            i += 2;
        } else {
            if s[i] == ':' && !scan.quoted() && scan.level() && (i + 1 == s.len() || s[i + 1] == ' '
                || s[i + 1] == '\t') {
                return Some(i);
            }
            scan.advance(s[i]);
            i += 1;
        }
    }
    None
}

/// The items of a list, parted by the commas outside quotes and brackets. The
/// item under way starts at `start`.
pub open spec fn items_from(s: Seq<char>, start: int, i: int, q: Open) -> Seq<Seq<char>>
    decreases s.len() - i,
{
    if i >= s.len() {
        seq![s.subrange(start, s.len() as int)]
    } else if q.escapes(s, i) {
        items_from(s, start, i + 2, q)
    } else if s[i] == ',' && !q.quoted() && q.depth == 0 {
        seq![s.subrange(start, i)] + items_from(s, i + 1, i + 1, q.past(s[i]))
    } else {
        items_from(s, start, i + 1, q.past(s[i]))
    }
}

pub open spec fn flow_items(s: Seq<char>) -> Seq<Seq<char>> {
    items_from(s, 0, 0, nothing_open())
}

pub fn split_flow_items(s: &Vec<char>) -> (r: Vec<Vec<char>>)
    ensures
        crate::chars::rows(r@) == flow_items(s@),
{
    let mut out: Vec<Vec<char>> = Vec::new();
    let mut scan = Scan::new();
    let mut start: usize = 0;
    let mut i: usize = 0;
    assert(crate::chars::rows(out@) + flow_items(s@) =~= flow_items(s@));
    while i < s.len()
        invariant
            start <= i <= s@.len(),
            -(i as int) <= scan@.depth <= i,
            flow_items(s@) == crate::chars::rows(out@) + items_from(
                s@,
                start as int,
                i as int,
                scan@,
            ),
        decreases s@.len() - i,
    {
        if s[i] == '\\' && scan.in_double() && i + 1 < s.len() {
            i += 2;
        } else {
            if s[i] == ',' && !scan.quoted() && scan.level() {
                let item = crate::chars::part(s, start, i);
                let ghost was = crate::chars::rows(out@);
                let ghost rest = items_from(s@, i + 1, i + 1, scan@.past(s@[i as int]));
                out.push(item);
                start = i + 1;
                assert(crate::chars::rows(out@) =~= was.push(item@));
                assert(was + (seq![item@] + rest) =~= was.push(item@) + rest);
            }
            scan.advance(s[i]);
            i += 1;
        }
    }
    let item = crate::chars::part(s, start, i);
    let ghost was = crate::chars::rows(out@);
    out.push(item);
    assert(crate::chars::rows(out@) =~= was + seq![item@]);
    out
}

} // verus!
