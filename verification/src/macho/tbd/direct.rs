//! Stubs straight from their lines: a quick way for texts of the usual form.

use vstd::prelude::*;
use crate::chars;
use crate::chars::{append, part, split_on, starts_with, trim, trim_start};
use crate::macho::tbd;
use crate::macho::tbd::decode;
use crate::macho::tbd::decode::{check_complete, parse_tbd};
use crate::macho::tbd::entry;
use crate::macho::tbd::entry::{
    empty_lists, find_key, into_scalars, into_symbols, into_texts, make_list_shape,
    make_symbols_shape, make_umbrella_shape, push_entry, set_list, Entry, EntryModel, EntryShape,
    Shape,
};
use crate::macho::tbd::{
    filter_docs_for_target, filter_docs_for_target_metadata, parse_number, parse_target,
    parse_version_field, push_doc, schema, targets_match, Target, TargetModel, Tbd,
    TbdError, TbdFault, TbdModel,
};
use crate::macho::tbd_yaml::lines;
use crate::macho::tbd_yaml::lines::count_spaces;
use crate::macho::tbd_yaml::scan;
use crate::macho::tbd_yaml::scan::split_flow_items;
use crate::text;
use crate::text::{chars_of, dec_string, quote, same_text, string_of};

verus! {

/// What is open at some point of a list that spans several lines.
#[verifier::ext_equal]
pub struct Balance {
    pub depth: i32,
    pub single: bool,
    pub double: bool,
    /// The next character does not count.
    pub escaped: bool,
}

impl Balance {
    pub open spec fn level() -> Balance {
        Balance { depth: 0, single: false, double: false, escaped: false }
    }

    /// What is open behind the character `c`.
    pub open spec fn past(self, c: char) -> Balance {
        if self.escaped {
            Balance { escaped: false, ..self }
        } else if c == '\\' && self.double {
            Balance { escaped: true, ..self }
        } else if c == '\'' && !self.double {
            Balance { single: !self.single, ..self }
        } else if c == '"' && !self.single {
            Balance { double: !self.double, ..self }
        } else if (c == '[' || c == '{') && !self.single && !self.double {
            Balance { depth: self.depth.wrapping_add(1), ..self }
        } else if (c == ']' || c == '}') && !self.single && !self.double {
            Balance { depth: self.depth.wrapping_sub(1), ..self }
        } else {
            self
        }
    }

    /// What is open behind a text.
    pub open spec fn after(self, s: Seq<char>) -> Balance
        decreases s.len(),
    {
        if s.len() == 0 {
            self
        } else {
            self.after(s.drop_last()).past(s.last())
        }
    }
}

/// The same in executable form.
#[derive(Debug, Clone, Copy)]
pub struct DirectFlowBalance {
    depth: i32,
    in_single: bool,
    in_double: bool,
    escape_next: bool,
}

impl View for DirectFlowBalance {
    type V = Balance;

    closed spec fn view(&self) -> Balance {
        Balance {
            depth: self.depth,
            single: self.in_single,
            double: self.in_double,
            escaped: self.escape_next,
        }
    }
}

impl Default for DirectFlowBalance {
    fn default() -> (r: DirectFlowBalance)
        ensures
            r@ == Balance::level(),
    {
        DirectFlowBalance { depth: 0, in_single: false, in_double: false, escape_next: false }
    }
}

impl DirectFlowBalance {
    fn advance(&mut self, c: char)
        ensures
            final(self)@ == old(self)@.past(c),
    {
        if self.escape_next {
            self.escape_next = false;
        } else if c == '\\' && self.in_double {
            self.escape_next = true;
        } else if c == '\'' && !self.in_double {
            self.in_single = !self.in_single;
        } else if c == '"' && !self.in_single {
            self.in_double = !self.in_double;
        } else if (c == '[' || c == '{') && !self.in_single && !self.in_double {
            self.depth = self.depth.wrapping_add(1);
        } else if (c == ']' || c == '}') && !self.in_single && !self.in_double {
            self.depth = self.depth.wrapping_sub(1);
        }
    }

    /// Goes past a piece of the text.
    pub fn scan(&mut self, fragment: &str)
        ensures
            final(self)@ == old(self)@.after(fragment@),
    {
        let c = chars_of(fragment);
        self.scan_chars(&c);
    }

    fn scan_chars(&mut self, c: &Vec<char>)
        ensures
            final(self)@ == old(self)@.after(c@),
    {
        let ghost start = self@;
        let mut i: usize = 0;
        assert(c@.take(0) =~= seq![]);
        while i < c.len()
            invariant
                i <= c@.len(),
                start == old(self)@,
                self@ == start.after(c@.take(i as int)),
            decreases c@.len() - i,
        {
            assert(c@.take(i + 1).drop_last() =~= c@.take(i as int));
            self.advance(c[i]);
            i += 1;
        }
        assert(c@.take(i as int) =~= c@);
    }

    pub fn is_unbalanced(&self) -> (r: bool)
        ensures
            r == (self@.depth != 0),
    {
        self.depth != 0
    }
}

/// A line without the white space around it, if it holds something other than a
/// comment.
pub open spec fn busy(line: Seq<char>) -> Option<Seq<char>> {
    let t = text::trimmed(line);
    if t.len() == 0 || t.first() == '#' {
        None
    } else {
        Some(t)
    }
}

fn direct_trimmed(line: &Vec<char>) -> (r: Option<Vec<char>>)
    ensures
        match (r, busy(line@)) {
            (Some(a), Some(b)) => a@ == b,
            (None, None) => true,
            _ => false,
        },
{
    let t = trim(line);
    if t.len() == 0 || t[0] == '#' {
        None
    } else {
        Some(t)
    }
}

/// The line parts documents.
pub open spec fn is_mark(t: Seq<char>) -> bool {
    chars::prefixed(t, "---"@) || chars::prefixed(t, "..."@)
}

fn is_mark_line(t: &Vec<char>) -> (r: bool)
    ensures
        r == is_mark(t@),
{
    starts_with(t, "---") || starts_with(t, "...")
}

/// Where the first colon stands, or the end of the text.
pub open spec fn first_colon(s: Seq<char>) -> int
    decreases s.len(),
{
    if s.len() == 0 || s.first() == ':' {
        0
    } else {
        1 + first_colon(s.drop_first())
    }
}

/// A key, and what stands behind the first colon.
pub open spec fn key_rest(s: Seq<char>) -> Option<(Seq<char>, Seq<char>)> {
    let at = first_colon(s);
    if at < s.len() {
        Some((text::trimmed(s.take(at)), text::trimmed_start(s.skip(at + 1))))
    } else {
        None
    }
}

fn direct_key_value(s: &Vec<char>) -> (r: Option<(String, Vec<char>)>)
    ensures
        match (r, key_rest(s@)) {
            (Some((k, v)), Some((key, rest))) => k@ == key && v@ == rest,
            (None, None) => true,
            _ => false,
        },
{
    let mut at: usize = 0;
    assert(s@.skip(0) =~= s@);
    while at < s.len() && s[at] != ':'
        invariant
            at <= s@.len(),
            first_colon(s@) == at + first_colon(s@.skip(at as int)),
        decreases s@.len() - at,
    {
        assert(s@.skip(at as int).drop_first() =~= s@.skip(at + 1));
        at += 1;
    }
    if at >= s.len() {
        return None;
    }
    let key = trim(&part(s, 0, at));
    let rest = trim_start(&part(s, at + 1, s.len()));
    assert(s@.subrange(0, at as int) =~= s@.take(at as int));
    assert(s@.subrange(at + 1, s@.len() as int) =~= s@.skip(at + 1));
    Some((string_of(&key), rest))
}

/// A text with one single quote for every two that stand together.
pub open spec fn halved_from(s: Seq<char>, i: int, done: Seq<char>) -> Seq<char>
    decreases s.len() - i,
{
    if i >= s.len() {
        done
    } else if s[i] == '\'' && i + 1 < s.len() && s[i + 1] == '\'' {
        halved_from(s, i + 2, done.push('\''))
    } else {
        halved_from(s, i + 1, done.push(s[i]))
    }
}

/// The character that an escaped one stands for.
pub open spec fn unescaped(c: char) -> char {
    if c == 'n' {
        '\n'
    } else if c == 'r' {
        '\r'
    } else if c == 't' {
        '\t'
    } else {
        c
    }
}

/// A text with its escaped characters replaced. A backslash at the end stays.
pub open spec fn unescaped_from(s: Seq<char>, i: int, done: Seq<char>) -> Seq<char>
    decreases s.len() - i,
{
    if i >= s.len() {
        done
    } else if s[i] == '\\' && i + 1 < s.len() {
        unescaped_from(s, i + 2, done.push(unescaped(s[i + 1])))
    } else {
        unescaped_from(s, i + 1, done.push(s[i]))
    }
}

/// The text of a scalar, with or without quotes.
pub open spec fn plain(raw: Seq<char>) -> Seq<char> {
    let t = text::trimmed(raw);
    if t.len() >= 2 && t.first() == '\'' && t.last() == '\'' {
        halved_from(t.subrange(1, t.len() - 1), 0, seq![])
    } else if t.len() >= 2 && t.first() == '"' && t.last() == '"' {
        unescaped_from(t.subrange(1, t.len() - 1), 0, seq![])
    } else {
        t
    }
}

fn halve_quotes(s: &Vec<char>) -> (r: String)
    ensures
        r@ == halved_from(s@, 0, seq![]),
{
    let mut out: Vec<char> = Vec::new();
    let mut i: usize = 0;
    assert(out@ =~= seq![]);
    while i < s.len()
        invariant
            i <= s@.len(),
            halved_from(s@, 0, seq![]) == halved_from(s@, i as int, out@),
        decreases s@.len() - i,
    {
        if s[i] == '\'' && i + 1 < s.len() && s[i + 1] == '\'' {
            out.push('\'');
            i += 2;
        } else {
            out.push(s[i]);
            i += 1;
        }
    }
    string_of(&out)
}

fn parse_direct_double_quoted(s: &Vec<char>) -> (r: String)
    ensures
        r@ == unescaped_from(s@, 0, seq![]),
{
    let mut out: Vec<char> = Vec::new();
    let mut i: usize = 0;
    assert(out@ =~= seq![]);
    while i < s.len()
        invariant
            i <= s@.len(),
            unescaped_from(s@, 0, seq![]) == unescaped_from(s@, i as int, out@),
        decreases s@.len() - i,
    {
        if s[i] == '\\' && i + 1 < s.len() {
            out.push(
                match s[i + 1] {
                    'n' => '\n',
                    'r' => '\r',
                    't' => '\t',
                    other => other,
                },
            );
            i += 2;
        } else {
            out.push(s[i]);
            i += 1;
        }
    }
    string_of(&out)
}

fn parse_direct_scalar(raw: &Vec<char>) -> (r: String)
    ensures
        r@ == plain(raw@),
{
    let t = trim(raw);
    let n: usize = t.len();
    if n >= 2 && t[0] == '\'' && t[n - 1] == '\'' {
        halve_quotes(&part(&t, 1, n - 1))
    } else if n >= 2 && t[0] == '"' && t[n - 1] == '"' {
        parse_direct_double_quoted(&part(&t, 1, n - 1))
    } else {
        string_of(&t)
    }
}

/// A list over several lines, and the line behind it.
pub type Flow = Result<(Seq<char>, int), TbdFault>;

/// A line's number, counted from one.
pub open spec fn line_number(i: int) -> Seq<char> {
    text::dec((i as usize).wrapping_add(1) as nat)
}

/// What is wrong with a list that is never closed.
pub open spec fn unterminated(start: int, link: Seq<char>, at: int, seen: Seq<char>) -> TbdFault {
    TbdFault::Schema(
        "unterminated flow sequence from line "@ + line_number(start) + link
            + line_number(at) + ": "@ + text::quoted(seen),
    )
}

/// The text of a list from line `i` on. `shown` is what errors show: what was
/// gathered so far, or only `first` where nothing is gathered.
pub open spec fn flow_from(
    raw: Seq<Seq<char>>,
    start: int,
    i: int,
    flow: Seq<char>,
    b: Balance,
    closed: bool,
    first: Seq<char>,
    gather: bool,
) -> Flow
    decreases raw.len() - i,
{
    let shown = if gather {
        flow
    } else {
        first
    };
    if b.depth == 0 {
        if closed {
            Ok((flow, i))
        } else {
            Err(TbdFault::Schema("flow sequence must end with ']'"@))
        }
    } else if i >= raw.len() {
        Err(unterminated(start, " near line "@, i, shown))
    } else {
        match busy(raw[i]) {
            None => Err(unterminated(start, " near line "@, i, shown)),
            Some(t) => if is_mark(t) {
                Err(unterminated(start, " before line "@, i, shown))
            } else {
                flow_from(
                    raw,
                    start,
                    i + 1,
                    flow + seq![' '] + t,
                    b.after(seq![' ']).after(t),
                    t.last() == ']',
                    first,
                    gather,
                )
            },
        }
    }
}

/// The list that starts in `rest`, on line `i`.
pub open spec fn flow_at(raw: Seq<Seq<char>>, i: int, rest: Seq<char>, gather: bool) -> Flow {
    let t = text::trimmed(rest);
    if t.len() == 0 || t.first() != '[' {
        Err(TbdFault::Schema("expected a flow sequence"@))
    } else {
        flow_from(raw, i, i + 1, t, Balance::level().after(t), t.last() == ']', t, gather)
    }
}

pub proof fn lemma_flow(
    raw: Seq<Seq<char>>,
    start: int,
    i: int,
    flow: Seq<char>,
    b: Balance,
    closed: bool,
    first: Seq<char>,
    gather: bool,
)
    requires
        0 <= i <= raw.len(),
    ensures
        match flow_from(raw, start, i, flow, b, closed, first, gather) {
            Ok((_, next)) => i <= next <= raw.len(),
            Err(_) => true,
        },
    decreases raw.len() - i,
{
    if b.depth != 0 && i < raw.len() {
        if let Some(t) = busy(raw[i]) {
            if !is_mark(t) {
                lemma_flow(
                    raw,
                    start,
                    i + 1,
                    flow + seq![' '] + t,
                    b.after(seq![' ']).after(t),
                    t.last() == ']',
                    first,
                    gather,
                );
            }
        }
    }
}

fn unterminated_error(start: usize, link: &str, at: usize, shown: &Vec<char>) -> (r: TbdError)
    ensures
        r@ == unterminated(start as int, link@, at as int, shown@),
{
    let mut msg = "unterminated flow sequence from line ".to_owned();
    msg.append(dec_string(start.wrapping_add(1) as u64).as_str());
    msg.append(link);
    msg.append(dec_string(at.wrapping_add(1) as u64).as_str());
    msg.append(": ");
    msg.append(quote(string_of(shown).as_str()).as_str());
    TbdError::Schema { msg }
}

fn consume_direct_flow(raw: &Vec<Vec<char>>, i: usize, rest: &Vec<char>, collect: bool) -> (r: Result<
    (Vec<char>, usize),
    TbdError,
>)
    requires
        i < raw@.len(),
    ensures
        match (r, flow_at(chars::rows(raw@), i as int, rest@, collect)) {
            (Ok((flow, next)), Ok((m, at))) => (collect ==> flow@ == m) && next == at && i < next
                <= raw@.len(),
            (Err(e), Err(f)) => e@ == f,
            _ => false,
        },
{
    let ghost rows = chars::rows(raw@);
    let first = trim(rest);
    if first.len() == 0 || first[0] != '[' {
        return Err(schema("expected a flow sequence"));
    }
    let mut flow: Vec<char> = Vec::new();
    append(&mut flow, &first);
    assert(flow@ =~= first@);
    let ghost mut whole = first@;
    let mut balance = DirectFlowBalance::default();
    balance.scan_chars(&first);
    let mut closed: bool = first[first.len() - 1] == ']';
    assert(raw.len() == raw@.len());
    let mut next: usize = i + 1;
    let mut blank: Vec<char> = Vec::new();
    blank.push(' ');
    while balance.is_unbalanced()
        invariant
            i < next <= raw@.len(),
            rows == chars::rows(raw@),
            first@ == text::trimmed(rest@),
            first@.len() > 0 && first@.first() == '[',
            blank@ =~= seq![' '],
            collect ==> flow@ == whole,
            flow_at(rows, i as int, rest@, collect) == flow_from(
                rows,
                i as int,
                next as int,
                whole,
                balance@,
                closed,
                first@,
                collect,
            ),
        decreases raw@.len() - next,
    {
        let shown = if collect {
            &flow
        } else {
            &first
        };
        assert(raw.len() == raw@.len());
        if next >= raw.len() {
            return Err(unterminated_error(i, " near line ", next, shown));
        }
        assert(rows[next as int] == raw@[next as int]@);
        let t = match direct_trimmed(&raw[next]) {
            Some(t) => t,
            None => {
                return Err(unterminated_error(i, " near line ", next, shown));
            },
        };
        if is_mark_line(&t) {
            return Err(unterminated_error(i, " before line ", next, shown));
        }
        balance.scan_chars(&blank);
        balance.scan_chars(&t);
        if collect {
            flow.push(' ');
            append(&mut flow, &t);
        }
        proof {
            whole = whole + seq![' '] + t@;
            assert(collect ==> flow@ =~= whole);
        }
        closed = t[t.len() - 1] == ']';
        next += 1;
    }
    if !closed {
        return Err(schema("flow sequence must end with ']'"));
    }
    Ok((flow, next))
}

/// The texts of a list in brackets; items that are blank do not count.
pub open spec fn flow_texts(items: Seq<Seq<char>>) -> Seq<Seq<char>>
    decreases items.len(),
{
    if items.len() == 0 {
        seq![]
    } else {
        let rest = flow_texts(items.drop_last());
        if text::trimmed(items.last()).len() == 0 {
            rest
        } else {
            rest.push(plain(text::trimmed(items.last())))
        }
    }
}

pub open spec fn bracketed(flow: Seq<char>) -> Result<Seq<Seq<char>>, TbdFault> {
    if flow.len() >= 2 && flow.first() == '[' && flow.last() == ']' {
        Ok(flow_texts(scan::flow_items(flow.subrange(1, flow.len() - 1))))
    } else {
        Err(TbdFault::Schema("flow sequence must be bracketed"@))
    }
}

fn split_direct_flow_scalars(flow: &Vec<char>) -> (r: Result<Vec<String>, TbdError>)
    ensures
        match (r, bracketed(flow@)) {
            (Ok(v), Ok(m)) => text::texts(v@) == m,
            (Err(e), Err(f)) => e@ == f,
            _ => false,
        },
{
    let n: usize = flow.len();
    if n < 2 || flow[0] != '[' || flow[n - 1] != ']' {
        return Err(schema("flow sequence must be bracketed"));
    }
    let items = split_flow_items(&part(flow, 1, n - 1));
    let ghost all = chars::rows(items@);
    let mut out: Vec<String> = Vec::new();
    let mut i: usize = 0;
    assert(text::texts(out@) =~= seq![]);
    while i < items.len()
        invariant
            i <= items@.len(),
            all == chars::rows(items@),
            text::texts(out@) == flow_texts(all.take(i as int)),
        decreases items@.len() - i,
    {
        assert(all.take(i + 1).drop_last() =~= all.take(i as int));
        assert(all[i as int] == items@[i as int]@);
        let item = trim(&items[i]);
        if item.len() > 0 {
            let s = parse_direct_scalar(&item);
            let ghost before = text::texts(out@);
            out.push(s);
            assert(text::texts(out@) =~= before.push(s@));
        }
        i += 1;
    }
    assert(all.take(i as int) =~= all);
    Ok(out)
}

/// The texts of the list that starts in `rest`, and the line behind it.
pub open spec fn string_list(raw: Seq<Seq<char>>, i: int, rest: Seq<char>) -> Result<
    (Seq<Seq<char>>, int),
    TbdFault,
> {
    match flow_at(raw, i, rest, true) {
        Err(e) => Err(e),
        Ok((flow, next)) => match bracketed(flow) {
            Err(e) => Err(e),
            Ok(list) => Ok((list, next)),
        },
    }
}

fn parse_direct_string_list(raw: &Vec<Vec<char>>, i: usize, rest: &Vec<char>) -> (r: Result<
    (Vec<String>, usize),
    TbdError,
>)
    requires
        i < raw@.len(),
    ensures
        match (r, string_list(chars::rows(raw@), i as int, rest@)) {
            (Ok((v, next)), Ok((m, at))) => text::texts(v@) == m && next == at && i < next
                <= raw@.len(),
            (Err(e), Err(f)) => e@ == f,
            _ => false,
        },
{
    match consume_direct_flow(raw, i, rest, true) {
        Ok((flow, next)) => match split_direct_flow_scalars(&flow) {
            Ok(v) => Ok((v, next)),
            Err(e) => Err(e),
        },
        Err(e) => Err(e),
    }
}

/// The targets that texts name, from text `i` on.
pub open spec fn targets_from(items: Seq<Seq<char>>, i: int, done: Seq<TargetModel>) -> Result<
    Seq<TargetModel>,
    TbdFault,
>
    decreases items.len() - i,
{
    if i >= items.len() {
        Ok(done)
    } else {
        match tbd::target_of(items[i]) {
            Err(e) => Err(e),
            Ok(t) => targets_from(items, i + 1, done.push(t)),
        }
    }
}

pub open spec fn target_list(raw: Seq<Seq<char>>, i: int, rest: Seq<char>) -> Result<
    (Seq<TargetModel>, int),
    TbdFault,
> {
    match string_list(raw, i, rest) {
        Err(e) => Err(e),
        Ok((items, next)) => match targets_from(items, 0, seq![]) {
            Err(e) => Err(e),
            Ok(t) => Ok((t, next)),
        },
    }
}

fn parse_direct_targets(raw: &Vec<Vec<char>>, i: usize, rest: &Vec<char>) -> (r: Result<
    (Vec<Target>, usize),
    TbdError,
>)
    requires
        i < raw@.len(),
    ensures
        match (r, target_list(chars::rows(raw@), i as int, rest@)) {
            (Ok((v, next)), Ok((m, at))) => tbd::targets_view(v@) == m && next == at && i < next
                <= raw@.len(),
            (Err(e), Err(f)) => e@ == f,
            _ => false,
        },
{
    let (items, next) = match parse_direct_string_list(raw, i, rest) {
        Ok(found) => found,
        Err(e) => {
            return Err(e);
        },
    };
    let ghost all = text::texts(items@);
    let mut out: Vec<Target> = Vec::new();
    let mut k: usize = 0;
    assert(tbd::targets_view(out@) =~= seq![]);
    while k < items.len()
        invariant
            k <= items@.len(),
            all == text::texts(items@),
            string_list(chars::rows(raw@), i as int, rest@) == Ok::<
                (Seq<Seq<char>>, int),
                TbdFault,
            >((all, next as int)),
            targets_from(all, 0, seq![]) == targets_from(all, k as int, tbd::targets_view(out@)),
        decreases items@.len() - k,
    {
        assert(all[k as int] == items@[k as int]@);
        match parse_target(items[k].as_str()) {
            Ok(t) => {
                let ghost before = tbd::targets_view(out@);
                out.push(t);
                assert(tbd::targets_view(out@) =~= before.push(t@));
            },
            Err(e) => {
                return Err(e);
            },
        }
        k += 1;
    }
    Ok((out, next))
}

/// The line behind a value that does not count.
pub open spec fn skipped(raw: Seq<Seq<char>>, i: int, rest: Seq<char>) -> Result<int, TbdFault> {
    let t = text::trimmed_start(rest);
    if t.len() > 0 && t.first() == '[' {
        match flow_at(raw, i, rest, false) {
            Ok((_, next)) => Ok(next),
            Err(e) => Err(e),
        }
    } else {
        Ok(i + 1)
    }
}

fn skip_direct_inline_value(raw: &Vec<Vec<char>>, i: usize, rest: &Vec<char>) -> (r: Result<
    usize,
    TbdError,
>)
    requires
        i < raw@.len(),
    ensures
        match (r, skipped(chars::rows(raw@), i as int, rest@)) {
            (Ok(next), Ok(at)) => next == at && i < next <= raw@.len(),
            (Err(e), Err(f)) => e@ == f,
            _ => false,
        },
{
    assert(raw.len() == raw@.len());
    let t = trim_start(rest);
    if t.len() > 0 && t[0] == '[' {
        match consume_direct_flow(raw, i, rest, false) {
            Ok((_, next)) => Ok(next),
            Err(e) => Err(e),
        }
    } else {
        Ok(i + 1)
    }
}

/// The line behind everything that is indented, from line `i` on.
pub open spec fn block_end(raw: Seq<Seq<char>>, i: int) -> int
    decreases raw.len() - i,
{
    if i >= raw.len() {
        i
    } else {
        match busy(raw[i]) {
            None => block_end(raw, i + 1),
            Some(t) => if is_mark(t) || lines::spaces(raw[i]) == 0 {
                i
            } else {
                block_end(raw, i + 1)
            },
        }
    }
}

fn skip_direct_value(raw: &Vec<Vec<char>>, from: usize) -> (r: usize)
    requires
        from <= raw@.len(),
    ensures
        r == block_end(chars::rows(raw@), from as int),
        from <= r <= raw@.len(),
{
    let ghost rows = chars::rows(raw@);
    let mut i: usize = from;
    while i < raw.len()
        invariant
            from <= i <= raw@.len(),
            rows == chars::rows(raw@),
            block_end(rows, from as int) == block_end(rows, i as int),
        decreases raw@.len() - i,
    {
        assert(rows[i as int] == raw@[i as int]@);
        if let Some(t) = direct_trimmed(&raw[i]) {
            if is_mark_line(&t) || count_spaces(&raw[i]) == 0 {
                return i;
            }
        }
        i += 1;
    }
    i
}

/// An entry under way. Whether it serves the wanted target is known once its
/// targets are.
#[verifier::ext_equal]
pub struct Progress {
    pub targets: Option<Seq<TargetModel>>,
    pub serves: Option<bool>,
    pub scalar: Option<Seq<char>>,
    pub lists: Seq<Seq<Seq<char>>>,
}

pub open spec fn nothing_yet(shape: Shape) -> Progress {
    Progress {
        targets: None,
        serves: None,
        scalar: None,
        lists: Seq::new(shape.list_keys.len(), |i: int| Seq::<Seq<char>>::empty()),
    }
}

/// An entry with what a further key says, and the line behind that. Values of an
/// entry that does not serve the target are passed over.
pub open spec fn with_pair(
    raw: Seq<Seq<char>>,
    i: int,
    shape: Shape,
    wanted: TargetModel,
    p: Progress,
    key: Seq<char>,
    rest: Seq<char>,
) -> Result<(Progress, int), TbdFault> {
    if key == "targets"@ {
        match target_list(raw, i, rest) {
            Err(e) => Err(e),
            Ok((t, next)) => Ok(
                (
                    Progress { targets: Some(t), serves: Some(tbd::any_serves(t, wanted)), ..p },
                    next,
                ),
            ),
        }
    } else if shape.scalar_key == Some(key) {
        if p.serves == Some(false) {
            Ok((p, i + 1))
        } else {
            Ok((Progress { scalar: Some(plain(rest)), ..p }, i + 1))
        }
    } else {
        match entry::key_index(shape.list_keys, key) {
            Some(k) => if p.serves == Some(false) {
                match flow_at(raw, i, rest, false) {
                    Err(e) => Err(e),
                    Ok((_, next)) => Ok((p, next)),
                }
            } else {
                match string_list(raw, i, rest) {
                    Err(e) => Err(e),
                    Ok((list, next)) => Ok((Progress { lists: p.lists.update(k, list), ..p }, next)),
                }
            },
            None => match skipped(raw, i, rest) {
                Err(e) => Err(e),
                Ok(next) => Ok((p, next)),
            },
        }
    }
}

struct Draft {
    targets: Option<Vec<Target>>,
    serves: Option<bool>,
    scalar: Option<String>,
    lists: Vec<Vec<String>>,
}

impl Draft {
    spec fn model(self) -> Progress {
        Progress {
            targets: match self.targets {
                Some(t) => Some(tbd::targets_view(t@)),
                None => None,
            },
            serves: self.serves,
            scalar: match self.scalar {
                Some(s) => Some(s@),
                None => None,
            },
            lists: entry::lists_view(self.lists@),
        }
    }
}

fn apply_direct_pair(
    raw: &Vec<Vec<char>>,
    i: usize,
    shape: &EntryShape,
    wanted: &Target,
    draft: Draft,
    key: &String,
    rest: &Vec<char>,
) -> (r: Result<(Draft, usize), TbdError>)
    requires
        i < raw@.len(),
        draft.lists@.len() == shape.list_keys@.len(),
    ensures
        match (
            r,
            with_pair(
                chars::rows(raw@),
                i as int,
                shape@,
                wanted@,
                draft.model(),
                key@,
                rest@,
            ),
        ) {
            (Ok((d, next)), Ok((p, at))) => d.model() == p && next == at && i < next <= raw@.len()
                && d.lists@.len() == shape.list_keys@.len(),
            (Err(e), Err(f)) => e@ == f,
            _ => false,
        },
{
    assert(raw.len() == raw@.len());
    if same_text(key.as_str(), "targets") {
        return match parse_direct_targets(raw, i, rest) {
            Ok((t, next)) => {
                let serves = targets_match(&t, wanted);
                Ok((Draft { targets: Some(t), serves: Some(serves), ..draft }, next))
            },
            Err(e) => Err(e),
        };
    }
    let passed = match draft.serves {
        Some(serves) => !serves,
        None => false,
    };
    if let Some(k) = shape.scalar_key {
        if same_text(key.as_str(), k) {
            return if passed {
                Ok((draft, i + 1))
            } else {
                Ok((Draft { scalar: Some(parse_direct_scalar(rest)), ..draft }, i + 1))
            };
        }
    }
    match find_key(&shape.list_keys, key.as_str()) {
        Some(k) => if passed {
            match consume_direct_flow(raw, i, rest, false) {
                Ok((_, next)) => Ok((draft, next)),
                Err(e) => Err(e),
            }
        } else {
            match parse_direct_string_list(raw, i, rest) {
                Ok((list, next)) => {
                    let mut lists = draft.lists;
                    set_list(&mut lists, k, list);
                    Ok(
                        (
                            Draft {
                                targets: draft.targets,
                                serves: draft.serves,
                                scalar: draft.scalar,
                                lists,
                            },
                            next,
                        ),
                    )
                },
                Err(e) => Err(e),
            }
        },
        None => match skip_direct_inline_value(raw, i, rest) {
            Ok(next) => Ok((draft, next)),
            Err(e) => Err(e),
        },
    }
}

/// The first key of an entry, if one starts on line `i`.
pub open spec fn entry_start(raw: Seq<Seq<char>>, i: int) -> Option<
    Result<(Seq<char>, Seq<char>), TbdFault>,
> {
    if !(0 <= i < raw.len()) {
        None
    } else {
        match busy(raw[i]) {
            None => None,
            Some(t) => if is_mark(t) || lines::spaces(raw[i]) == 0 {
                None
            } else if lines::spaces(raw[i]) != 2 || t.first() != '-' {
                Some(Err(TbdFault::Schema("expected scoped TBD entry"@)))
            } else {
                let rest = text::trimmed_start(t.drop_first());
                if rest.len() == 0 {
                    Some(
                        Err(TbdFault::Schema("empty scoped TBD entries are not supported"@)),
                    )
                } else {
                    match key_rest(rest) {
                        Some(pair) => Some(Ok(pair)),
                        None => Some(Err(TbdFault::Schema("expected scoped TBD key"@))),
                    }
                }
            },
        }
    }
}

fn direct_entry_start(raw: &Vec<Vec<char>>, i: usize) -> (r: Option<
    Result<(String, Vec<char>), TbdError>,
>)
    ensures
        match (r, entry_start(chars::rows(raw@), i as int)) {
            (Some(Ok((k, v))), Some(Ok((key, rest)))) => k@ == key && v@ == rest && i < raw@.len(),
            (Some(Err(e)), Some(Err(f))) => e@ == f,
            (None, None) => true,
            _ => false,
        },
{
    if i >= raw.len() {
        return None;
    }
    assert(chars::rows(raw@)[i as int] == raw@[i as int]@);
    let t = match direct_trimmed(&raw[i]) {
        Some(t) => t,
        None => {
            return None;
        },
    };
    let indent: usize = count_spaces(&raw[i]);
    if is_mark_line(&t) || indent == 0 {
        return None;
    }
    if indent != 2 || t[0] != '-' {
        return Some(Err(schema("expected scoped TBD entry")));
    }
    let tail = part(&t, 1, t.len());
    assert(tail@ =~= t@.drop_first());
    let rest = trim_start(&tail);
    if rest.len() == 0 {
        return Some(Err(schema("empty scoped TBD entries are not supported")));
    }
    match direct_key_value(&rest) {
        Some(pair) => Some(Ok(pair)),
        None => Some(Err(schema("expected scoped TBD key"))),
    }
}

/// A further key of an entry, if line `i` holds one.
pub open spec fn nested_pair(raw: Seq<Seq<char>>, i: int) -> Option<(Seq<char>, Seq<char>)> {
    if !(0 <= i < raw.len()) {
        None
    } else {
        match busy(raw[i]) {
            None => None,
            Some(t) => if is_mark(t) || lines::spaces(raw[i]) <= 2 {
                None
            } else {
                key_rest(t)
            },
        }
    }
}

fn direct_nested_pair(raw: &Vec<Vec<char>>, i: usize) -> (r: Option<(String, Vec<char>)>)
    ensures
        match (r, nested_pair(chars::rows(raw@), i as int)) {
            (Some((k, v)), Some((key, rest))) => k@ == key && v@ == rest && i < raw@.len(),
            (None, None) => true,
            _ => false,
        },
{
    if i >= raw.len() {
        return None;
    }
    assert(chars::rows(raw@)[i as int] == raw@[i as int]@);
    let t = match direct_trimmed(&raw[i]) {
        Some(t) => t,
        None => {
            return None;
        },
    };
    if is_mark_line(&t) || count_spaces(&raw[i]) <= 2 {
        return None;
    }
    direct_key_value(&t)
}

/// The next line is further on.
pub open spec fn leads_on(raw: Seq<Seq<char>>, i: int, next: int) -> bool {
    i < next <= raw.len()
}

/// An entry with its further keys, and the line behind it.
pub open spec fn nested_from(
    raw: Seq<Seq<char>>,
    i: int,
    shape: Shape,
    wanted: TargetModel,
    p: Progress,
) -> Result<(Progress, int), TbdFault>
    decreases raw.len() - i,
{
    match nested_pair(raw, i) {
        None => Ok((p, i)),
        Some((key, rest)) => match with_pair(raw, i, shape, wanted, p, key, rest) {
            Err(e) => Err(e),
            Ok((q, next)) => if leads_on(raw, i, next) {
                nested_from(raw, next, shape, wanted, q)
            } else {
                Ok((q, i))
            },
        },
    }
}

/// One entry, and the line behind it.
pub open spec fn entry_at(
    raw: Seq<Seq<char>>,
    i: int,
    shape: Shape,
    wanted: TargetModel,
    key: Seq<char>,
    rest: Seq<char>,
) -> Result<(Progress, int), TbdFault> {
    match with_pair(raw, i, shape, wanted, nothing_yet(shape), key, rest) {
        Err(e) => Err(e),
        Ok((p, next)) => nested_from(raw, next, shape, wanted, p),
    }
}

/// The entries from line `i` on that serve the target, and the line behind them.
pub open spec fn entries_from(
    raw: Seq<Seq<char>>,
    i: int,
    shape: Shape,
    wanted: TargetModel,
    done: Seq<EntryModel>,
) -> Result<(Seq<EntryModel>, int), TbdFault>
    decreases raw.len() - i,
{
    match entry_start(raw, i) {
        None => Ok((done, i)),
        Some(Err(e)) => Err(e),
        Some(Ok((key, rest))) => match entry_at(raw, i, shape, wanted, key, rest) {
            Err(e) => Err(e),
            Ok((p, next)) => if !leads_on(raw, i, next) {
                Ok((done, i))
            } else if p.serves == Some(true) {
                entries_from(
                    raw,
                    next,
                    shape,
                    wanted,
                    done.push(
                        EntryModel {
                            targets: p.targets->0,
                            scalar: match p.scalar {
                                Some(s) => s,
                                None => ""@,
                            },
                            lists: p.lists,
                        },
                    ),
                )
            } else {
                entries_from(raw, next, shape, wanted, done)
            },
        },
    }
}

fn parse_direct_entry(
    raw: &Vec<Vec<char>>,
    i: usize,
    shape: &EntryShape,
    wanted: &Target,
    key: &String,
    rest: &Vec<char>,
) -> (r: Result<(Draft, usize), TbdError>)
    requires
        i < raw@.len(),
    ensures
        match (r, entry_at(chars::rows(raw@), i as int, shape@, wanted@, key@, rest@)) {
            (Ok((d, next)), Ok((p, at))) => d.model() == p && next == at && i < next <= raw@.len()
                && d.lists@.len() == shape.list_keys@.len() && (d.serves is Some ==> d.targets
                is Some),
            (Err(e), Err(f)) => e@ == f,
            _ => false,
        },
{
    let ghost rows = chars::rows(raw@);
    let blank = Draft {
        targets: None,
        serves: None,
        scalar: None,
        lists: empty_lists(shape.list_keys.len()),
    };
    assert(entry::lists_view(blank.lists@).len() == blank.lists@.len());
    assert(blank.model() =~= nothing_yet(shape@));
    let (first, after) = match apply_direct_pair(raw, i, shape, wanted, blank, key, rest) {
        Ok(found) => found,
        Err(e) => {
            return Err(e);
        },
    };
    let mut draft = first;
    let mut at: usize = after;
    loop
        invariant
            i < at <= raw@.len(),
            rows == chars::rows(raw@),
            draft.lists@.len() == shape.list_keys@.len(),
            draft.serves is Some ==> draft.targets is Some,
            entry_at(rows, i as int, shape@, wanted@, key@, rest@) == nested_from(
                rows,
                at as int,
                shape@,
                wanted@,
                draft.model(),
            ),
        ensures
            i < at <= raw@.len(),
            draft.lists@.len() == shape.list_keys@.len(),
            draft.serves is Some ==> draft.targets is Some,
            entry_at(rows, i as int, shape@, wanted@, key@, rest@) == Ok::<
                (Progress, int),
                TbdFault,
            >((draft.model(), at as int)),
        decreases raw@.len() - at,
    {
        match direct_nested_pair(raw, at) {
            None => {
                break;
            },
            Some((k, v)) => {
                let ghost had = draft.model();
                match apply_direct_pair(raw, at, shape, wanted, draft, &k, &v) {
                    Ok((next_draft, next)) => {
                        assert(leads_on(rows, at as int, next as int));
                        assert(next_draft.model().serves is Some
                            ==> next_draft.model().targets is Some);
                        draft = next_draft;
                        at = next;
                    },
                    Err(e) => {
                        return Err(e);
                    },
                }
            },
        }
    }
    Ok((draft, at))
}

fn parse_direct_entries(raw: &Vec<Vec<char>>, from: usize, shape: &EntryShape, wanted: &Target) -> (r:
    Result<(Vec<Entry>, usize), TbdError>)
    requires
        from <= raw@.len(),
    ensures
        match (r, entries_from(chars::rows(raw@), from as int, shape@, wanted@, seq![])) {
            (Ok((v, next)), Ok((m, at))) => entry::entries_view(v@) == m && next == at && from
                <= next <= raw@.len() && entry::have_lists(m, shape.list_keys@.len()),
            (Err(e), Err(f)) => e@ == f,
            _ => false,
        },
{
    let ghost rows = chars::rows(raw@);
    let mut out: Vec<Entry> = Vec::new();
    let mut i: usize = from;
    assert(entry::entries_view(out@) =~= seq![]);
    loop
        invariant
            from <= i <= raw@.len(),
            rows == chars::rows(raw@),
            entry::have_lists(entry::entries_view(out@), shape.list_keys@.len()),
            entries_from(rows, from as int, shape@, wanted@, seq![]) == entries_from(
                rows,
                i as int,
                shape@,
                wanted@,
                entry::entries_view(out@),
            ),
        ensures
            from <= i <= raw@.len(),
            entry::have_lists(entry::entries_view(out@), shape.list_keys@.len()),
            entries_from(rows, from as int, shape@, wanted@, seq![]) == Ok::<
                (Seq<EntryModel>, int),
                TbdFault,
            >((entry::entries_view(out@), i as int)),
        decreases raw@.len() - i,
    {
        match direct_entry_start(raw, i) {
            None => {
                break;
            },
            Some(Err(e)) => {
                return Err(e);
            },
            Some(Ok((key, rest))) => {
                match parse_direct_entry(raw, i, shape, wanted, &key, &rest) {
                    Ok((draft, next)) => {
                        assert(leads_on(rows, i as int, next as int));
                        let serves = match draft.serves {
                            Some(serves) => serves,
                            None => false,
                        };
                        if serves {
                            let targets = match draft.targets {
                                Some(t) => t,
                                None => Vec::new(),
                            };
                            let scalar = match draft.scalar {
                                Some(s) => s,
                                None => "".to_owned(),
                            };
                            push_entry(&mut out, Entry { targets, scalar, lists: draft.lists });
                        }
                        i = next;
                    },
                    Err(e) => {
                        return Err(e);
                    },
                }
            },
        }
    }
    Ok((out, i))
}

/// A stub with what its key on line `i` says, and the line behind that. With
/// `full` false, what the stub exports is passed over.
pub open spec fn with_key(
    raw: Seq<Seq<char>>,
    i: int,
    wanted: TargetModel,
    full: bool,
    t: TbdModel,
    key: Seq<char>,
    rest: Seq<char>,
) -> Result<(TbdModel, int), TbdFault> {
    if key == "tbd-version"@ {
        match tbd::number(plain(rest)) {
            Some(v) => Ok((TbdModel { version: v, ..t }, i + 1)),
            None => Err(
                TbdFault::Schema("tbd-version must parse as a u32: "@ + text::quoted(rest)),
            ),
        }
    } else if key == "targets"@ {
        match target_list(raw, i, rest) {
            Ok((v, next)) => Ok((TbdModel { targets: v, ..t }, next)),
            Err(e) => Err(e),
        }
    } else if key == "install-name"@ {
        Ok((TbdModel { install_name: plain(rest), ..t }, i + 1))
    } else if key == "current-version"@ {
        match tbd::version_of(plain(rest), key) {
            Ok(v) => Ok((TbdModel { current_version: Some(v), ..t }, i + 1)),
            Err(e) => Err(e),
        }
    } else if key == "compatibility-version"@ {
        match tbd::version_of(plain(rest), key) {
            Ok(v) => Ok((TbdModel { compatibility_version: Some(v), ..t }, i + 1)),
            Err(e) => Err(e),
        }
    } else if key == "parent-umbrella"@ {
        match entries_from(raw, i + 1, entry::umbrella_shape(), wanted, seq![]) {
            Ok((v, next)) => Ok((TbdModel { parent_umbrella: entry::scalars_of(v), ..t }, next)),
            Err(e) => Err(e),
        }
    } else if key == "allowable-clients"@ {
        match entries_from(raw, i + 1, entry::list_shape("clients"@), wanted, seq![]) {
            Ok((v, next)) => Ok((TbdModel { allowable_clients: entry::texts_of(v), ..t }, next)),
            Err(e) => Err(e),
        }
    } else if key == "reexported-libraries"@ && full {
        match entries_from(raw, i + 1, entry::list_shape("libraries"@), wanted, seq![]) {
            Ok((v, next)) => Ok((TbdModel { reexported_libraries: entry::texts_of(v), ..t }, next)),
            Err(e) => Err(e),
        }
    } else if key == "exports"@ && full {
        match entries_from(raw, i + 1, entry::symbols_shape(), wanted, seq![]) {
            Ok((v, next)) => Ok((TbdModel { exports: entry::symbols_of(v), ..t }, next)),
            Err(e) => Err(e),
        }
    } else if key == "reexports"@ && full {
        match entries_from(raw, i + 1, entry::symbols_shape(), wanted, seq![]) {
            Ok((v, next)) => Ok((TbdModel { reexports: entry::symbols_of(v), ..t }, next)),
            Err(e) => Err(e),
        }
    } else {
        Ok((t, block_end(raw, i + 1)))
    }
}

/// A result of a step on line `i`: same stub, same next line, same fault.
spec fn same_step(
    r: Result<(Tbd, usize), TbdError>,
    s: Result<(TbdModel, int), TbdFault>,
    i: usize,
    count: nat,
) -> bool {
    match (r, s) {
        (Ok((t, next)), Ok((m, at))) => t@ == m && next == at && i < next <= count,
        (Err(e), Err(f)) => e@ == f,
        _ => false,
    }
}

fn apply_direct_scalar(
    raw: &Vec<Vec<char>>,
    i: usize,
    wanted: &Target,
    full: bool,
    tbd: Tbd,
    key: &String,
    rest: &Vec<char>,
) -> (r: Result<(Tbd, usize), TbdError>)
    requires
        i < raw@.len(),
        key@ == "tbd-version"@ || key@ == "targets"@ || key@ == "install-name"@ || key@
            == "current-version"@ || key@ == "compatibility-version"@,
    ensures
        same_step(
            r,
            with_key(chars::rows(raw@), i as int, wanted@, full, tbd@, key@, rest@),
            i,
            raw@.len(),
        ),
{
    assert(raw.len() == raw@.len());
    if same_text(key.as_str(), "tbd-version") {
        match parse_number(parse_direct_scalar(rest).as_str()) {
            Some(version) => Ok((Tbd { version, ..tbd }, i + 1)),
            None => {
                let mut msg = "tbd-version must parse as a u32: ".to_owned();
                msg.append(quote(string_of(rest).as_str()).as_str());
                Err(TbdError::Schema { msg })
            },
        }
    } else if same_text(key.as_str(), "targets") {
        match parse_direct_targets(raw, i, rest) {
            Ok((targets, next)) => Ok((Tbd { targets, ..tbd }, next)),
            Err(e) => Err(e),
        }
    } else if same_text(key.as_str(), "install-name") {
        Ok((Tbd { install_name: parse_direct_scalar(rest), ..tbd }, i + 1))
    } else if same_text(key.as_str(), "current-version") {
        match parse_version_field(parse_direct_scalar(rest).as_str(), "current-version") {
            Ok(v) => Ok((Tbd { current_version: Some(v), ..tbd }, i + 1)),
            Err(e) => Err(e),
        }
    } else {
        match parse_version_field(parse_direct_scalar(rest).as_str(), "compatibility-version") {
            Ok(v) => Ok((Tbd { compatibility_version: Some(v), ..tbd }, i + 1)),
            Err(e) => Err(e),
        }
    }
}

fn apply_direct_key(
    raw: &Vec<Vec<char>>,
    i: usize,
    wanted: &Target,
    full: bool,
    tbd: Tbd,
    key: &String,
    rest: &Vec<char>,
) -> (r: Result<(Tbd, usize), TbdError>)
    requires
        i < raw@.len(),
    ensures
        same_step(
            r,
            with_key(chars::rows(raw@), i as int, wanted@, full, tbd@, key@, rest@),
            i,
            raw@.len(),
        ),
{
    assert(raw.len() == raw@.len());
    let k = key.as_str();
    if same_text(k, "tbd-version") || same_text(k, "targets") || same_text(k, "install-name")
        || same_text(k, "current-version") || same_text(k, "compatibility-version") {
        apply_direct_scalar(raw, i, wanted, full, tbd, key, rest)
    } else if same_text(k, "parent-umbrella") {
        match parse_direct_entries(raw, i + 1, &make_umbrella_shape(), wanted) {
            Ok((v, next)) => Ok((Tbd { parent_umbrella: into_scalars(v), ..tbd }, next)),
            Err(e) => Err(e),
        }
    } else if same_text(k, "allowable-clients") {
        let shape = make_list_shape("clients");
        assert(shape.list_keys@.len() == shape@.list_keys.len());
        match parse_direct_entries(raw, i + 1, &shape, wanted) {
            Ok((v, next)) => Ok((Tbd { allowable_clients: into_texts(v), ..tbd }, next)),
            Err(e) => Err(e),
        }
    } else if full && same_text(k, "reexported-libraries") {
        let shape = make_list_shape("libraries");
        assert(shape.list_keys@.len() == shape@.list_keys.len());
        match parse_direct_entries(raw, i + 1, &shape, wanted) {
            Ok((v, next)) => Ok((Tbd { reexported_libraries: into_texts(v), ..tbd }, next)),
            Err(e) => Err(e),
        }
    } else if full && same_text(k, "exports") {
        let shape = make_symbols_shape();
        assert(shape.list_keys@.len() == shape@.list_keys.len());
        match parse_direct_entries(raw, i + 1, &shape, wanted) {
            Ok((v, next)) => Ok((Tbd { exports: into_symbols(v), ..tbd }, next)),
            Err(e) => Err(e),
        }
    } else if full && same_text(k, "reexports") {
        let shape = make_symbols_shape();
        assert(shape.list_keys@.len() == shape@.list_keys.len());
        match parse_direct_entries(raw, i + 1, &shape, wanted) {
            Ok((v, next)) => Ok((Tbd { reexports: into_symbols(v), ..tbd }, next)),
            Err(e) => Err(e),
        }
    } else {
        Ok((tbd, skip_direct_value(raw, i + 1)))
    }
}

/// A stub, and the line behind it. It may be empty; otherwise it has a name and a
/// target.
pub open spec fn document_from(
    raw: Seq<Seq<char>>,
    i: int,
    wanted: TargetModel,
    full: bool,
    t: TbdModel,
) -> Result<(TbdModel, int), TbdFault>
    decreases raw.len() - i,
{
    if i >= raw.len() || busy(raw[i]) is Some && is_mark(busy(raw[i])->0) {
        if t.install_name.len() == 0 && t.targets.len() == 0 {
            Ok((t, i))
        } else {
            match decode::complete(t) {
                Ok(t) => Ok((t, i)),
                Err(e) => Err(e),
            }
        }
    } else {
        match busy(raw[i]) {
            None => document_from(raw, i + 1, wanted, full, t),
            Some(line) => if lines::spaces(raw[i]) != 0 {
                Err(TbdFault::Schema("unexpected nested TBD line at document root"@))
            } else {
                match key_rest(line) {
                    None => Err(TbdFault::Schema("expected top-level TBD key"@)),
                    Some((key, rest)) => match with_key(raw, i, wanted, full, t, key, rest) {
                        Err(e) => Err(e),
                        Ok((u, next)) => if leads_on(raw, i, next) {
                            document_from(raw, next, wanted, full, u)
                        } else {
                            Ok((u, i))
                        },
                    },
                }
            },
        }
    }
}

fn finish_document(tbd: Tbd) -> (r: Result<Tbd, TbdError>)
    ensures
        match (
            r,
            if tbd@.install_name.len() == 0 && tbd@.targets.len() == 0 {
                Ok(tbd@)
            } else {
                decode::complete(tbd@)
            },
        ) {
            (Ok(t), Ok(m)) => t@ == m,
            (Err(e), Err(f)) => e@ == f,
            _ => false,
        },
{
    proof {
        reveal_strlit("");
        assert(tbd.install_name@.len() == 0 ==> tbd.install_name@ =~= ""@);
    }
    if same_text(tbd.install_name.as_str(), "") && tbd.targets.len() == 0 {
        Ok(tbd)
    } else {
        check_complete(tbd)
    }
}

fn parse_direct_document(raw: &Vec<Vec<char>>, from: usize, wanted: &Target, full: bool) -> (r:
    Result<(Tbd, usize), TbdError>)
    requires
        from <= raw@.len(),
    ensures
        match (
            r,
            document_from(chars::rows(raw@), from as int, wanted@, full, TbdModel::blank()),
        ) {
            (Ok((t, next)), Ok((m, at))) => t@ == m && next == at && from <= next <= raw@.len() && (
            from < raw@.len() && !(busy(raw@[from as int]@) is Some && is_mark(
                busy(raw@[from as int]@)->0,
            )) ==> from < next),
            (Err(e), Err(f)) => e@ == f,
            _ => false,
        },
{
    let ghost rows = chars::rows(raw@);
    let mut tbd = Tbd::default();
    let mut i: usize = from;
    let mut marked = false;
    while i < raw.len() && !marked
        invariant
            from <= i <= raw@.len(),
            rows == chars::rows(raw@),
            marked ==> i < raw@.len() && busy(rows[i as int]) is Some && is_mark(
                busy(rows[i as int])->0,
            ),
            document_from(rows, from as int, wanted@, full, TbdModel::blank()) == document_from(
                rows,
                i as int,
                wanted@,
                full,
                tbd@,
            ),
        decreases raw@.len() - i + (if marked {
            0int
        } else {
            1
        }),
    {
        assert(rows[i as int] == raw@[i as int]@);
        match direct_trimmed(&raw[i]) {
            None => {
                i += 1;
            },
            Some(line) => {
                if is_mark_line(&line) {
                    marked = true;
                } else {
                    if count_spaces(&raw[i]) != 0 {
                        return Err(schema("unexpected nested TBD line at document root"));
                    }
                    let (key, rest) = match direct_key_value(&line) {
                        Some(pair) => pair,
                        None => {
                            return Err(schema("expected top-level TBD key"));
                        },
                    };
                    match apply_direct_key(raw, i, wanted, full, tbd, &key, &rest) {
                        Ok((next_tbd, next)) => {
                            assert(leads_on(rows, i as int, next as int));
                            tbd = next_tbd;
                            i = next;
                        },
                        Err(e) => {
                            return Err(e);
                        },
                    }
                }
            },
        }
    }
    assert(from < raw@.len() ==> rows[from as int] == raw@[from as int]@);
    match finish_document(tbd) {
        Ok(t) => Ok((t, i)),
        Err(e) => Err(e),
    }
}

/// The stubs from line `i` on that serve the target.
pub open spec fn stubs_from(
    raw: Seq<Seq<char>>,
    i: int,
    wanted: TargetModel,
    full: bool,
    done: Seq<TbdModel>,
) -> Result<Seq<TbdModel>, TbdFault>
    decreases raw.len() - i,
{
    if i >= raw.len() {
        Ok(done)
    } else {
        match busy(raw[i]) {
            None => stubs_from(raw, i + 1, wanted, full, done),
            Some(t) => if chars::prefixed(t, "%YAML"@) || chars::prefixed(t, "..."@) {
                stubs_from(raw, i + 1, wanted, full, done)
            } else {
                let start = if chars::prefixed(t, "---"@) {
                    i + 1
                } else {
                    i
                };
                match document_from(raw, start, wanted, full, TbdModel::blank()) {
                    Err(e) => Err(e),
                    Ok((doc, next)) => if !leads_on(raw, i, next) {
                        Ok(done)
                    } else if tbd::any_serves(doc.targets, wanted) {
                        stubs_from(raw, next, wanted, full, done.push(doc))
                    } else {
                        stubs_from(raw, next, wanted, full, done)
                    },
                }
            },
        }
    }
}

/// The stubs of a text of the usual form that serve the target.
pub open spec fn direct_stubs(input: Seq<char>, wanted: TargetModel, full: bool) -> Result<
    Seq<TbdModel>,
    TbdFault,
> {
    stubs_from(text::split(input, '\n'), 0, wanted, full, seq![])
}

pub fn parse_tbd_for_target_direct(input: &str, target: &Target, include_exports: bool) -> (r:
    Result<Vec<Tbd>, TbdError>)
    ensures
        tbd::same_docs(r, direct_stubs(input@, target@, include_exports)),
{
    let raw = split_on(&chars_of(input), '\n');
    let ghost rows = chars::rows(raw@);
    let mut out: Vec<Tbd> = Vec::new();
    let mut i: usize = 0;
    assert(tbd::docs_view(out@) =~= seq![]);
    while i < raw.len()
        invariant
            i <= raw@.len(),
            rows == chars::rows(raw@),
            direct_stubs(input@, target@, include_exports) == stubs_from(
                rows,
                i as int,
                target@,
                include_exports,
                tbd::docs_view(out@),
            ),
        decreases raw@.len() - i,
    {
        assert(rows[i as int] == raw@[i as int]@);
        match direct_trimmed(&raw[i]) {
            None => {
                i += 1;
            },
            Some(t) => {
                if starts_with(&t, "%YAML") || starts_with(&t, "...") {
                    i += 1;
                } else {
                    let start: usize = if starts_with(&t, "---") {
                        i + 1
                    } else {
                        i
                    };
                    match parse_direct_document(&raw, start, target, include_exports) {
                        Ok((doc, next)) => {
                            assert(leads_on(rows, i as int, next as int));
                            if targets_match(&doc.targets, target) {
                                push_doc(&mut out, doc);
                            }
                            i = next;
                        },
                        Err(e) => {
                            return Err(e);
                        },
                    }
                }
            },
        }
    }
    Ok(out)
}

/// The stubs of a text that serve the target, with only what serves it. A text
/// that is not of the usual form is parsed the long way.
pub open spec fn stubs_for(input: Seq<char>, wanted: TargetModel) -> Result<
    Seq<TbdModel>,
    TbdFault,
> {
    match direct_stubs(input, wanted, true) {
        Ok(docs) => Ok(docs),
        Err(_) => match decode::stubs(input) {
            Ok(docs) => Ok(tbd::narrowed_docs(docs, wanted)),
            Err(e) => Err(e),
        },
    }
}

/// Parses the stubs of a text that serve the target.
pub fn parse_tbd_for_target(input: &str, target: &Target) -> (r: Result<Vec<Tbd>, TbdError>)
    ensures
        tbd::same_docs(r, stubs_for(input@, target@)),
{
    match parse_tbd_for_target_direct(input, target, true) {
        Ok(docs) => Ok(docs),
        Err(_) => match parse_tbd(input) {
            Ok(docs) => Ok(filter_docs_for_target(docs, target)),
            Err(e) => Err(e),
        },
    }
}

/// The same without what the stubs export.
pub open spec fn metadata_for(input: Seq<char>, wanted: TargetModel) -> Result<
    Seq<TbdModel>,
    TbdFault,
> {
    match direct_stubs(input, wanted, false) {
        Ok(docs) => Ok(docs),
        Err(_) => match decode::stubs(input) {
            Ok(docs) => Ok(tbd::without_exports(tbd::narrowed_docs(docs, wanted))),
            Err(e) => Err(e),
        },
    }
}

/// Parses the stubs of a text that serve the target, without what they export.
pub fn parse_tbd_metadata_for_target(input: &str, target: &Target) -> (r: Result<
    Vec<Tbd>,
    TbdError,
>)
    ensures
        tbd::same_docs(r, metadata_for(input@, target@)),
{
    match parse_tbd_for_target_direct(input, target, false) {
        Ok(docs) => Ok(docs),
        Err(_) => match parse_tbd(input) {
            Ok(docs) => Ok(filter_docs_for_target_metadata(docs, target)),
            Err(e) => Err(e),
        },
    }
}

} // verus!
