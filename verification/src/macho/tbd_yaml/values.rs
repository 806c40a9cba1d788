//! Values on one line: scalars, with or without quotes, and lists in brackets.

use vstd::prelude::*;
use crate::chars;
use crate::chars::{part, trim};
use crate::macho::tbd_yaml;
use crate::macho::tbd_yaml::scan;
use crate::macho::tbd_yaml::scan::{Open, Scan};
use crate::macho::tbd_yaml::{Node, Value, YamlError, YamlFault};
use crate::text;
use crate::text::string_of;

verus! {

/// What stands between single quotes, from `i` on. Two single quotes stand for one.
pub open spec fn single_from(s: Seq<char>, i: int, done: Seq<char>) -> Option<Seq<char>>
    decreases s.len() - i,
{
    if i >= s.len() {
        Some(done)
    } else if s[i] != '\'' {
        single_from(s, i + 1, done.push(s[i]))
    } else if i + 1 < s.len() && s[i + 1] == '\'' {
        single_from(s, i + 2, done.push('\''))
    } else {
        None
    }
}

/// The character that an escaped one stands for.
pub open spec fn unescaped(c: char) -> char {
    if c == 'n' {
        '\n'
    } else if c == 't' {
        '\t'
    } else if c == 'r' {
        '\r'
    } else if c == '0' {
        '\0'
    } else {
        c
    }
}

/// What stands between double quotes, from `i` on.
pub open spec fn double_from(s: Seq<char>, i: int, done: Seq<char>) -> Result<Seq<char>, Seq<char>>
    decreases s.len() - i,
{
    if i >= s.len() {
        Ok(done)
    } else if s[i] == '\\' {
        if i + 1 < s.len() {
            double_from(s, i + 2, done.push(unescaped(s[i + 1])))
        } else {
            Err("trailing backslash in double-quoted scalar"@)
        }
    } else if s[i] == '"' {
        Err("unescaped \" inside double-quoted scalar"@)
    } else {
        double_from(s, i + 1, done.push(s[i]))
    }
}

/// `s` stands between two `mark`s.
pub open spec fn enclosed(s: Seq<char>, open: char, close: char) -> bool {
    s.len() >= 2 && s.first() == open && s.last() == close
}

pub open spec fn inner(s: Seq<char>) -> Seq<char> {
    s.subrange(1, s.len() - 1)
}

pub open spec fn fault(line: usize, col: usize, msg: Seq<char>) -> YamlFault {
    YamlFault { line, col, msg }
}

pub open spec fn single_quoted(s: Seq<char>, line: usize, col: usize) -> Result<
    Seq<char>,
    YamlFault,
> {
    if !enclosed(s, '\'', '\'') {
        Err(fault(line, col, "single-quoted scalar must begin and end with '"@))
    } else {
        match single_from(inner(s), 0, seq![]) {
            Some(t) => Ok(t),
            None => Err(fault(line, col, "unescaped ' inside single-quoted scalar"@)),
        }
    }
}

pub open spec fn double_quoted(s: Seq<char>, line: usize, col: usize) -> Result<
    Seq<char>,
    YamlFault,
> {
    if !enclosed(s, '"', '"') {
        Err(fault(line, col, "double-quoted scalar must begin and end with \""@))
    } else {
        match double_from(inner(s), 0, seq![]) {
            Ok(t) => Ok(t),
            Err(msg) => Err(fault(line, col, msg)),
        }
    }
}

/// The mark of an anchor, an alias, or a literal or folded block.
pub open spec fn foreign(c: char) -> bool {
    c == '&' || c == '*' || c == '|' || c == '>'
}

/// The value of a text.
pub open spec fn inline_value(s: Seq<char>, line: usize, col: usize) -> Result<Node, YamlFault>
    decreases s.len(), 0int,
    via inline_shrinks
{
    let t = text::trimmed(s);
    if t.len() == 0 {
        Ok(Node::Null)
    } else if t.first() == '[' {
        if !enclosed(t, '[', ']') {
            Err(fault(line, col, "flow sequence must be bracketed by '[' and ']'"@))
        } else {
            match flow_from(inner(t), 0, 0, scan::nothing_open(), seq![], line, col) {
                Ok(items) => Ok(Node::Sequence(items)),
                Err(e) => Err(e),
            }
        }
    } else if t.first() == '{' {
        Err(fault(line, col, "flow mappings are not part of the TBD subset"@))
    } else if t.first() == '\'' {
        match single_quoted(t, line, col) {
            Ok(x) => Ok(Node::Scalar(x)),
            Err(e) => Err(e),
        }
    } else if t.first() == '"' {
        match double_quoted(t, line, col) {
            Ok(x) => Ok(Node::Scalar(x)),
            Err(e) => Err(e),
        }
    } else if foreign(t.first()) {
        Err(fault(line, col, "anchors, aliases and block scalars are not part of the TBD subset"@))
    } else {
        Ok(Node::Scalar(t))
    }
}

#[via_fn]
proof fn inline_shrinks(s: Seq<char>, line: usize, col: usize) {
    chars::lemma_trimmed_len(s);
}

/// The values of a list, parted by the commas outside quotes and brackets. The
/// item under way starts at `start`; items that are blank do not count.
pub open spec fn flow_from(
    s: Seq<char>,
    start: int,
    i: int,
    q: Open,
    done: Seq<Node>,
    line: usize,
    col: usize,
) -> Result<Seq<Node>, YamlFault>
    decreases s.len() + 1, s.len() - i,
    when 0 <= start <= s.len() && 0 <= i
    via flow_shrinks
{
    if i >= s.len() {
        let item = text::trimmed(s.subrange(start, s.len() as int));
        if item.len() == 0 {
            Ok(done)
        } else {
            match inline_value(item, line, col) {
                Ok(v) => Ok(done.push(v)),
                Err(e) => Err(e),
            }
        }
    } else if q.escapes(s, i) {
        flow_from(s, start, i + 2, q, done, line, col)
    } else if s[i] == ',' && !q.quoted() && q.depth == 0 && start <= i {
        let item = text::trimmed(s.subrange(start, i));
        if item.len() == 0 {
            flow_from(s, i + 1, i + 1, q.past(s[i]), done, line, col)
        } else {
            match inline_value(item, line, col) {
                Ok(v) => flow_from(s, i + 1, i + 1, q.past(s[i]), done.push(v), line, col),
                Err(e) => Err(e),
            }
        }
    } else {
        flow_from(s, start, i + 1, q.past(s[i]), done, line, col)
    }
}

#[via_fn]
proof fn flow_shrinks(
    s: Seq<char>,
    start: int,
    i: int,
    q: Open,
    done: Seq<Node>,
    line: usize,
    col: usize,
) {
    chars::lemma_trimmed_len(s.subrange(start, s.len() as int));
    if start <= i <= s.len() {
        chars::lemma_trimmed_len(s.subrange(start, i));
    }
}

fn make_error(line: usize, col: usize, msg: &str) -> (r: YamlError)
    ensures
        r@ == fault(line, col, msg@),
{
    YamlError { line, col, msg: msg.to_owned() }
}

fn is_enclosed(s: &Vec<char>, open: char, close: char) -> (r: bool)
    ensures
        r == enclosed(s@, open, close),
{
    s.len() >= 2 && s[0] == open && s[s.len() - 1] == close
}

pub fn parse_single_quoted(s: &Vec<char>, line: usize, col: usize) -> (r: Result<
    String,
    YamlError,
>)
    ensures
        tbd_yaml::same_text_result(r, single_quoted(s@, line, col)),
{
    if !is_enclosed(s, '\'', '\'') {
        return Err(make_error(line, col, "single-quoted scalar must begin and end with '"));
    }
    let text = part(s, 1, s.len() - 1);
    let mut out: Vec<char> = Vec::new();
    let mut i: usize = 0;
    assert(out@ =~= seq![]);
    while i < text.len()
        invariant
            i <= text@.len(),
            text@ == inner(s@),
            enclosed(s@, '\'', '\''),
            single_from(inner(s@), 0, seq![]) == single_from(text@, i as int, out@),
        decreases text@.len() - i,
    {
        if text[i] != '\'' {
            out.push(text[i]);
            i += 1;
        } else if i + 1 < text.len() && text[i + 1] == '\'' {
            out.push('\'');
            i += 2;
        } else {
            return Err(make_error(line, col, "unescaped ' inside single-quoted scalar"));
        }
    }
    Ok(string_of(&out))
}

pub fn parse_double_quoted(s: &Vec<char>, line: usize, col: usize) -> (r: Result<
    String,
    YamlError,
>)
    ensures
        tbd_yaml::same_text_result(r, double_quoted(s@, line, col)),
{
    if !is_enclosed(s, '"', '"') {
        return Err(make_error(line, col, "double-quoted scalar must begin and end with \""));
    }
    let text = part(s, 1, s.len() - 1);
    let mut out: Vec<char> = Vec::new();
    let mut i: usize = 0;
    assert(out@ =~= seq![]);
    while i < text.len()
        invariant
            i <= text@.len(),
            text@ == inner(s@),
            enclosed(s@, '"', '"'),
            double_from(inner(s@), 0, seq![]) == double_from(text@, i as int, out@),
        decreases text@.len() - i,
    {
        let c: char = text[i];
        if c == '\\' {
            if i + 1 >= text.len() {
                return Err(make_error(line, col, "trailing backslash in double-quoted scalar"));
            }
            out.push(
                match text[i + 1] {
                    'n' => '\n',
                    't' => '\t',
                    'r' => '\r',
                    '0' => '\0',
                    other => other,
                },
            );
            i += 2;
        } else if c == '"' {
            return Err(make_error(line, col, "unescaped \" inside double-quoted scalar"));
        } else {
            out.push(c);
            i += 1;
        }
    }
    Ok(string_of(&out))
}

pub fn parse_inline_value(s: &Vec<char>, line: usize, col: usize) -> (r: Result<Value, YamlError>)
    ensures
        tbd_yaml::same_value(r, inline_value(s@, line, col)),
    decreases s@.len(), 0int,
{
    proof {
        chars::lemma_trimmed_len(s@);
    }
    let t = trim(s);
    if t.len() == 0 {
        return Ok(Value::Null);
    }
    match t[0] {
        '[' => parse_flow_sequence(&t, line, col),
        '{' => Err(make_error(line, col, "flow mappings are not part of the TBD subset")),
        '\'' => match parse_single_quoted(&t, line, col) {
            Ok(x) => Ok(Value::Scalar(x)),
            Err(e) => Err(e),
        },
        '"' => match parse_double_quoted(&t, line, col) {
            Ok(x) => Ok(Value::Scalar(x)),
            Err(e) => Err(e),
        },
        '&' | '*' | '|' | '>' => Err(
            make_error(
                line,
                col,
                "anchors, aliases and block scalars are not part of the TBD subset",
            ),
        ),
        _ => Ok(Value::Scalar(string_of(&t))),
    }
}

fn parse_flow_sequence(t: &Vec<char>, line: usize, col: usize) -> (r: Result<Value, YamlError>)
    ensures
        tbd_yaml::same_value(
            r,
            if !enclosed(t@, '[', ']') {
                Err(fault(line, col, "flow sequence must be bracketed by '[' and ']'"@))
            } else {
                match flow_from(inner(t@), 0, 0, scan::nothing_open(), seq![], line, col) {
                    Ok(items) => Ok(Node::Sequence(items)),
                    Err(e) => Err(e),
                }
            },
        ),
    decreases t@.len() - 1, 0int,
{
    if !is_enclosed(t, '[', ']') {
        return Err(make_error(line, col, "flow sequence must be bracketed by '[' and ']'"));
    }
    let s = part(t, 1, t.len() - 1);
    let mut out: Vec<Value> = Vec::new();
    let mut scan = Scan::new();
    let mut start: usize = 0;
    let mut i: usize = 0;
    assert(tbd_yaml::nodes(out@) =~= seq![]);
    while i < s.len()
        invariant
            start <= i <= s@.len(),
            s@.len() + 2 == t@.len(),
            enclosed(t@, '[', ']'),
            s@ == inner(t@),
            -(i as int) <= scan@.depth <= i,
            flow_from(s@, 0, 0, scan::nothing_open(), seq![], line, col) == flow_from(
                s@,
                start as int,
                i as int,
                scan@,
                tbd_yaml::nodes(out@),
                line,
                col,
            ),
        decreases s@.len() - i,
    {
        if s[i] == '\\' && scan.in_double() && i + 1 < s.len() {
            i += 2;
        } else {
            if s[i] == ',' && !scan.quoted() && scan.level() {
                let raw = part(&s, start, i);
                proof {
                    chars::lemma_trimmed_len(raw@);
                }
                let item = trim(&raw);
                if item.len() > 0 {
                    match parse_inline_value(&item, line, col) {
                        Ok(v) => tbd_yaml::push_value(&mut out, v),
                        Err(e) => {
                            return Err(e);
                        },
                    }
                }
                start = i + 1;
            }
            scan.advance(s[i]);
            i += 1;
        }
    }
    let raw = part(&s, start, i);
    proof {
        chars::lemma_trimmed_len(raw@);
    }
    let item = trim(&raw);
    if item.len() > 0 {
        match parse_inline_value(&item, line, col) {
            Ok(v) => tbd_yaml::push_value(&mut out, v),
            Err(e) => {
                return Err(e);
            },
        }
    }
    proof {
        tbd_yaml::lemma_sequence(out);
    }
    Ok(Value::Sequence(out))
}

} // verus!
