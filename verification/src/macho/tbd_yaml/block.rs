//! Mappings and sequences by indentation.

use vstd::prelude::*;
use crate::chars;
use crate::chars::{is_text, part, starts_with, strip_prefix, trim, trim_start};
use crate::macho::tbd_yaml;
use crate::macho::tbd_yaml::values;
use crate::macho::tbd_yaml::values::parse_inline_value;
use crate::macho::tbd_yaml::lines;
use crate::macho::tbd_yaml::lines::{Line, LogicalLine};
use crate::macho::tbd_yaml::scan;
use crate::macho::tbd_yaml::scan::find_top_level_mapping_colon;
use crate::macho::tbd_yaml::{push_pair, push_value, Node, Value, YamlError, YamlFault};
use crate::text;
use crate::text::{dec_string, string_of};

verus! {

/// The line is an item of a sequence.
pub open spec fn is_item(content: Seq<char>) -> bool {
    chars::prefixed(content, "- "@) || content == "-"@
}

/// A key, and what stands behind its colon.
pub open spec fn key_value(content: Seq<char>, line_no: usize, col: usize) -> Result<
    (Seq<char>, Seq<char>),
    YamlFault,
> {
    match scan::colon_from(content, 0, scan::nothing_open()) {
        None => Err(
            YamlFault {
                line: line_no,
                col: col.wrapping_add(1),
                msg: "expected 'key: value' at block-mapping indent"@,
            },
        ),
        Some(at) => Ok(
            (text::trimmed(content.take(at)), text::trimmed_start(content.skip(at + 1))),
        ),
    }
}

/// Where the value of a key starts, as an error gives it.
pub open spec fn value_col(indent: usize, key: Seq<char>) -> usize {
    indent.wrapping_add(text::utf8(key).len() as usize).wrapping_add(2)
}

/// A value and the line behind it.
pub type Parsed = Result<(Node, int), YamlFault>;

/// The value of a key: on its line, or a block further in, or nothing.
pub open spec fn child(
    lines: Seq<Line>,
    cursor: int,
    indent: usize,
    rest: Seq<char>,
    line_no: usize,
    col: usize,
) -> Parsed
    decreases lines.len() - cursor, 4int,
{
    if rest.len() == 0 {
        if 0 <= cursor < lines.len() && lines[cursor].indent > indent {
            block(lines, cursor, lines[cursor].indent)
        } else {
            Ok((Node::Null, cursor))
        }
    } else {
        match values::inline_value(rest, line_no, col) {
            Ok(v) => Ok((v, cursor)),
            Err(e) => Err(e),
        }
    }
}

/// The block that starts at a line.
pub open spec fn block(lines: Seq<Line>, cursor: int, indent: usize) -> Parsed
    decreases lines.len() - cursor, 3int,
{
    if cursor >= lines.len() || cursor < 0 || lines[cursor].indent < indent {
        Ok((Node::Null, cursor))
    } else if is_item(lines[cursor].content) {
        sequence_from(lines, cursor, lines[cursor].indent, seq![])
    } else {
        mapping_from(lines, cursor, lines[cursor].indent, seq![])
    }
}

/// What follows a value: the rest, from the line behind it. A value ends behind
/// the line that it starts on, so every step leads on.
pub open spec fn leads_on(lines: Seq<Line>, cursor: int, next: int) -> bool {
    cursor < next <= lines.len()
}

pub open spec fn indentation_message(got: usize, expected: usize) -> Seq<char> {
    "unexpected indentation "@ + text::dec(got as nat) + " when mapping expected "@ + text::dec(
        expected as nat,
    )
}

/// A mapping, from a line on.
pub open spec fn mapping_from(
    lines: Seq<Line>,
    cursor: int,
    indent: usize,
    done: Seq<(Seq<char>, Node)>,
) -> Parsed
    decreases lines.len() - cursor, 2int,
{
    if cursor >= lines.len() || cursor < 0 || lines[cursor].indent < indent {
        Ok((Node::Mapping(done), cursor))
    } else {
        let line = lines[cursor];
        if line.indent > indent {
            Err(
                YamlFault {
                    line: line.line_no,
                    col: line.indent.wrapping_add(1),
                    msg: indentation_message(line.indent, indent),
                },
            )
        } else if is_item(line.content) {
            Ok((Node::Mapping(done), cursor))
        } else {
            match key_value(line.content, line.line_no, line.indent) {
                Err(e) => Err(e),
                Ok((key, rest)) => match child(
                    lines,
                    cursor + 1,
                    indent,
                    rest,
                    line.line_no,
                    value_col(indent, key),
                ) {
                    Err(e) => Err(e),
                    Ok((v, next)) => if leads_on(lines, cursor, next) {
                        mapping_from(lines, next, indent, done.push((key, v)))
                    } else {
                        Ok((Node::Mapping(done), cursor))
                    },
                },
            }
        }
    }
}

/// The further keys of a mapping that is an item of a sequence.
pub open spec fn pairs_from(
    lines: Seq<Line>,
    cursor: int,
    indent: usize,
    done: Seq<(Seq<char>, Node)>,
) -> Parsed
    decreases lines.len() - cursor, 2int,
{
    if cursor >= lines.len() || cursor < 0 || lines[cursor].indent != indent || is_item(
        lines[cursor].content,
    ) {
        Ok((Node::Mapping(done), cursor))
    } else {
        let line = lines[cursor];
        match key_value(line.content, line.line_no, line.indent) {
            Err(e) => Err(e),
            Ok((key, rest)) => match child(
                lines,
                cursor + 1,
                indent,
                rest,
                line.line_no,
                value_col(indent, key),
            ) {
                Err(e) => Err(e),
                Ok((v, next)) => if leads_on(lines, cursor, next) {
                    pairs_from(lines, next, indent, done.push((key, v)))
                } else {
                    Ok((Node::Mapping(done), cursor))
                },
            },
        }
    }
}

/// One item of a sequence. `after` is what stands behind its mark.
pub open spec fn item(lines: Seq<Line>, cursor: int, indent: usize, after: Seq<char>) -> Parsed
    decreases lines.len() - cursor, 1int,
{
    let line = lines[cursor];
    let inner = indent.wrapping_add(2);
    if cursor >= lines.len() || cursor < 0 {
        Ok((Node::Null, cursor))
    } else if after.len() == 0 {
        child(lines, cursor + 1, indent, after, line.line_no, inner)
    } else {
        match scan::colon_from(after, 0, scan::nothing_open()) {
            None => match values::inline_value(after, line.line_no, inner) {
                Ok(v) => Ok((v, cursor + 1)),
                Err(e) => Err(e),
            },
            Some(at) => {
                let key = text::trimmed(after.take(at));
                let rest = text::trimmed_start(after.skip(at + 1));
                match child(lines, cursor + 1, inner, rest, line.line_no, value_col(inner, key)) {
                    Err(e) => Err(e),
                    Ok((v, next)) => if leads_on(lines, cursor, next) {
                        pairs_from(lines, next, inner, seq![(key, v)])
                    } else {
                        Ok((v, cursor))
                    },
                }
            },
        }
    }
}

/// A sequence, from a line on.
pub open spec fn sequence_from(lines: Seq<Line>, cursor: int, indent: usize, done: Seq<Node>) -> Parsed
    decreases lines.len() - cursor, 2int,
{
    if cursor >= lines.len() || cursor < 0 || lines[cursor].indent != indent
        || lines[cursor].content.len() == 0 || lines[cursor].content.first() != '-' {
        Ok((Node::Sequence(done), cursor))
    } else {
        let line = lines[cursor];
        if !is_item(line.content) {
            Err(
                YamlFault {
                    line: line.line_no,
                    col: indent.wrapping_add(1),
                    msg: "sequence marker must be '-' or '- '"@,
                },
            )
        } else {
            let after = if line.content == "-"@ {
                seq![]
            } else {
                line.content.skip("- "@.len() as int)
            };
            match item(lines, cursor, indent, after) {
                Err(e) => Err(e),
                Ok((v, next)) => if leads_on(lines, cursor, next) {
                    sequence_from(lines, next, indent, done.push(v))
                } else {
                    Ok((Node::Sequence(done), cursor))
                },
            }
        }
    }
}

pub open spec fn same_parsed(r: Result<(Value, usize), YamlError>, s: Parsed) -> bool {
    match (r, s) {
        (Ok((v, next)), Ok((n, at))) => tbd_yaml::node(v) == n && next == at,
        (Err(e), Err(f)) => e@ == f,
        _ => false,
    }
}

fn is_item_line(content: &Vec<char>) -> (r: bool)
    ensures
        r == is_item(content@),
{
    starts_with(content, "- ") || is_text(content, "-")
}

fn split_key(content: &Vec<char>, line_no: usize, col: usize) -> (r: Result<
    (String, Vec<char>),
    YamlError,
>)
    ensures
        match (r, key_value(content@, line_no, col)) {
            (Ok((key, rest)), Ok((k, v))) => key@ == k && rest@ == v,
            (Err(e), Err(f)) => e@ == f,
            _ => false,
        },
{
    match find_top_level_mapping_colon(content) {
        None => Err(
            YamlError {
                line: line_no,
                col: col.wrapping_add(1),
                msg: "expected 'key: value' at block-mapping indent".to_owned(),
            },
        ),
        Some(at) => {
            assert(content.len() == content@.len());
            let key = trim(&part(content, 0, at));
            let rest = trim_start(&part(content, at + 1, content.len()));
            assert(content@.subrange(0, at as int) =~= content@.take(at as int));
            assert(content@.subrange(at + 1, content@.len() as int) =~= content@.skip(at + 1));
            Ok((string_of(&key), rest))
        },
    }
}

fn find_value_col(indent: usize, key: &String) -> (r: usize)
    ensures
        r == value_col(indent, key@),
{
    indent.wrapping_add(key.as_str().len()).wrapping_add(2)
}

fn parse_child(
    lines: &[LogicalLine],
    cursor: usize,
    indent: usize,
    rest: &Vec<char>,
    line_no: usize,
    col: usize,
) -> (r: Result<(Value, usize), YamlError>)
    requires
        cursor <= lines@.len(),
    ensures
        same_parsed(
            r,
            child(lines::lines_view(lines@), cursor as int, indent, rest@, line_no, col),
        ),
        r is Ok ==> cursor <= r->Ok_0.1 <= lines@.len(),
    decreases lines@.len() - cursor, 4int,
{
    let ghost all = lines::lines_view(lines@);
    if rest.len() == 0 {
        if cursor < lines.len() {
            assert(all[cursor as int] == lines@[cursor as int]@);
            let next_indent: usize = lines[cursor].indent;
            if next_indent > indent {
                return parse_block(lines, cursor, next_indent);
            }
        }
        Ok((Value::Null, cursor))
    } else {
        match parse_inline_value(rest, line_no, col) {
            Ok(v) => Ok((v, cursor)),
            Err(e) => Err(e),
        }
    }
}

/// Parses the block that starts at a line.
pub fn parse_block(lines: &[LogicalLine], cursor: usize, indent: usize) -> (r: Result<
    (Value, usize),
    YamlError,
>)
    requires
        cursor <= lines@.len(),
    ensures
        same_parsed(r, block(lines::lines_view(lines@), cursor as int, indent)),
        r is Ok ==> cursor <= r->Ok_0.1 <= lines@.len(),
    decreases lines@.len() - cursor, 3int,
{
    let ghost all = lines::lines_view(lines@);
    if cursor >= lines.len() {
        return Ok((Value::Null, cursor));
    }
    assert(all[cursor as int] == lines@[cursor as int]@);
    let line = &lines[cursor];
    if line.indent < indent {
        return Ok((Value::Null, cursor));
    }
    if is_item_line(&line.content) {
        parse_block_sequence(lines, cursor, line.indent)
    } else {
        parse_block_mapping(lines, cursor, line.indent)
    }
}

fn parse_block_mapping(lines: &[LogicalLine], cursor: usize, indent: usize) -> (r: Result<
    (Value, usize),
    YamlError,
>)
    requires
        cursor <= lines@.len(),
    ensures
        same_parsed(
            r,
            mapping_from(lines::lines_view(lines@), cursor as int, indent, seq![]),
        ),
        r is Ok ==> cursor <= r->Ok_0.1 <= lines@.len(),
    decreases lines@.len() - cursor, 2int,
{
    let ghost all = lines::lines_view(lines@);
    let mut out: Vec<(String, Value)> = Vec::new();
    let mut at: usize = cursor;
    assert(tbd_yaml::pairs(out@) =~= seq![]);
    while at < lines.len()
        invariant
            cursor <= at <= lines@.len(),
            all == lines::lines_view(lines@),
            mapping_from(all, cursor as int, indent, seq![]) == mapping_from(
                all,
                at as int,
                indent,
                tbd_yaml::pairs(out@),
            ),
        decreases lines@.len() - at,
    {
        let line = &lines[at];
        assert(all[at as int] == line@);
        if line.indent < indent || (line.indent == indent && is_item_line(&line.content)) {
            proof {
                tbd_yaml::lemma_mapping(out);
            }
            return Ok((Value::Mapping(out), at));
        }
        if line.indent > indent {
            let mut msg = "unexpected indentation ".to_owned();
            msg.append(dec_string(line.indent as u64).as_str());
            msg.append(" when mapping expected ");
            msg.append(dec_string(indent as u64).as_str());
            return Err(
                YamlError { line: line.line_no, col: line.indent.wrapping_add(1), msg },
            );
        }
        let (key, rest) = match split_key(&line.content, line.line_no, line.indent) {
            Ok(found) => found,
            Err(e) => {
                return Err(e);
            },
        };
        let col: usize = find_value_col(indent, &key);
        match parse_child(lines, at + 1, indent, &rest, line.line_no, col) {
            Ok((v, next)) => {
                assert(leads_on(all, at as int, next as int));
                push_pair(&mut out, key, v);
                at = next;
            },
            Err(e) => {
                return Err(e);
            },
        }
    }
    proof {
        tbd_yaml::lemma_mapping(out);
    }
    Ok((Value::Mapping(out), at))
}

fn parse_pairs(
    lines: &[LogicalLine],
    cursor: usize,
    indent: usize,
    first_key: String,
    first_value: Value,
) -> (r: Result<(Value, usize), YamlError>)
    requires
        cursor <= lines@.len(),
    ensures
        same_parsed(
            r,
            pairs_from(
                lines::lines_view(lines@),
                cursor as int,
                indent,
                seq![(first_key@, tbd_yaml::node(first_value))],
            ),
        ),
        r is Ok ==> cursor <= r->Ok_0.1 <= lines@.len(),
    decreases lines@.len() - cursor, 2int,
{
    let ghost all = lines::lines_view(lines@);
    let ghost start = seq![(first_key@, tbd_yaml::node(first_value))];
    let mut out: Vec<(String, Value)> = Vec::new();
    assert(tbd_yaml::pairs(out@) =~= seq![]);
    push_pair(&mut out, first_key, first_value);
    let mut at: usize = cursor;
    assert(tbd_yaml::pairs(out@) =~= start);
    while at < lines.len()
        invariant
            cursor <= at <= lines@.len(),
            all == lines::lines_view(lines@),
            start == seq![(first_key@, tbd_yaml::node(first_value))],
            pairs_from(all, cursor as int, indent, start) == pairs_from(
                all,
                at as int,
                indent,
                tbd_yaml::pairs(out@),
            ),
        decreases lines@.len() - at,
    {
        let line = &lines[at];
        assert(all[at as int] == line@);
        if line.indent != indent || is_item_line(&line.content) {
            proof {
                tbd_yaml::lemma_mapping(out);
            }
            return Ok((Value::Mapping(out), at));
        }
        let (key, rest) = match split_key(&line.content, line.line_no, line.indent) {
            Ok(found) => found,
            Err(e) => {
                return Err(e);
            },
        };
        let col: usize = find_value_col(indent, &key);
        match parse_child(lines, at + 1, indent, &rest, line.line_no, col) {
            Ok((v, next)) => {
                assert(leads_on(all, at as int, next as int));
                push_pair(&mut out, key, v);
                at = next;
            },
            Err(e) => {
                return Err(e);
            },
        }
    }
    proof {
        tbd_yaml::lemma_mapping(out);
    }
    Ok((Value::Mapping(out), at))
}

fn parse_item(lines: &[LogicalLine], cursor: usize, indent: usize, after: &Vec<char>) -> (r: Result<
    (Value, usize),
    YamlError,
>)
    requires
        cursor < lines@.len(),
    ensures
        same_parsed(r, item(lines::lines_view(lines@), cursor as int, indent, after@)),
        r is Ok ==> cursor < r->Ok_0.1 <= lines@.len(),
    decreases lines@.len() - cursor, 1int,
{
    let ghost all = lines::lines_view(lines@);
    let line = &lines[cursor];
    assert(all[cursor as int] == line@);
    let inner: usize = indent.wrapping_add(2);
    if after.len() == 0 {
        return parse_child(lines, cursor + 1, indent, after, line.line_no, inner);
    }
    match find_top_level_mapping_colon(after) {
        None => match parse_inline_value(after, line.line_no, inner) {
            Ok(v) => Ok((v, cursor + 1)),
            Err(e) => Err(e),
        },
        Some(at) => {
            assert(after.len() == after@.len());
            let key = string_of(&trim(&part(after, 0, at)));
            let rest = trim_start(&part(after, at + 1, after.len()));
            assert(after@.subrange(0, at as int) =~= after@.take(at as int));
            assert(after@.subrange(at + 1, after@.len() as int) =~= after@.skip(at + 1));
            let col: usize = find_value_col(inner, &key);
            match parse_child(lines, cursor + 1, inner, &rest, line.line_no, col) {
                Ok((v, next)) => {
                    assert(leads_on(all, cursor as int, next as int));
                    parse_pairs(lines, next, inner, key, v)
                },
                Err(e) => Err(e),
            }
        },
    }
}

fn parse_block_sequence(lines: &[LogicalLine], cursor: usize, indent: usize) -> (r: Result<
    (Value, usize),
    YamlError,
>)
    requires
        cursor <= lines@.len(),
    ensures
        same_parsed(
            r,
            sequence_from(lines::lines_view(lines@), cursor as int, indent, seq![]),
        ),
        r is Ok ==> cursor <= r->Ok_0.1 <= lines@.len(),
    decreases lines@.len() - cursor, 2int,
{
    let ghost all = lines::lines_view(lines@);
    let mut out: Vec<Value> = Vec::new();
    let mut at: usize = cursor;
    assert(tbd_yaml::nodes(out@) =~= seq![]);
    while at < lines.len()
        invariant
            cursor <= at <= lines@.len(),
            all == lines::lines_view(lines@),
            sequence_from(all, cursor as int, indent, seq![]) == sequence_from(
                all,
                at as int,
                indent,
                tbd_yaml::nodes(out@),
            ),
        decreases lines@.len() - at,
    {
        let line = &lines[at];
        assert(all[at as int] == line@);
        if line.indent != indent || line.content.len() == 0 || line.content[0] != '-' {
            proof {
                tbd_yaml::lemma_sequence(out);
            }
            return Ok((Value::Sequence(out), at));
        }
        let after = if is_text(&line.content, "-") {
            let none: Vec<char> = Vec::new();
            assert(none@ =~= seq![]);
            none
        } else {
            match strip_prefix(&line.content, "- ") {
                Some(rest) => rest,
                None => {
                    return Err(
                        YamlError {
                            line: line.line_no,
                            col: indent.wrapping_add(1),
                            msg: "sequence marker must be '-' or '- '".to_owned(),
                        },
                    );
                },
            }
        };
        match parse_item(lines, at, indent, &after) {
            Ok((v, next)) => {
                assert(leads_on(all, at as int, next as int));
                push_value(&mut out, v);
                at = next;
            },
            Err(e) => {
                return Err(e);
            },
        }
    }
    proof {
        tbd_yaml::lemma_sequence(out);
    }
    Ok((Value::Sequence(out), at))
}

} // verus!
