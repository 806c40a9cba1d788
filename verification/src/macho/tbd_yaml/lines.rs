//! Logical lines: without comments, and with lists in brackets on one line each.

use vstd::prelude::*;
use crate::chars;
use crate::chars::{append, part, split_on, trim_start};
use crate::macho::tbd_yaml::scan;
use crate::macho::tbd_yaml::scan::{flow_unbalanced, strip_eol_comment};
use crate::macho::tbd_yaml::{YamlError, YamlFault};
use crate::text;
use crate::text::chars_of;

verus! {

/// A line with its indentation taken off. Lines count from one.
#[derive(Debug, Clone)]
pub struct LogicalLine {
    pub indent: usize,
    pub content: Vec<char>,
    pub line_no: usize,
}

/// A `LogicalLine` with its text as a character sequence.
#[verifier::ext_equal]
pub struct Line {
    pub indent: usize,
    pub content: Seq<char>,
    pub line_no: usize,
}

impl View for LogicalLine {
    type V = Line;

    open spec fn view(&self) -> Line {
        Line { indent: self.indent, content: self.content@, line_no: self.line_no }
    }
}

pub open spec fn lines_view(s: Seq<LogicalLine>) -> Seq<Line> {
    s.map_values(|l: LogicalLine| l@)
}

/// `s` without blanks and carriage returns at its end.
pub open spec fn without_tail(s: Seq<char>) -> Seq<char>
    decreases s.len(),
{
    if s.len() > 0 && (scan::is_blank(s.last()) || s.last() == '\r') {
        without_tail(s.drop_last())
    } else {
        s
    }
}

fn strip_trailing_ws(s: &Vec<char>) -> (r: Vec<char>)
    ensures
        r@ == without_tail(s@),
{
    let mut end: usize = s.len();
    assert(s@.take(end as int) =~= s@);
    while end > 0 && (s[end - 1] == ' ' || s[end - 1] == '\t' || s[end - 1] == '\r')
        invariant
            end <= s@.len(),
            without_tail(s@) == without_tail(s@.take(end as int)),
        decreases end,
    {
        assert(s@.take(end as int).drop_last() =~= s@.take(end - 1));
        end -= 1;
    }
    assert(s@.subrange(0, end as int) =~= s@.take(end as int));
    part(s, 0, end)
}

/// How many spaces `s` starts with.
pub open spec fn spaces(s: Seq<char>) -> nat
    decreases s.len(),
{
    if s.len() > 0 && s.first() == ' ' {
        spaces(s.drop_first()) + 1
    } else {
        0
    }
}

pub(crate) fn count_spaces(s: &Vec<char>) -> (r: usize)
    ensures
        r == spaces(s@),
        r <= s@.len(),
{
    let mut i: usize = 0;
    assert(s@.skip(0) =~= s@);
    while i < s.len() && s[i] == ' '
        invariant
            i <= s@.len(),
            spaces(s@) == i + spaces(s@.skip(i as int)),
        decreases s@.len() - i,
    {
        assert(s@.skip(i as int).drop_first() =~= s@.skip(i + 1));
        i += 1;
    }
    i
}

/// The line holds nothing, or only a comment.
pub open spec fn is_idle(s: Seq<char>) -> bool {
    let t = text::trimmed_start(s);
    s.len() == 0 || t.len() > 0 && t.first() == '#'
}

/// `content` with as many of the lines from `i` on as its brackets need, and the
/// line behind them; nothing if the brackets are never closed.
pub open spec fn joined(raw: Seq<Seq<char>>, i: int, content: Seq<char>) -> Option<
    (Seq<char>, int),
>
    decreases raw.len() - i,
{
    if !scan::unbalanced(content) {
        Some((content, i))
    } else if i >= raw.len() {
        None
    } else {
        joined(
            raw,
            i + 1,
            content + seq![' '] + scan::without_comment(
                text::trimmed_start(without_tail(raw[i])),
            ),
        )
    }
}

pub proof fn lemma_joined(raw: Seq<Seq<char>>, i: int, content: Seq<char>)
    requires
        0 <= i <= raw.len(),
    ensures
        match joined(raw, i, content) {
            Some((_, next)) => i <= next <= raw.len(),
            None => true,
        },
    decreases raw.len() - i,
{
    if scan::unbalanced(content) && i < raw.len() {
        lemma_joined(
            raw,
            i + 1,
            content + seq![' '] + scan::without_comment(
                text::trimmed_start(without_tail(raw[i])),
            ),
        );
    }
}

/// The logical lines from raw line `i` on.
pub open spec fn lines_from(raw: Seq<Seq<char>>, i: int, done: Seq<Line>) -> Result<
    Seq<Line>,
    YamlFault,
>
    decreases raw.len() - i,
    when 0 <= i
    via lines_shrink
{
    if i >= raw.len() {
        Ok(done)
    } else {
        let s = without_tail(raw[i]);
        if is_idle(s) {
            lines_from(raw, i + 1, done)
        } else {
            let indent = spaces(s);
            match joined(raw, i + 1, scan::without_comment(s.skip(indent as int))) {
                None => Err(
                    YamlFault {
                        line: (i + 1) as usize,
                        col: 1,
                        msg: "unterminated flow collection"@,
                    },
                ),
                Some((content, next)) => lines_from(
                    raw,
                    next,
                    done.push(
                        Line { indent: indent as usize, content, line_no: (i + 1) as usize },
                    ),
                ),
            }
        }
    }
}

#[via_fn]
proof fn lines_shrink(raw: Seq<Seq<char>>, i: int, done: Seq<Line>) {
    if i < raw.len() {
        let s = without_tail(raw[i]);
        lemma_joined(raw, i + 1, scan::without_comment(s.skip(spaces(s) as int)));
    }
}

/// The logical lines of a text.
pub open spec fn logical_lines(input: Seq<char>) -> Result<Seq<Line>, YamlFault> {
    lines_from(text::split(input, '\n'), 0, seq![])
}

fn join_lines(raw: &Vec<Vec<char>>, from: usize, content: Vec<char>) -> (r: Option<
    (Vec<char>, usize),
>)
    requires
        from <= raw@.len(),
    ensures
        match (r, joined(chars::rows(raw@), from as int, content@)) {
            (Some(a), Some(b)) => a.0@ == b.0 && a.1 == b.1 && from <= a.1 <= raw@.len(),
            (None, None) => true,
            _ => false,
        },
{
    let ghost rows = chars::rows(raw@);
    let ghost start = content@;
    let mut text = content;
    let mut i: usize = from;
    while flow_unbalanced(&text)
        invariant
            from <= i <= raw@.len(),
            rows == chars::rows(raw@),
            start == content@,
            joined(rows, from as int, start) == joined(rows, i as int, text@),
        decreases raw@.len() - i,
    {
        if i >= raw.len() {
            return None;
        }
        let next = strip_eol_comment(trim_start(&strip_trailing_ws(&raw[i])));
        let ghost before = text@;
        text.push(' ');
        append(&mut text, &next);
        assert(text@ =~= before + seq![' '] + next@);
        assert(rows[i as int] == raw@[i as int]@);
        i += 1;
    }
    Some((text, i))
}

pub fn tokenize_lines(input: &str) -> (r: Result<Vec<LogicalLine>, YamlError>)
    ensures
        match (r, logical_lines(input@)) {
            (Ok(lines), Ok(m)) => lines_view(lines@) == m,
            (Err(e), Err(f)) => e@ == f,
            _ => false,
        },
{
    let raw = split_on(&chars_of(input), '\n');
    let ghost rows = chars::rows(raw@);
    let mut out: Vec<LogicalLine> = Vec::new();
    let mut i: usize = 0;
    assert(lines_view(out@) =~= seq![]);
    while i < raw.len()
        invariant
            i <= raw@.len(),
            rows == chars::rows(raw@),
            rows == text::split(input@, '\n'),
            lines_from(rows, 0, seq![]) == lines_from(rows, i as int, lines_view(out@)),
        decreases raw@.len() - i,
    {
        let start_line_no: usize = i + 1;
        assert(rows[i as int] == raw@[i as int]@);
        let stripped = strip_trailing_ws(&raw[i]);
        let t = trim_start(&stripped);
        if stripped.len() == 0 || (t.len() > 0 && t[0] == '#') {
            i += 1;
        } else {
            let indent: usize = count_spaces(&stripped);
            let body = part(&stripped, indent, stripped.len());
            assert(body@ =~= stripped@.skip(indent as int));
            let content = strip_eol_comment(body);
            match join_lines(&raw, i + 1, content) {
                None => {
                    return Err(
                        YamlError {
                            line: start_line_no,
                            col: 1,
                            msg: "unterminated flow collection".to_owned(),
                        },
                    );
                },
                Some((text, next)) => {
                    let ghost before = lines_view(out@);
                    let line = LogicalLine { indent, content: text, line_no: start_line_no };
                    out.push(line);
                    assert(lines_view(out@) =~= before.push(line@));
                    i = next;
                },
            }
        }
    }
    Ok(out)
}

} // verus!
