//! The part of YAML that text-based stubs are written in: mappings and sequences
//! by indentation, sequences in brackets, and scalars with or without quotes. Whatever
//! else stands in a text is refused with its line and column.

use vstd::prelude::*;
use crate::chars;
use crate::chars::{part, starts_with, strip_prefix, trim, trim_start};
use crate::macho::tbd_yaml::block::parse_block;
use crate::macho::tbd_yaml::lines::{tokenize_lines, Line, LogicalLine};
use crate::text;
use crate::text::{dec_string, is_white_space, same_text, string_of};

pub mod block;

pub mod lines;
pub mod scan;
pub mod values;

verus! {

#[derive(Debug, PartialEq, Eq)]
pub enum Value {
    /// Nothing, as in a key without a value.
    Null,
    Scalar(String),
    Sequence(Vec<Value>),
    /// Keys and values in the order in which they were written.
    Mapping(Vec<(String, Value)>),
}

/// A `Value` with its texts as character sequences.
#[verifier::ext_equal]
pub enum Node {
    Null,
    Scalar(Seq<char>),
    Sequence(Seq<Node>),
    Mapping(Seq<(Seq<char>, Node)>),
}

pub open spec fn node(v: Value) -> Node
    decreases v,
{
    match v {
        Value::Null => Node::Null,
        Value::Scalar(s) => Node::Scalar(s@),
        Value::Sequence(items) => Node::Sequence(
            Seq::new(
                items@.len(),
                |i: int|
                    if 0 <= i < items@.len() {
                        node(items@[i])
                    } else {
                        Node::Null
                    },
            ),
        ),
        Value::Mapping(pairs) => Node::Mapping(
            Seq::new(
                pairs@.len(),
                |i: int|
                    if 0 <= i < pairs@.len() {
                        (pairs@[i].0@, node(pairs@[i].1))
                    } else {
                        (seq![], Node::Null)
                    },
            ),
        ),
    }
}

pub open spec fn nodes(v: Seq<Value>) -> Seq<Node> {
    v.map_values(|x: Value| node(x))
}

pub open spec fn pairs(v: Seq<(String, Value)>) -> Seq<(Seq<char>, Node)> {
    v.map_values(|p: (String, Value)| (p.0@, node(p.1)))
}

pub proof fn lemma_sequence(v: Vec<Value>)
    ensures
        node(Value::Sequence(v)) == Node::Sequence(nodes(v@)),
{
    assert(node(Value::Sequence(v))->Sequence_0 =~= nodes(v@));
}

pub proof fn lemma_mapping(v: Vec<(String, Value)>)
    ensures
        node(Value::Mapping(v)) == Node::Mapping(pairs(v@)),
{
    assert(node(Value::Mapping(v))->Mapping_0 =~= pairs(v@));
}

pub(crate) fn push_value(out: &mut Vec<Value>, v: Value)
    ensures
        nodes(final(out)@) == nodes(old(out)@).push(node(v)),
{
    let ghost before = out@;
    out.push(v);
    assert(nodes(out@) =~= nodes(before).push(node(v)));
}

pub(crate) fn push_pair(out: &mut Vec<(String, Value)>, key: String, v: Value)
    ensures
        pairs(final(out)@) == pairs(old(out)@).push((key@, node(v))),
{
    let ghost before = out@;
    out.push((key, v));
    assert(pairs(out@) =~= pairs(before).push((key@, node(v))));
}

/// The value of the first pair with this key.
pub open spec fn first_with(p: Seq<(Seq<char>, Node)>, key: Seq<char>) -> Option<Node>
    decreases p.len(),
{
    if p.len() == 0 {
        None
    } else if p.first().0 == key {
        Some(p.first().1)
    } else {
        first_with(p.drop_first(), key)
    }
}

impl Node {
    /// The value under a key; nothing if this is no mapping.
    pub open spec fn at(self, key: Seq<char>) -> Option<Node> {
        match self {
            Node::Mapping(p) => first_with(p, key),
            _ => None,
        }
    }
}

impl Value {
    pub fn as_str(&self) -> (r: Option<&str>)
        ensures
            match r {
                Some(s) => node(*self) == Node::Scalar(s@),
                None => !(node(*self) is Scalar),
            },
    {
        match self {
            Value::Scalar(s) => Some(s.as_str()),
            _ => None,
        }
    }

    pub fn as_sequence(&self) -> (r: Option<&[Value]>)
        ensures
            match r {
                Some(v) => node(*self) == Node::Sequence(nodes(v@)),
                None => !(node(*self) is Sequence),
            },
    {
        match self {
            Value::Sequence(v) => {
                proof {
                    lemma_sequence(*v);
                }
                Some(v.as_slice())
            },
            _ => None,
        }
    }

    pub fn as_mapping(&self) -> (r: Option<&[(String, Value)]>)
        ensures
            match r {
                Some(v) => node(*self) == Node::Mapping(pairs(v@)),
                None => !(node(*self) is Mapping),
            },
    {
        match self {
            Value::Mapping(v) => {
                proof {
                    lemma_mapping(*v);
                }
                Some(v.as_slice())
            },
            _ => None,
        }
    }

    pub fn get(&self, key: &str) -> (r: Option<&Value>)
        ensures
            match r {
                Some(v) => node(*self).at(key@) == Some(node(*v)),
                None => node(*self).at(key@) is None,
            },
    {
        let list = match self.as_mapping() {
            Some(list) => list,
            None => {
                return None;
            },
        };
        let ghost all = pairs(list@);
        let mut i: usize = 0;
        assert(all.skip(0) =~= all);
        while i < list.len()
            invariant
                i <= list@.len(),
                all == pairs(list@),
                node(*self) == Node::Mapping(all),
                first_with(all, key@) == first_with(all.skip(i as int), key@),
            decreases list@.len() - i,
        {
            assert(all.skip(i as int).first() == all[i as int]);
            assert(all.skip(i as int).drop_first() =~= all.skip(i + 1));
            if same_text(list[i].0.as_str(), key) {
                return Some(&list[i].1);
            }
            i += 1;
        }
        None
    }
}

/// One document of a file.
#[derive(Debug, PartialEq, Eq)]
pub struct Document {
    pub tag: Option<String>,
    pub root: Value,
}

/// A `Document` with its texts as character sequences.
#[verifier::ext_equal]
pub struct DocumentModel {
    pub tag: Option<Seq<char>>,
    pub root: Node,
}

impl View for Document {
    type V = DocumentModel;

    open spec fn view(&self) -> DocumentModel {
        DocumentModel {
            tag: match self.tag {
                Some(t) => Some(t@),
                None => None,
            },
            root: node(self.root),
        }
    }
}

pub open spec fn documents_view(docs: Seq<Document>) -> Seq<DocumentModel> {
    docs.map_values(|d: Document| d@)
}

/// A text that is not of this kind.
#[derive(Debug, Clone, PartialEq, Eq)]
pub struct YamlError {
    pub line: usize,
    pub col: usize,
    pub msg: String,
}

/// A `YamlError` with its text as a character sequence.
#[verifier::ext_equal]
pub struct YamlFault {
    pub line: usize,
    pub col: usize,
    pub msg: Seq<char>,
}

impl View for YamlError {
    type V = YamlFault;

    open spec fn view(&self) -> YamlFault {
        YamlFault { line: self.line, col: self.col, msg: self.msg@ }
    }
}

impl YamlFault {
    /// The message that a user sees.
    pub open spec fn message(self) -> Seq<char> {
        "YAML error at line "@ + text::dec(self.line as nat) + ", col "@ + text::dec(
            self.col as nat,
        ) + ": "@ + self.msg
    }
}

impl YamlError {
    pub fn to_string(&self) -> (r: String)
        ensures
            r@ == self@.message(),
    {
        let mut s = "YAML error at line ".to_owned();
        s.append(dec_string(self.line as u64).as_str());
        s.append(", col ");
        s.append(dec_string(self.col as u64).as_str());
        s.append(": ");
        s.append(self.msg.as_str());
        s
    }
}

pub open spec fn same_text_result(
    r: Result<String, YamlError>,
    s: Result<Seq<char>, YamlFault>,
) -> bool {
    match (r, s) {
        (Ok(a), Ok(b)) => a@ == b,
        (Err(e), Err(f)) => e@ == f,
        _ => false,
    }
}

pub open spec fn same_value(r: Result<Value, YamlError>, s: Result<Node, YamlFault>) -> bool {
    match (r, s) {
        (Ok(a), Ok(b)) => node(a) == b,
        (Err(e), Err(f)) => e@ == f,
        _ => false,
    }
}

/// `s` up to its first white space.
pub open spec fn first_word(s: Seq<char>) -> Seq<char>
    decreases s.len(),
{
    if s.len() == 0 || text::is_space(s.first()) {
        seq![]
    } else {
        seq![s.first()] + first_word(s.drop_first())
    }
}

/// The tag behind the mark that starts a document.
pub open spec fn tag_of(rest: Seq<char>) -> Option<Seq<char>> {
    let t = text::trimmed_start(rest);
    if t.len() > 0 && t.first() == '!' {
        Some(seq!['!'] + first_word(t.drop_first()))
    } else {
        None
    }
}

/// The line ends a document, or starts the next.
pub open spec fn ends_document(line: Line) -> bool {
    chars::prefixed(line.content, "---"@) || chars::prefixed(line.content, "..."@)
}

/// Where the document that starts at a line ends.
pub open spec fn document_end(lines: Seq<Line>, i: int) -> int
    decreases lines.len() - i,
{
    if i >= lines.len() || ends_document(lines[i]) {
        i
    } else {
        document_end(lines, i + 1)
    }
}

proof fn lemma_document_end(lines: Seq<Line>, i: int)
    requires
        0 <= i <= lines.len(),
    ensures
        i <= document_end(lines, i) <= lines.len(),
        i < lines.len() && !ends_document(lines[i]) ==> i < document_end(lines, i),
    decreases lines.len() - i,
{
    if i < lines.len() && !ends_document(lines[i]) {
        lemma_document_end(lines, i + 1);
    }
}

/// A document's tag, its first line and the line behind it.
pub open spec fn document_bounds(lines: Seq<Line>, cursor: int) -> (Option<Seq<char>>, int, int) {
    if chars::prefixed(lines[cursor].content, "---"@) {
        (
            tag_of(lines[cursor].content.skip("---"@.len() as int)),
            cursor + 1,
            document_end(lines, cursor + 1),
        )
    } else {
        (None, cursor, document_end(lines, cursor))
    }
}

/// What stands behind a document mark, and the tag that may follow it.
pub open spec fn behind_mark(content: Seq<char>) -> Seq<char> {
    let t = text::trimmed(content.skip(3));
    if chars::prefixed(content, "---"@) && t.len() > 0 && t.first() == '!' {
        text::trimmed_start(t.drop_first().skip(first_word(t.drop_first()).len() as int))
    } else {
        t
    }
}

/// A line that could not be taken, at its first character.
pub open spec fn line_fault(line: Line, msg: Seq<char>) -> YamlFault {
    YamlFault { line: line.line_no, col: line.indent.wrapping_add(1), msg }
}

/// A document mark stands alone on its line, but for a tag.
pub open spec fn mark_fault(lines: Seq<Line>, at: int) -> Option<YamlFault> {
    if 0 <= at < lines.len() && ends_document(lines[at]) && behind_mark(lines[at].content).len()
        > 0 {
        Some(line_fault(lines[at], "unexpected text behind a document mark"@))
    } else {
        None
    }
}

/// The line behind a document and the mark that may end it.
pub open spec fn behind(lines: Seq<Line>, end: int) -> int {
    if 0 <= end < lines.len() && chars::prefixed(lines[end].content, "..."@) {
        end + 1
    } else {
        end
    }
}

/// What the lines of a document hold: one block, or nothing. A line that the block
/// does not take is refused.
pub open spec fn body(lines: Seq<Line>, start: int, end: int) -> Result<Option<Node>, YamlFault> {
    if end <= start {
        Ok(None)
    } else {
        match block::block(lines.subrange(start, end), 0, 0) {
            Err(e) => Err(e),
            Ok((root, taken)) => if taken < end - start {
                Err(line_fault(lines[start + taken], "line outside of the document's block"@))
            } else {
                Ok(Some(root))
            },
        }
    }
}

/// The documents from a line on.
pub open spec fn documents_from(lines: Seq<Line>, cursor: int, done: Seq<DocumentModel>) -> Result<
    Seq<DocumentModel>,
    YamlFault,
>
    decreases lines.len() - cursor,
    when 0 <= cursor
    via documents_shrink
{
    if cursor >= lines.len() {
        Ok(done)
    } else if chars::prefixed(lines[cursor].content, "%YAML"@) {
        documents_from(lines, cursor + 1, done)
    } else {
        let (tag, start, end) = document_bounds(lines, cursor);
        if mark_fault(lines, cursor) is Some {
            Err(mark_fault(lines, cursor)->0)
        } else {
            match body(lines, start, end) {
                Err(e) => Err(e),
                Ok(root) => if mark_fault(lines, end) is Some {
                    Err(mark_fault(lines, end)->0)
                } else {
                    documents_from(
                        lines,
                        behind(lines, end),
                        match root {
                            Some(root) => done.push(DocumentModel { tag, root }),
                            None => done,
                        },
                    )
                },
            }
        }
    }
}

#[via_fn]
proof fn documents_shrink(lines: Seq<Line>, cursor: int, done: Seq<DocumentModel>) {
    if cursor < lines.len() {
        lemma_document_end(lines, cursor);
        lemma_document_end(lines, cursor + 1);
    }
}

/// The documents of a text.
pub open spec fn documents(input: Seq<char>) -> Result<Seq<DocumentModel>, YamlFault> {
    match lines::logical_lines(input) {
        Err(e) => Err(e),
        Ok(all) => documents_from(all, 0, seq![]),
    }
}

fn parse_tag(rest: &Vec<char>) -> (r: Option<String>)
    ensures
        match (r, tag_of(rest@)) {
            (Some(a), Some(b)) => a@ == b,
            (None, None) => true,
            _ => false,
        },
{
    let t = trim_start(rest);
    if t.len() == 0 || t[0] != '!' {
        return None;
    }
    let ghost word = t@.drop_first();
    let mut i: usize = 1;
    assert(t@.skip(1) =~= word);
    assert(t@.subrange(1, 1) + first_word(t@.skip(1)) =~= first_word(word));
    while i < t.len() && !is_white_space(t[i])
        invariant
            1 <= i <= t@.len(),
            word == t@.drop_first(),
            first_word(word) == t@.subrange(1, i as int) + first_word(t@.skip(i as int)),
        decreases t@.len() - i,
    {
        assert(t@.skip(i as int).first() == t@[i as int]);
        assert(t@.skip(i as int).drop_first() =~= t@.skip(i + 1));
        assert(t@.subrange(1, i as int) + (seq![t@[i as int]] + first_word(t@.skip(i + 1)))
            =~= t@.subrange(1, i + 1) + first_word(t@.skip(i + 1)));
        i += 1;
    }
    let tag = part(&t, 0, i);
    assert(first_word(t@.skip(i as int)) =~= seq![]);
    assert(tag@ =~= seq!['!'] + t@.subrange(1, i as int));
    assert(tag@ =~= seq!['!'] + first_word(word));
    Some(string_of(&tag))
}

fn find_document_end(lines: &Vec<LogicalLine>, from: usize) -> (r: usize)
    requires
        from <= lines@.len(),
    ensures
        r == document_end(lines::lines_view(lines@), from as int),
        from <= r <= lines@.len(),
{
    let ghost all = lines::lines_view(lines@);
    let mut i: usize = from;
    while i < lines.len() && !starts_with(&lines[i].content, "---") && !starts_with(
        &lines[i].content,
        "...",
    )
        invariant
            from <= i <= lines@.len(),
            all == lines::lines_view(lines@),
            document_end(all, from as int) == document_end(all, i as int),
        decreases lines@.len() - i,
    {
        assert(all[i as int] == lines@[i as int]@);
        i += 1;
    }
    assert(i < lines@.len() ==> all[i as int] == lines@[i as int]@);
    i
}

fn make_line_error(line: &LogicalLine, msg: &str) -> (r: YamlError)
    ensures
        r@ == line_fault(line@, msg@),
{
    YamlError { line: line.line_no, col: line.indent.wrapping_add(1), msg: msg.to_owned() }
}

fn mark_is_alone(content: &Vec<char>, starts: bool) -> (r: bool)
    requires
        content@.len() >= 3,
        starts == chars::prefixed(content@, "---"@),
    ensures
        r == (behind_mark(content@).len() == 0),
{
    let rest = part(content, 3, content.len());
    assert(rest@ =~= content@.skip(3));
    let t = trim(&rest);
    if !starts || t.len() == 0 || t[0] != '!' {
        return t.len() == 0;
    }
    let ghost word = t@.drop_first();
    let mut i: usize = 1;
    assert(word.skip(0) =~= word);
    while i < t.len() && !is_white_space(t[i])
        invariant
            1 <= i <= t@.len(),
            word == t@.drop_first(),
            first_word(word).len() == i - 1 + first_word(word.skip(i - 1)).len(),
        decreases t@.len() - i,
    {
        assert(word.skip(i - 1).first() == t@[i as int]);
        assert(word.skip(i - 1).drop_first() =~= word.skip(i as int));
        i += 1;
    }
    assert(i < t@.len() ==> word.skip(i - 1).first() == t@[i as int]);
    let left = part(&t, i, t.len());
    assert(left@ =~= word.skip(i - 1));
    trim_start(&left).len() == 0
}

fn find_mark_fault(lines: &Vec<LogicalLine>, at: usize) -> (r: Option<YamlError>)
    requires
        at <= lines@.len(),
    ensures
        match (r, mark_fault(lines::lines_view(lines@), at as int)) {
            (Some(e), Some(f)) => e@ == f,
            (None, None) => true,
            _ => false,
        },
{
    let ghost all = lines::lines_view(lines@);
    if at >= lines.len() {
        return None;
    }
    assert(all[at as int] == lines@[at as int]@);
    let line = &lines[at];
    let starts: bool = starts_with(&line.content, "---");
    if !starts && !starts_with(&line.content, "...") {
        return None;
    }
    proof {
        reveal_strlit("---");
        reveal_strlit("...");
    }
    if mark_is_alone(&line.content, starts) {
        None
    } else {
        Some(make_line_error(line, "unexpected text behind a document mark"))
    }
}

fn parse_body(lines: &Vec<LogicalLine>, start: usize, end: usize) -> (r: Result<
    Option<Value>,
    YamlError,
>)
    requires
        start <= end <= lines@.len(),
    ensures
        match (r, body(lines::lines_view(lines@), start as int, end as int)) {
            (Ok(None), Ok(None)) => true,
            (Ok(Some(v)), Ok(Some(n))) => node(v) == n,
            (Err(e), Err(f)) => e@ == f,
            _ => false,
        },
{
    if end <= start {
        return Ok(None);
    }
    let ghost all = lines::lines_view(lines@);
    let slice = vstd::slice::slice_subrange(lines.as_slice(), start, end);
    assert(lines::lines_view(slice@) =~= all.subrange(start as int, end as int));
    match parse_block(slice, 0, 0) {
        Err(e) => Err(e),
        Ok((root, taken)) => {
            if taken < end - start {
                assert(all[start + taken] == lines@[start + taken]@);
                Err(make_line_error(&lines[start + taken], "line outside of the document's block"))
            } else {
                Ok(Some(root))
            }
        },
    }
}

/// Parses every document of a text.
pub fn parse_documents(input: &str) -> (r: Result<Vec<Document>, YamlError>)
    ensures
        match (r, documents(input@)) {
            (Ok(docs), Ok(m)) => documents_view(docs@) == m,
            (Err(e), Err(f)) => e@ == f,
            _ => false,
        },
{
    let lines = match tokenize_lines(input) {
        Ok(lines) => lines,
        Err(e) => {
            return Err(e);
        },
    };
    let ghost all = lines::lines_view(lines@);
    let mut docs: Vec<Document> = Vec::new();
    let mut cursor: usize = 0;
    assert(documents_view(docs@) =~= seq![]);
    while cursor < lines.len()
        invariant
            cursor <= lines@.len(),
            all == lines::lines_view(lines@),
            documents(input@) == documents_from(all, 0, seq![]),
            documents_from(all, 0, seq![]) == documents_from(
                all,
                cursor as int,
                documents_view(docs@),
            ),
        decreases lines@.len() - cursor,
    {
        assert(all[cursor as int] == lines@[cursor as int]@);
        if starts_with(&lines[cursor].content, "%YAML") {
            cursor += 1;
        } else {
            let (tag, start) = match strip_prefix(&lines[cursor].content, "---") {
                Some(rest) => (parse_tag(&rest), cursor + 1),
                None => (None, cursor),
            };
            let end: usize = find_document_end(&lines, start);
            proof {
                lemma_document_end(all, start as int);
            }
            if let Some(e) = find_mark_fault(&lines, cursor) {
                return Err(e);
            }
            match parse_body(&lines, start, end) {
                Ok(Some(root)) => {
                    let ghost before = documents_view(docs@);
                    let doc = Document { tag, root };
                    docs.push(doc);
                    assert(documents_view(docs@) =~= before.push(doc@));
                },
                Ok(None) => {},
                Err(e) => {
                    return Err(e);
                },
            }
            if let Some(e) = find_mark_fault(&lines, end) {
                return Err(e);
            }
            assert(end < lines@.len() ==> all[end as int] == lines@[end as int]@);
            if end < lines.len() && starts_with(&lines[end].content, "...") {
                cursor = end + 1;
            } else {
                cursor = end;
            }
        }
    }
    Ok(docs)
}

} // verus!
