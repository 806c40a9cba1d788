//! Linker scripts that stand for libraries: lists of inputs and groups of them.

use vstd::prelude::*;
use vstd::slice::slice_subrange;
use crate::chars;
use crate::elf;
use crate::elf::{push_input, InputModel, LibrarySearchMode, LinkInput};
use crate::text;
use crate::text::{chars_of, is_white_space, same_text, string_of};

verus! {

/// A comment starts at `i`.
pub open spec fn opens(b: Seq<u8>, i: int) -> bool {
    i + 1 < b.len() && b[i] == 0x2f && b[i + 1] == 0x2a
}

/// Where a comment ends whose text goes on at `i`. One that is not closed takes the
/// rest.
pub open spec fn comment_end(b: Seq<u8>, i: int) -> int
    decreases b.len() - i,
{
    if i + 1 < b.len() {
        if b[i] == 0x2a && b[i + 1] == 0x2f {
            i + 2
        } else {
            comment_end(b, i + 1)
        }
    } else {
        b.len() as int
    }
}

proof fn lemma_comment_end(b: Seq<u8>, i: int)
    requires
        0 <= i <= b.len(),
    ensures
        i <= comment_end(b, i) <= b.len(),
    decreases b.len() - i,
{
    if i + 1 < b.len() && !(b[i] == 0x2a && b[i + 1] == 0x2f) {
        lemma_comment_end(b, i + 1);
    }
}

/// The bytes from `i` on without comments, each as a character of its own.
pub open spec fn stripped(b: Seq<u8>, i: int) -> Seq<char>
    decreases b.len() - i,
    when 0 <= i <= b.len()
    via stripped_ends
{
    if i >= b.len() {
        seq![]
    } else if opens(b, i) {
        stripped(b, comment_end(b, i + 2))
    } else {
        seq![b[i] as char] + stripped(b, i + 1)
    }
}

#[via_fn]
proof fn stripped_ends(b: Seq<u8>, i: int) {
    if opens(b, i) {
        lemma_comment_end(b, i + 2);
    }
}

/// A text without its comments.
pub fn strip_c_comments(text: &str) -> (r: Vec<char>)
    ensures
        r@ == stripped(text::utf8(text@), 0),
{
    let bytes = text.as_bytes();
    let ghost b = bytes@;
    let mut out: Vec<char> = Vec::new();
    let mut i: usize = 0;
    assert(out@ + stripped(b, 0) =~= stripped(b, 0));
    while i < bytes.len()
        invariant
            i <= bytes@.len(),
            b == bytes@,
            out@ + stripped(b, i as int) == stripped(b, 0),
        decreases bytes@.len() - i,
    {
        if bytes.len() - i > 1 && bytes[i] == 0x2f && bytes[i + 1] == 0x2a {
            let ghost start = i + 2;
            i += 2;
            while bytes.len() - i > 1 && !(bytes[i] == 0x2a && bytes[i + 1] == 0x2f)
                invariant
                    start <= i <= bytes@.len(),
                    b == bytes@,
                    comment_end(b, i as int) == comment_end(b, start),
                decreases bytes@.len() - i,
            {
                i += 1;
            }
            if bytes.len() - i > 1 {
                i += 2;
            } else {
                i = bytes.len();
            }
        } else {
            let ghost before = out@;
            out.push(bytes[i] as char);
            assert(out@ + stripped(b, i + 1) =~= before + stripped(b, i as int));
            i += 1;
        }
    }
    assert(out@ + stripped(b, i as int) =~= out@);
    out
}

/// A token that ends here, unless there is none.
pub open spec fn ended(tokens: Seq<Seq<char>>, current: Seq<char>) -> Seq<Seq<char>> {
    if current.len() == 0 {
        tokens
    } else {
        tokens.push(current)
    }
}

pub open spec fn is_mark(c: char) -> bool {
    c == '(' || c == ')' || c == ','
}

/// The tokens of the first `n` characters that are complete, and the one that is not.
pub open spec fn tokens_of(text: Seq<char>, n: nat) -> (Seq<Seq<char>>, Seq<char>)
    decreases n,
{
    if n == 0 {
        (seq![], seq![])
    } else {
        let (tokens, current) = tokens_of(text, (n - 1) as nat);
        let c = text[n - 1];
        if is_mark(c) {
            (ended(tokens, current).push(seq![c]), seq![])
        } else if text::is_space(c) {
            (ended(tokens, current), seq![])
        } else {
            (tokens, current.push(c))
        }
    }
}

/// The tokens of a script: brackets and commas, and what stands between them and
/// white space.
pub open spec fn script_words(text: Seq<char>) -> Seq<Seq<char>> {
    let (tokens, current) = tokens_of(text, text.len());
    ended(tokens, current)
}

fn end_token(tokens: &mut Vec<String>, current: &Vec<char>)
    ensures
        text::texts(final(tokens)@) == ended(text::texts(old(tokens)@), current@),
{
    if current.len() > 0 {
        let t = string_of(current);
        let ghost before = text::texts(tokens@);
        tokens.push(t);
        assert(text::texts(tokens@) =~= before.push(t@));
    }
}

/// Takes a script apart into tokens.
pub fn script_tokens(script: &Vec<char>) -> (r: Vec<String>)
    ensures
        text::texts(r@) == script_words(script@),
{
    let mut tokens: Vec<String> = Vec::new();
    let mut current: Vec<char> = Vec::new();
    let mut i: usize = 0;
    assert(text::texts(tokens@) =~= seq![]);
    assert(current@ =~= seq![]);
    while i < script.len()
        invariant
            i <= script@.len(),
            text::texts(tokens@) == tokens_of(script@, i as nat).0,
            current@ == tokens_of(script@, i as nat).1,
        decreases script@.len() - i,
    {
        let c = script[i];
        if c == '(' || c == ')' || c == ',' {
            end_token(&mut tokens, &current);
            let mut mark = String::new();
            mark.push(c);
            assert(mark@ =~= seq![c]);
            let ghost before = text::texts(tokens@);
            tokens.push(mark);
            assert(text::texts(tokens@) =~= before.push(mark@));
            current = Vec::new();
            assert(current@ =~= seq![]);
        } else if is_white_space(c) {
            end_token(&mut tokens, &current);
            current = Vec::new();
            assert(current@ =~= seq![]);
        } else {
            current.push(c);
        }
        i += 1;
    }
    end_token(&mut tokens, &current);
    tokens
}

/// Where the bracket closes that is open `depth` times before `i`.
pub open spec fn closing(tokens: Seq<Seq<char>>, i: nat, depth: nat) -> Option<int>
    decreases tokens.len() - i,
{
    if i >= tokens.len() {
        None
    } else if tokens[i as int] == "("@ {
        closing(tokens, i + 1, depth + 1)
    } else if tokens[i as int] == ")"@ {
        if depth <= 1 {
            Some(i as int)
        } else {
            closing(tokens, i + 1, (depth - 1) as nat)
        }
    } else {
        closing(tokens, i + 1, depth)
    }
}

pub proof fn lemma_closing(tokens: Seq<Seq<char>>, i: nat, depth: nat)
    ensures
        closing(tokens, i, depth) matches Some(c) ==> i <= c < tokens.len() && tokens[c] == ")"@,
    decreases tokens.len() - i,
{
    if i < tokens.len() {
        lemma_closing(tokens, i + 1, depth + 1);
        lemma_closing(tokens, i + 1, depth);
        if depth > 1 {
            lemma_closing(tokens, i + 1, (depth - 1) as nat);
        }
    }
}

/// Where the bracket closes that opens at `open`.
pub open spec fn bracket(tokens: Seq<Seq<char>>, open: nat) -> Option<int> {
    if open < tokens.len() && tokens[open as int] == "("@ {
        closing(tokens, open + 1, 1)
    } else {
        None
    }
}

/// Where the bracket closes that opens at `open`.
pub fn parenthesized(tokens: &[String], open: usize) -> (r: Option<usize>)
    ensures
        match (r, bracket(text::texts(tokens@), open as nat)) {
            (Some(c), Some(m)) => c == m && open < c < tokens@.len(),
            (None, None) => true,
            _ => false,
        },
{
    let ghost all = text::texts(tokens@);
    if open >= tokens.len() {
        return None;
    }
    assert(all[open as int] == tokens@[open as int]@);
    if !same_text(tokens[open].as_str(), "(") {
        return None;
    }
    let mut depth: usize = 1;
    let mut i: usize = open + 1;
    proof {
        reveal_strlit("(");
        reveal_strlit(")");
        assert("("@[0] != ")"@[0]);
    }
    while i < tokens.len()
        invariant
            open < i <= tokens@.len(),
            1 <= depth <= i,
            "("@ != ")"@,
            all == text::texts(tokens@),
            bracket(all, open as nat) == closing(all, (open + 1) as nat, 1),
            closing(all, i as nat, depth as nat) == closing(all, (open + 1) as nat, 1),
        decreases tokens@.len() - i,
    {
        assert(all[i as int] == tokens@[i as int]@);
        if same_text(tokens[i].as_str(), "(") {
            depth += 1;
        } else if same_text(tokens[i].as_str(), ")") {
            if depth == 1 {
                return Some(i);
            }
            depth -= 1;
        }
        i += 1;
    }
    None
}

/// What a token is.
#[derive(Debug, PartialEq, Eq, Clone, Copy, Structural)]
pub enum Word {
    /// What follows in brackets is a group of archives.
    Group,
    /// What follows in brackets are inputs.
    Input,
    /// What follows in brackets are inputs that count only when they are needed.
    AsNeeded,
    /// What follows in brackets is of no concern.
    Ignored,
    /// A bracket, a comma or a flag.
    Skipped,
    /// A library.
    Lib,
    /// A file.
    File,
}

pub open spec fn word(t: Seq<char>) -> Word {
    if t == "GROUP"@ {
        Word::Group
    } else if t == "INPUT"@ {
        Word::Input
    } else if t == "AS_NEEDED"@ {
        Word::AsNeeded
    } else if t == "OUTPUT_FORMAT"@ || t == "SEARCH_DIR"@ {
        Word::Ignored
    } else if t == "("@ || t == ")"@ || t == ","@ {
        Word::Skipped
    } else if chars::prefixed(t, "-l"@) && t.len() > 2 {
        Word::Lib
    } else if chars::prefixed(t, "-"@) {
        Word::Skipped
    } else {
        Word::File
    }
}

fn find_word(token: &str) -> (r: Word)
    ensures
        r == word(token@),
{
    if same_text(token, "GROUP") {
        return Word::Group;
    }
    if same_text(token, "INPUT") {
        return Word::Input;
    }
    if same_text(token, "AS_NEEDED") {
        return Word::AsNeeded;
    }
    if same_text(token, "OUTPUT_FORMAT") || same_text(token, "SEARCH_DIR") {
        return Word::Ignored;
    }
    if same_text(token, "(") || same_text(token, ")") || same_text(token, ",") {
        return Word::Skipped;
    }
    let c = chars_of(token);
    if c.len() > 2 && chars::starts_with(&c, "-l") {
        return Word::Lib;
    }
    if chars::starts_with(&c, "-") {
        return Word::Skipped;
    }
    Word::File
}

/// The inputs that the tokens from `i` on name, with brackets followed to any depth.
pub open spec fn collected(
    tokens: Seq<Seq<char>>,
    i: nat,
    as_needed: bool,
    library_search: LibrarySearchMode,
) -> Seq<InputModel>
    decreases tokens.len(), tokens.len() - i,
    via collected_ends
{
    if i >= tokens.len() {
        seq![]
    } else {
        let t = tokens[i as int];
        match word(t) {
            Word::Skipped => collected(tokens, i + 1, as_needed, library_search),
            Word::Lib => seq![
                InputModel::Lib { name: t.skip(2), as_needed, library_search },
            ] + collected(tokens, i + 1, as_needed, library_search),
            Word::File => seq![InputModel::File { path: t, as_needed, library_search }]
                + collected(tokens, i + 1, as_needed, library_search),
            w => match bracket(tokens, i + 1) {
                None => collected(tokens, i + 1, as_needed, library_search),
                Some(c) => {
                    let inner = tokens.subrange((i + 2) as int, c);
                    let found = match w {
                        Word::Group => seq![InputModel::GroupStart] + collected(
                            inner,
                            0,
                            as_needed,
                            library_search,
                        ) + seq![InputModel::GroupEnd],
                        Word::Input => collected(inner, 0, as_needed, library_search),
                        Word::AsNeeded => collected(inner, 0, true, library_search),
                        _ => seq![],
                    };
                    found + collected(tokens, (c + 1) as nat, as_needed, library_search)
                },
            },
        }
    }
}

#[via_fn]
proof fn collected_ends(
    tokens: Seq<Seq<char>>,
    i: nat,
    as_needed: bool,
    library_search: LibrarySearchMode,
) {
    if i + 1 < tokens.len() {
        lemma_closing(tokens, i + 2, 1);
    }
}

/// Adds the inputs that the tokens name.
pub fn collect_script_inputs(
    tokens: &[String],
    as_needed: bool,
    library_search: LibrarySearchMode,
    out: &mut Vec<LinkInput>,
)
    ensures
        elf::inputs_view(final(out)@) == elf::inputs_view(old(out)@) + collected(
            text::texts(tokens@),
            0,
            as_needed,
            library_search,
        ),
    decreases tokens@.len(),
{
    let ghost all = text::texts(tokens@);
    let ghost start = elf::inputs_view(out@);
    let ghost whole = collected(all, 0, as_needed, library_search);
    let mut i: usize = 0;
    while i < tokens.len()
        invariant
            i <= tokens@.len(),
            all == text::texts(tokens@),
            elf::inputs_view(out@) + collected(all, i as nat, as_needed, library_search) == start
                + whole,
        decreases tokens@.len() - i,
    {
        let ghost before = elf::inputs_view(out@);
        let ghost left = collected(all, i as nat, as_needed, library_search);
        assert(all[i as int] == tokens@[i as int]@);
        let w = find_word(tokens[i].as_str());
        match w {
            Word::Skipped => {
                i += 1;
            },
            Word::Lib => {
                let c = chars_of(tokens[i].as_str());
                let name = string_of(&chars::part(&c, 2, c.len()));
                assert(name@ =~= all[i as int].skip(2));
                push_input(out, LinkInput::Lib { name, as_needed, library_search });
                proof {
                    let rest = collected(all, (i + 1) as nat, as_needed, library_search);
                    assert(elf::inputs_view(out@) + rest =~= before + left);
                }
                i += 1;
            },
            Word::File => {
                push_input(
                    out,
                    LinkInput::File { path: tokens[i].clone(), as_needed, library_search },
                );
                proof {
                    let rest = collected(all, (i + 1) as nat, as_needed, library_search);
                    assert(elf::inputs_view(out@) + rest =~= before + left);
                }
                i += 1;
            },
            _ => {
                match parenthesized(tokens, i + 1) {
                    None => {
                        i += 1;
                    },
                    Some(c) => {
                        let inner = slice_subrange(tokens, i + 2, c);
                        assert(text::texts(inner@) =~= all.subrange(i + 2, c as int));
                        if w == Word::Group {
                            push_input(out, LinkInput::GroupStart);
                            collect_script_inputs(inner, as_needed, library_search, out);
                            push_input(out, LinkInput::GroupEnd);
                        } else if w == Word::Input {
                            collect_script_inputs(inner, as_needed, library_search, out);
                        } else if w == Word::AsNeeded {
                            collect_script_inputs(inner, true, library_search, out);
                        }
                        proof {
                            let rest = collected(
                                all,
                                (c + 1) as nat,
                                as_needed,
                                library_search,
                            );
                            assert(elf::inputs_view(out@) + rest =~= before + left);
                        }
                        i = c + 1;
                    },
                }
            },
        }
    }
    assert(elf::inputs_view(out@) + collected(all, i as nat, as_needed, library_search)
        =~= elf::inputs_view(out@));
}

/// The inputs that the tokens in brackets name, as a group or not.
pub open spec fn list(
    inner: Seq<Seq<char>>,
    group: bool,
    as_needed: bool,
    library_search: LibrarySearchMode,
) -> Seq<InputModel> {
    let found = collected(inner, 0, as_needed, library_search);
    if group {
        seq![InputModel::GroupStart] + found + seq![InputModel::GroupEnd]
    } else {
        found
    }
}

fn add_list(
    inner: &[String],
    group: bool,
    as_needed: bool,
    library_search: LibrarySearchMode,
    out: &mut Vec<LinkInput>,
)
    ensures
        elf::inputs_view(final(out)@) == elf::inputs_view(old(out)@) + list(
            text::texts(inner@),
            group,
            as_needed,
            library_search,
        ),
{
    let ghost before = elf::inputs_view(out@);
    if group {
        push_input(out, LinkInput::GroupStart);
        collect_script_inputs(inner, as_needed, library_search, out);
        push_input(out, LinkInput::GroupEnd);
        assert(elf::inputs_view(out@) =~= before + list(
            text::texts(inner@),
            group,
            as_needed,
            library_search,
        ));
    } else {
        collect_script_inputs(inner, as_needed, library_search, out);
    }
}

/// The inputs that the lists and groups from token `i` on name. Anything else at the
/// top of a script is of no concern.
pub open spec fn listed(
    tokens: Seq<Seq<char>>,
    i: nat,
    as_needed: bool,
    library_search: LibrarySearchMode,
) -> Seq<InputModel>
    decreases tokens.len() - i,
    via listed_ends
{
    if i >= tokens.len() {
        seq![]
    } else {
        let w = word(tokens[i as int]);
        if w != Word::Group && w != Word::Input {
            listed(tokens, i + 1, as_needed, library_search)
        } else {
            match bracket(tokens, i + 1) {
                None => listed(tokens, i + 1, as_needed, library_search),
                Some(c) => {
                    list(
                        tokens.subrange((i + 2) as int, c),
                        w == Word::Group,
                        as_needed,
                        library_search,
                    ) + listed(tokens, (c + 1) as nat, as_needed, library_search)
                },
            }
        }
    }
}

#[via_fn]
proof fn listed_ends(
    tokens: Seq<Seq<char>>,
    i: nat,
    as_needed: bool,
    library_search: LibrarySearchMode,
) {
    if i + 1 < tokens.len() {
        lemma_closing(tokens, i + 2, 1);
    }
}

/// `p` stands in `s` at `i`.
pub open spec fn stands_at(s: Seq<char>, p: Seq<char>, i: int) -> bool {
    0 <= i && i + p.len() <= s.len() && s.subrange(i, i + p.len()) == p
}

/// `p` stands somewhere in `s`.
pub open spec fn holds(s: Seq<char>, p: Seq<char>) -> bool {
    exists|i: int| stands_at(s, p, i)
}

fn contains_text(s: &Vec<char>, p: &str) -> (r: bool)
    ensures
        r == holds(s@, p@),
{
    let want = chars_of(p);
    let n: usize = want.len();
    let mut i: usize = 0;
    while i < s.len() && n <= s.len() - i
        invariant
            i <= s@.len(),
            n == p@.len(),
            want@ == p@,
            forall|k: int| 0 <= k < i ==> !#[trigger] stands_at(s@, p@, k),
        decreases s@.len() - i,
    {
        let mut k: usize = 0;
        while k < n && s[i + k] == want[k]
            invariant
                k <= n,
                n == want@.len(),
                i + n <= s@.len(),
                i + n <= usize::MAX,
                forall|c: int| 0 <= c < k ==> s@[i + c] == #[trigger] want@[c],
            decreases n - k,
        {
            k += 1;
        }
        if k == n {
            assert(s@.subrange(i as int, i + p@.len()) =~= p@);
            assert(stands_at(s@, p@, i as int));
            return true;
        }
        assert(!stands_at(s@, p@, i as int)) by {
            if stands_at(s@, p@, i as int) {
                assert(s@.subrange(i as int, i + p@.len())[k as int] == p@[k as int]);
            }
        }
        i += 1;
    }
    if n == 0 {
        assert(s@.subrange(0, 0) =~= p@);
        assert(stands_at(s@, p@, 0));
        return true;
    }
    assert forall|k: int| !#[trigger] stands_at(s@, p@, k) by {
        if 0 <= k < i {
        }
    }
    false
}

/// The inputs that a script names, if the bytes are a script that names any.
pub open spec fn script_inputs(
    bytes: Seq<u8>,
    as_needed: bool,
    library_search: LibrarySearchMode,
) -> Option<Seq<InputModel>> {
    if !vstd::utf8::valid_utf8(bytes) {
        None
    } else {
        let text = vstd::utf8::decode_utf8(bytes);
        let found = listed(
            script_words(stripped(text::utf8(text), 0)),
            0,
            as_needed,
            library_search,
        );
        if !holds(text, "GROUP"@) && !holds(text, "INPUT"@) || found.len() == 0 {
            None
        } else {
            Some(found)
        }
    }
}

fn list_inputs(
    tokens: &Vec<String>,
    as_needed: bool,
    library_search: LibrarySearchMode,
) -> (r: Vec<LinkInput>)
    ensures
        elf::inputs_view(r@) == listed(text::texts(tokens@), 0, as_needed, library_search),
{
    let ghost all = text::texts(tokens@);
    let ghost whole = listed(all, 0, as_needed, library_search);
    let tokens = tokens.as_slice();
    let mut out: Vec<LinkInput> = Vec::new();
    let mut i: usize = 0;
    assert(elf::inputs_view(out@) + whole =~= whole);
    while i < tokens.len()
        invariant
            i <= tokens@.len(),
            all == text::texts(tokens@),
            elf::inputs_view(out@) + listed(all, i as nat, as_needed, library_search) == whole,
        decreases tokens@.len() - i,
    {
        let ghost before = elf::inputs_view(out@);
        let ghost left = listed(all, i as nat, as_needed, library_search);
        assert(all[i as int] == tokens@[i as int]@);
        let w = find_word(tokens[i].as_str());
        if w != Word::Group && w != Word::Input {
            i += 1;
        } else {
            match parenthesized(tokens, i + 1) {
                None => {
                    i += 1;
                },
                Some(c) => {
                    let inner = slice_subrange(tokens, i + 2, c);
                    assert(text::texts(inner@) =~= all.subrange(i + 2, c as int));
                    add_list(inner, w == Word::Group, as_needed, library_search, &mut out);
                    proof {
                        let found = list(
                            all.subrange(i + 2, c as int),
                            w == Word::Group,
                            as_needed,
                            library_search,
                        );
                        let rest = listed(all, (c + 1) as nat, as_needed, library_search);
                        assert(left == found + rest);
                        assert((before + found) + rest =~= before + (found + rest));
                    }
                    i = c + 1;
                },
            }
        }
    }
    assert(elf::inputs_view(out@) + listed(all, i as nat, as_needed, library_search)
        =~= elf::inputs_view(out@));
    out
}

/// The inputs that a script names, each file by the name that the script gives it.
pub fn linker_script_inputs(
    bytes: &[u8],
    as_needed: bool,
    library_search: LibrarySearchMode,
) -> (r: Option<Vec<LinkInput>>)
    ensures
        match (r, script_inputs(bytes@, as_needed, library_search)) {
            (Some(v), Some(m)) => elf::inputs_view(v@) == m,
            (None, None) => true,
            _ => false,
        },
{
    match core::str::from_utf8(bytes) {
        Err(_) => None,
        Ok(text) => {
            let c = chars_of(text);
            if !contains_text(&c, "GROUP") && !contains_text(&c, "INPUT") {
                return None;
            }
            let stripped = strip_c_comments(text);
            let tokens = script_tokens(&stripped);
            let out = list_inputs(&tokens, as_needed, library_search);
            assert(out@.len() == elf::inputs_view(out@).len());
            if out.len() == 0 {
                None
            } else {
                Some(out)
            }
        },
    }
}

/// In `AS_NEEDED`, at any depth, every input counts only when it is needed.
pub proof fn law_as_needed_reaches_down(
    tokens: Seq<Seq<char>>,
    i: nat,
    library_search: LibrarySearchMode,
    k: int,
)
    requires
        0 <= k < collected(tokens, i, true, library_search).len(),
    ensures
        match collected(tokens, i, true, library_search)[k] {
            InputModel::File { as_needed, .. } => as_needed,
            InputModel::Lib { as_needed, .. } => as_needed,
            _ => true,
        },
    decreases tokens.len(), tokens.len() - i,
{
    if i < tokens.len() {
        if i + 1 < tokens.len() {
            lemma_closing(tokens, i + 2, 1);
        }
        let all = collected(tokens, i, true, library_search);
        match word(tokens[i as int]) {
            Word::Skipped => {
                law_as_needed_reaches_down(tokens, i + 1, library_search, k);
            },
            Word::Lib | Word::File => {
                if k > 0 {
                    law_as_needed_reaches_down(tokens, i + 1, library_search, k - 1);
                }
            },
            w => match bracket(tokens, i + 1) {
                None => {
                    law_as_needed_reaches_down(tokens, i + 1, library_search, k);
                },
                Some(c) => {
                    let inner = collected(
                        tokens.subrange((i + 2) as int, c),
                        0,
                        true,
                        library_search,
                    );
                    let lead: int = if w == Word::Group {
                        1
                    } else {
                        0
                    };
                    let n: int = if w == Word::Ignored {
                        0
                    } else {
                        inner.len() + 2 * lead
                    };
                    if k >= n {
                        law_as_needed_reaches_down(
                            tokens,
                            (c + 1) as nat,
                            library_search,
                            k - n,
                        );
                    } else if lead <= k < n - lead {
                        law_as_needed_reaches_down(
                            tokens.subrange((i + 2) as int, c),
                            0,
                            library_search,
                            k - lead,
                        );
                    }
                },
            },
        }
    }
}

} // verus!
