//! Paths as texts.

use vstd::prelude::*;
use crate::chars;
use crate::chars::split_on;
use crate::text;
use crate::text::{chars_of, same_text, string_between, string_of};

verus! {

/// A path taken apart.
#[verifier::ext_equal]
pub struct PathParts {
    /// It starts at the root.
    pub rooted: bool,
    /// It starts with a dot for the current directory.
    pub dotted: bool,
    /// The names on the way, without dots that lead nowhere.
    pub names: Seq<Seq<char>>,
}

/// The names among the pieces between slashes.
pub open spec fn path_names(pieces: Seq<Seq<char>>) -> Seq<Seq<char>>
    decreases pieces.len(),
{
    if pieces.len() == 0 {
        seq![]
    } else {
        let rest = path_names(pieces.drop_last());
        if pieces.last() == ""@ || pieces.last() == "."@ {
            rest
        } else {
            rest.push(pieces.last())
        }
    }
}

pub open spec fn parts_of(path: Seq<char>) -> PathParts {
    let pieces = text::split(path, '/');
    let rooted = path.len() > 0 && path.first() == '/';
    PathParts { rooted, dotted: !rooted && pieces.first() == "."@, names: path_names(pieces) }
}

/// A path taken apart.
pub struct Parts {
    pub rooted: bool,
    pub dotted: bool,
    pub names: Vec<String>,
}

impl View for Parts {
    type V = PathParts;

    open spec fn view(&self) -> PathParts {
        PathParts { rooted: self.rooted, dotted: self.dotted, names: text::texts(self.names@) }
    }
}

pub fn take_apart(path: &str) -> (r: Parts)
    ensures
        r@ == parts_of(path@),
{
    let c = chars_of(path);
    let pieces = split_on(&c, '/');
    let ghost all = chars::rows(pieces@);
    proof {
        text::lemma_split_nonempty(path@, '/');
        reveal_strlit("");
    }
    let rooted = c.len() > 0 && c[0] == '/';
    assert(all[0] == pieces@[0]@);
    let dotted = !rooted && chars::is_text(&pieces[0], ".");
    let mut names: Vec<String> = Vec::new();
    let mut i: usize = 0;
    assert(text::texts(names@) =~= seq![]);
    while i < pieces.len()
        invariant
            i <= pieces@.len(),
            all == chars::rows(pieces@),
            text::texts(names@) == path_names(all.take(i as int)),
        decreases pieces@.len() - i,
    {
        assert(all.take(i + 1).drop_last() =~= all.take(i as int));
        assert(all[i as int] == pieces@[i as int]@);
        if !chars::is_text(&pieces[i], "") && !chars::is_text(&pieces[i], ".") {
            let name = string_of(&pieces[i]);
            let ghost before = text::texts(names@);
            names.push(name);
            assert(text::texts(names@) =~= before.push(name@));
        }
        i += 1;
    }
    assert(all.take(i as int) =~= all);
    Parts { rooted, dotted, names }
}

fn same_names(a: &Vec<String>, b: &Vec<String>) -> (r: bool)
    ensures
        r == (text::texts(a@) == text::texts(b@)),
{
    if a.len() != b.len() {
        assert(text::texts(a@).len() != text::texts(b@).len());
        return false;
    }
    let mut i: usize = 0;
    while i < a.len()
        invariant
            i <= a@.len(),
            a@.len() == b@.len(),
            forall|k: int| 0 <= k < i ==> (#[trigger] a@[k])@ == b@[k]@,
        decreases a@.len() - i,
    {
        if !same_text(a[i].as_str(), b[i].as_str()) {
            assert(text::texts(a@)[i as int] != text::texts(b@)[i as int]);
            return false;
        }
        i += 1;
    }
    assert(text::texts(a@) =~= text::texts(b@));
    true
}

/// Both paths are written alike, but for repeated slashes and dots.
pub fn same_path(a: &str, b: &str) -> (r: bool)
    ensures
        r == (parts_of(a@) == parts_of(b@)),
{
    let x = take_apart(a);
    let y = take_apart(b);
    let r = x.rooted == y.rooted && x.dotted == y.dotted && same_names(&x.names, &y.names);
    assert(r == (x@ == y@)) by {
        if r {
            assert(x@ =~= y@);
        }
    }
    r
}

/// Where the last part of a path starts: behind its last slash.
pub open spec fn last_part(path: Seq<char>) -> int
    decreases path.len(),
{
    if path.len() == 0 || path.last() == '/' {
        path.len() as int
    } else {
        last_part(path.drop_last())
    }
}

proof fn lemma_last_part(path: Seq<char>)
    ensures
        0 <= last_part(path) <= path.len(),
        last_part(path) > 0 ==> path[last_part(path) - 1] == '/',
    decreases path.len(),
{
    if path.len() > 0 && path.last() != '/' {
        lemma_last_part(path.drop_last());
    }
}

/// The name of the file that a path leads to. There is none behind `..`.
pub open spec fn file_name(path: Seq<char>) -> Option<Seq<char>>
    decreases path.len(),
    via file_name_shrinks
{
    let at = last_part(path);
    let part = path.skip(at);
    if part == ""@ || part == "."@ {
        if at == 0 {
            None
        } else {
            file_name(path.take(at - 1))
        }
    } else if part == ".."@ {
        None
    } else {
        Some(part)
    }
}

#[via_fn]
proof fn file_name_shrinks(path: Seq<char>) {
    lemma_last_part(path);
}

fn find_last_part(chars: &Vec<char>, end: usize) -> (r: usize)
    requires
        end <= chars@.len(),
    ensures
        r == last_part(chars@.take(end as int)),
        r <= end,
{
    let mut at: usize = end;
    while at > 0 && chars[at - 1] != '/'
        invariant
            at <= end <= chars@.len(),
            last_part(chars@.take(end as int)) == last_part(chars@.take(at as int)),
        decreases at,
    {
        assert(chars@.take(at as int).drop_last() =~= chars@.take(at - 1));
        at -= 1;
    }
    at
}

pub fn find_file_name(path: &str) -> (r: Option<String>)
    ensures
        match r {
            Some(name) => file_name(path@) == Some(name@),
            None => file_name(path@) is None,
        },
{
    let chars = chars_of(path);
    let mut end: usize = chars.len();
    assert(chars@.take(end as int) =~= path@);
    loop
        invariant
            end <= chars@.len(),
            file_name(path@) == file_name(chars@.take(end as int)),
        decreases end,
    {
        let at: usize = find_last_part(&chars, end);
        let part = string_between(&chars, at, end);
        assert(part@ =~= chars@.take(end as int).skip(at as int));
        if same_text(part.as_str(), "") || same_text(part.as_str(), ".") {
            if at == 0 {
                return None;
            }
            assert(chars@.take(end as int).take(at - 1) =~= chars@.take(at - 1));
            end = at - 1;
        } else if same_text(part.as_str(), "..") {
            return None;
        } else {
            return Some(part);
        }
    }
}

pub open spec fn is_absolute(path: Seq<char>) -> bool {
    path.len() > 0 && path[0] == '/'
}

/// What a path leads to from a directory.
pub open spec fn joined(dir: Seq<char>, path: Seq<char>) -> Seq<char> {
    if is_absolute(path) || dir.len() == 0 {
        path
    } else if dir.last() == '/' {
        dir + path
    } else {
        dir + "/"@ + path
    }
}

pub fn join(dir: &str, path: &str) -> (r: String)
    ensures
        r@ == joined(dir@, path@),
{
    let p = chars_of(path);
    let d = chars_of(dir);
    if (p.len() > 0 && p[0] == '/') || d.len() == 0 {
        return path.to_owned();
    }
    let mut out = dir.to_owned();
    if d[d.len() - 1] != '/' {
        out.append("/");
    }
    out.append(path);
    out
}

/// How many characters stand before the names of a path: the root, or the dot for the
/// current directory.
pub open spec fn before_names(path: Seq<char>) -> nat {
    if is_absolute(path) {
        1
    } else if path.len() > 0 && path[0] == '.' && (path.len() == 1 || path[1] == '/') {
        1
    } else {
        0
    }
}

/// Where the last part of a path starts, behind what stands before the names.
pub open spec fn part_start(path: Seq<char>, lead: nat, end: nat) -> int {
    let at = last_part(path.take(end as int));
    if at < lead {
        lead as int
    } else {
        at
    }
}

/// Where a path ends without the slashes and dots at its end that lead nowhere.
pub open spec fn names_end(path: Seq<char>, lead: nat, end: nat) -> nat
    decreases end,
    when lead <= end <= path.len()
    via names_end_shrinks
{
    let at = part_start(path, lead, end);
    let part = path.subrange(at, end as int);
    if end == lead || part.len() > 0 && part != "."@ {
        end
    } else {
        names_end(path, lead, (if at > lead {
            at - 1
        } else {
            lead as int
        }) as nat)
    }
}

#[via_fn]
proof fn names_end_shrinks(path: Seq<char>, lead: nat, end: nat) {
    lemma_last_part(path.take(end as int));
    reveal_strlit(".");
}

proof fn lemma_names_end(path: Seq<char>, lead: nat, end: nat)
    requires
        lead <= end <= path.len(),
    ensures
        lead <= names_end(path, lead, end) <= end,
    decreases end,
{
    lemma_last_part(path.take(end as int));
    reveal_strlit(".");
    let at = part_start(path, lead, end);
    let part = path.subrange(at, end as int);
    if !(end == lead || part.len() > 0 && part != "."@) {
        lemma_names_end(
            path,
            lead,
            (if at > lead {
                at - 1
            } else {
                lead as int
            }) as nat,
        );
    }
}

/// A path taken apart before its last name.
#[verifier::ext_equal]
pub struct StepModel {
    pub parent: Seq<char>,
    pub name: Seq<char>,
}

/// The last step of a path. There is none at the root or in an empty path.
pub open spec fn last_step(path: Seq<char>) -> Option<StepModel> {
    let lead = before_names(path);
    let end = names_end(path, lead, path.len());
    if end > lead {
        let at = part_start(path, lead, end);
        let rest = if at > lead {
            at - 1
        } else {
            lead as int
        };
        Some(
            StepModel {
                parent: path.take(names_end(path, lead, rest as nat) as int),
                name: path.subrange(at, end as int),
            },
        )
    } else if lead == 1 && !is_absolute(path) {
        Some(StepModel { parent: seq![], name: "."@ })
    } else {
        None
    }
}

/// The last step of a path.
pub struct Step {
    pub parent: String,
    pub name: String,
}

impl View for Step {
    type V = StepModel;

    open spec fn view(&self) -> StepModel {
        StepModel { parent: self.parent@, name: self.name@ }
    }
}

fn find_part_start(c: &Vec<char>, lead: usize, end: usize) -> (r: usize)
    requires
        lead <= end <= c@.len(),
    ensures
        r == part_start(c@, lead as nat, end as nat),
        lead <= r <= end,
{
    let at: usize = find_last_part(c, end);
    if at < lead {
        lead
    } else {
        at
    }
}

fn find_names_end(c: &Vec<char>, lead: usize, end: usize) -> (r: usize)
    requires
        lead <= end <= c@.len(),
    ensures
        r == names_end(c@, lead as nat, end as nat),
        lead <= r <= end,
{
    let mut e: usize = end;
    proof {
        lemma_names_end(c@, lead as nat, end as nat);
        reveal_strlit(".");
    }
    while e > lead
        invariant
            lead <= e <= end <= c@.len(),
            "."@.len() == 1,
            "."@[0] == '.',
            names_end(c@, lead as nat, e as nat) == names_end(c@, lead as nat, end as nat),
        ensures
            lead <= e <= end,
            e == names_end(c@, lead as nat, end as nat),
        decreases e,
    {
        let at: usize = find_part_start(c, lead, e);
        let ghost part = c@.subrange(at as int, e as int);
        let dot = e - at == 1 && c[at] == '.';
        assert(dot == (part == "."@)) by {
            if dot {
                assert(part =~= "."@);
            }
        }
        if at < e && !dot {
            break;
        }
        if at > lead {
            e = at - 1;
        } else {
            e = lead;
        }
    }
    e
}

pub fn find_last_step(path: &str) -> (r: Option<Step>)
    ensures
        match (r, last_step(path@)) {
            (Some(s), Some(m)) => s@ == m,
            (None, None) => true,
            _ => false,
        },
{
    let c = chars_of(path);
    let n: usize = c.len();
    let rooted = n > 0 && c[0] == '/';
    let dotted = n > 0 && c[0] == '.' && (n == 1 || c[1] == '/');
    let lead: usize = if rooted || dotted {
        1
    } else {
        0
    };
    let end: usize = find_names_end(&c, lead, n);
    if end > lead {
        let at: usize = find_part_start(&c, lead, end);
        let rest: usize = if at > lead {
            at - 1
        } else {
            lead
        };
        let stop: usize = find_names_end(&c, lead, rest);
        let parent = string_between(&c, 0, stop);
        assert(parent@ =~= path@.take(stop as int));
        let name = string_between(&c, at, end);
        Some(Step { parent, name })
    } else if dotted {
        let parent = String::new();
        assert(parent@ =~= seq![]);
        Some(Step { parent, name: ".".to_owned() })
    } else {
        None
    }
}

/// The names of a path with each step upwards taken. Above the start there is nothing.
pub open spec fn climbed(names: Seq<Seq<char>>) -> Seq<Seq<char>>
    decreases names.len(),
{
    if names.len() == 0 {
        seq![]
    } else {
        let rest = climbed(names.drop_last());
        if names.last() != ".."@ {
            rest.push(names.last())
        } else if rest.len() > 0 {
            rest.drop_last()
        } else {
            rest
        }
    }
}

/// Names with slashes between them.
pub open spec fn slashed(names: Seq<Seq<char>>) -> Seq<char>
    decreases names.len(),
{
    if names.len() == 0 {
        seq![]
    } else if names.len() == 1 {
        names[0]
    } else {
        slashed(names.drop_last()) + "/"@ + names.last()
    }
}

/// A path without dots, and with each step upwards taken in the text.
pub open spec fn normal_path(path: Seq<char>) -> Seq<char> {
    let parts = parts_of(path);
    let names = slashed(climbed(parts.names));
    if parts.rooted {
        "/"@ + names
    } else {
        names
    }
}

/// A path without dots, and with each step upwards taken in the text.
pub fn normalize_lexically(path: &str) -> (r: String)
    ensures
        r@ == normal_path(path@),
{
    let parts = take_apart(path);
    let ghost all = text::texts(parts.names@);
    let mut names: Vec<String> = Vec::new();
    let mut i: usize = 0;
    assert(text::texts(names@) =~= seq![]);
    while i < parts.names.len()
        invariant
            i <= parts.names@.len(),
            all == text::texts(parts.names@),
            text::texts(names@) == climbed(all.take(i as int)),
        decreases parts.names@.len() - i,
    {
        assert(all.take(i + 1).drop_last() =~= all.take(i as int));
        assert(all[i as int] == parts.names@[i as int]@);
        let ghost before = text::texts(names@);
        if !same_text(parts.names[i].as_str(), "..") {
            let name = parts.names[i].clone();
            names.push(name);
            assert(text::texts(names@) =~= before.push(name@));
        } else if names.len() > 0 {
            let _ = names.pop();
            assert(text::texts(names@) =~= before.drop_last());
        }
        i += 1;
    }
    assert(all.take(i as int) =~= all);
    let body = join_slashed(&names);
    if parts.rooted {
        let mut out = "/".to_owned();
        out.append(body.as_str());
        out
    } else {
        body
    }
}

fn join_slashed(names: &Vec<String>) -> (r: String)
    ensures
        r@ == slashed(text::texts(names@)),
{
    let ghost all = text::texts(names@);
    if names.len() == 0 {
        let none = String::new();
        assert(none@ =~= seq![]);
        return none;
    }
    let mut out = names[0].clone();
    assert(all[0] == names@[0]@);
    assert(all.take(1).len() == 1 && all.take(1)[0] == all[0]);
    let mut i: usize = 1;
    while i < names.len()
        invariant
            1 <= i <= names@.len(),
            all == text::texts(names@),
            out@ == slashed(all.take(i as int)),
        decreases names@.len() - i,
    {
        assert(all.take(i + 1).drop_last() =~= all.take(i as int));
        assert(all[i as int] == names@[i as int]@);
        out.append("/");
        out.append(names[i].as_str());
        i += 1;
    }
    assert(all.take(i as int) =~= all);
    out
}

/// No step upwards is left, and taking them again changes nothing.
pub proof fn law_climbed_stays(names: Seq<Seq<char>>)
    ensures
        forall|i: int| 0 <= i < climbed(names).len() ==> #[trigger] climbed(names)[i] != ".."@,
        climbed(climbed(names)) == climbed(names),
    decreases names.len(),
{
    lemma_climbed(names);
    lemma_no_climb(climbed(names));
}

proof fn lemma_climbed(names: Seq<Seq<char>>)
    ensures
        forall|i: int| 0 <= i < climbed(names).len() ==> #[trigger] climbed(names)[i] != ".."@,
    decreases names.len(),
{
    if names.len() > 0 {
        lemma_climbed(names.drop_last());
        let rest = climbed(names.drop_last());
        let all = climbed(names);
        assert forall|i: int| 0 <= i < all.len() implies #[trigger] all[i] != ".."@ by {
            if i < rest.len() {
                assert(all[i] == rest[i]);
            }
        }
    }
}

proof fn lemma_no_climb(names: Seq<Seq<char>>)
    requires
        forall|i: int| 0 <= i < names.len() ==> #[trigger] names[i] != ".."@,
    ensures
        climbed(names) == names,
    decreases names.len(),
{
    if names.len() > 0 {
        assert forall|i: int| 0 <= i < names.drop_last().len() implies #[trigger] names.drop_last()[i]
            != ".."@ by {
            assert(names.drop_last()[i] == names[i]);
        }
        lemma_no_climb(names.drop_last());
        assert(names[names.len() - 1] != ".."@);
        assert(names =~= names.drop_last().push(names.last()));
    }
}

proof fn lemma_part_behind(front: Seq<char>, name: Seq<char>)
    requires
        front.len() == 0 || front.last() == '/',
        forall|i: int| 0 <= i < name.len() ==> name[i] != '/',
    ensures
        last_part(front + name) == front.len(),
    decreases name.len(),
{
    let s = front + name;
    if name.len() == 0 {
        assert(s =~= front);
    } else {
        let rest = name.drop_last();
        assert(s.drop_last() =~= front + rest);
        assert(s.last() == name.last());
        assert(name.last() == name[name.len() - 1]);
        lemma_part_behind(front, rest);
    }
}

/// What a name leads to from a directory is a file of that name.
pub proof fn law_joined_name(dir: Seq<char>, name: Seq<char>)
    requires
        name.len() > 0,
        forall|i: int| 0 <= i < name.len() ==> name[i] != '/',
        name != "."@,
        name != ".."@,
    ensures
        file_name(joined(dir, name)) == Some(name),
        dir.len() > 0 ==> dir.is_prefix_of(joined(dir, name)),
{
    reveal_strlit("/");
    reveal_strlit("");
    let front = if dir.len() == 0 || dir.last() == '/' {
        dir
    } else {
        dir + "/"@
    };
    let path = joined(dir, name);
    assert(name[0] != '/');
    assert(path =~= front + name);
    lemma_part_behind(front, name);
    assert(path.skip(front.len() as int) =~= name);
    assert(""@.len() == 0);
}

} // verus!
