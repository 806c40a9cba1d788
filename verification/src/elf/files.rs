//! The files of an ELF link: where they are looked for and what they hold.

use vstd::prelude::*;
use crate::elf;
use crate::elf::script;
use crate::elf::script::linker_script_inputs;
use crate::elf::{InputModel, LibrarySearchMode, LinkInput};
use crate::path;
use crate::path::{find_last_step, join};
use crate::text;
use crate::text::{chars_of, same_text};

verus! {

/// The file name of a library.
pub open spec fn library_file(name: Seq<char>, extension: Seq<char>) -> Seq<char> {
    "lib"@ + name + "."@ + extension
}

/// Where a library may be, in the order of the search directories. Where shared
/// objects are preferred, each directory is searched for one first.
pub open spec fn library_paths(name: Seq<char>, dirs: Seq<Seq<char>>, shared: bool) -> Seq<
    Seq<char>,
>
    decreases dirs.len(),
{
    if dirs.len() == 0 {
        seq![]
    } else {
        let rest = library_paths(name, dirs.drop_last(), shared);
        let archive = path::joined(dirs.last(), library_file(name, "a"@));
        if shared {
            rest.push(path::joined(dirs.last(), library_file(name, "so"@))).push(archive)
        } else {
            rest.push(archive)
        }
    }
}

fn make_library_file(name: &str, extension: &str) -> (r: String)
    ensures
        r@ == library_file(name@, extension@),
{
    let mut out = "lib".to_owned();
    out.append(name);
    out.append(".");
    out.append(extension);
    out
}

fn push_text(out: &mut Vec<String>, s: String)
    ensures
        text::texts(final(out)@) == text::texts(old(out)@).push(s@),
{
    out.push(s);
    assert(text::texts(out@) =~= text::texts(old(out)@).push(s@));
}

/// Where a library may be.
pub fn library_candidates(name: &str, lib_dirs: &[String], shared: bool) -> (r: Vec<String>)
    ensures
        text::texts(r@) == library_paths(name@, text::texts(lib_dirs@), shared),
{
    let ghost all = text::texts(lib_dirs@);
    let mut out: Vec<String> = Vec::new();
    let mut i: usize = 0;
    assert(text::texts(out@) =~= seq![]);
    assert(all.take(0).len() == 0);
    while i < lib_dirs.len()
        invariant
            i <= lib_dirs@.len(),
            all == text::texts(lib_dirs@),
            text::texts(out@) == library_paths(name@, all.take(i as int), shared),
        decreases lib_dirs@.len() - i,
    {
        assert(all.take(i + 1).drop_last() =~= all.take(i as int));
        assert(all[i as int] == lib_dirs@[i as int]@);
        let dir = lib_dirs[i].as_str();
        if shared {
            push_text(&mut out, join(dir, make_library_file(name, "so").as_str()));
        }
        push_text(&mut out, join(dir, make_library_file(name, "a").as_str()));
        i += 1;
    }
    assert(all.take(i as int) =~= all);
    out
}

/// A static link takes archives alone, a dynamic one what the request prefers.
pub open spec fn wants_shared(dynamic: bool, library_search: LibrarySearchMode) -> bool {
    dynamic && library_search == LibrarySearchMode::DynamicPreferred
}

/// Where a library of a link may be.
pub fn resolve_candidates(
    name: &str,
    lib_dirs: &[String],
    dynamic: bool,
    library_search: LibrarySearchMode,
) -> (r: Vec<String>)
    ensures
        text::texts(r@) == library_paths(
            name@,
            text::texts(lib_dirs@),
            wants_shared(dynamic, library_search),
        ),
{
    let shared = dynamic && library_search == LibrarySearchMode::DynamicPreferred;
    library_candidates(name, lib_dirs, shared)
}

/// Where a file that a script names may be: beside the script, then in the search
/// directories. An absolute path is taken as it is.
pub open spec fn script_paths(script: Seq<char>, token: Seq<char>, dirs: Seq<Seq<char>>) -> Seq<
    Seq<char>,
> {
    if path::is_absolute(token) {
        seq![]
    } else {
        (match path::last_step(script) {
            Some(step) => seq![path::joined(step.parent, token)],
            None => seq![],
        }) + dirs.map_values(|d: Seq<char>| path::joined(d, token))
    }
}

/// Where a file that a script names may be.
pub fn script_candidates(script: &str, token: &str, lib_dirs: &[String]) -> (r: Vec<String>)
    ensures
        text::texts(r@) == script_paths(script@, token@, text::texts(lib_dirs@)),
{
    let ghost dirs = text::texts(lib_dirs@);
    let mut out: Vec<String> = Vec::new();
    assert(text::texts(out@) =~= seq![]);
    let t = chars_of(token);
    if t.len() > 0 && t[0] == '/' {
        return out;
    }
    if let Some(step) = find_last_step(script) {
        push_text(&mut out, join(step.parent.as_str(), token));
    }
    let ghost first = text::texts(out@);
    let ghost there = dirs.map_values(|d: Seq<char>| path::joined(d, token@));
    let mut i: usize = 0;
    assert(first =~= first + there.take(0));
    while i < lib_dirs.len()
        invariant
            i <= lib_dirs@.len(),
            dirs == text::texts(lib_dirs@),
            there == dirs.map_values(|d: Seq<char>| path::joined(d, token@)),
            text::texts(out@) == first + there.take(i as int),
        decreases lib_dirs@.len() - i,
    {
        assert(dirs[i as int] == lib_dirs@[i as int]@);
        push_text(&mut out, join(lib_dirs[i].as_str(), token));
        assert(text::texts(out@) =~= first + there.take(i + 1));
        i += 1;
    }
    assert(there.take(i as int) =~= there);
    assert(first =~= match path::last_step(script@) {
        Some(step) => seq![path::joined(step.parent, token@)],
        None => seq![],
    });
    out
}

/// The place of the first `true`.
pub open spec fn first_present(present: Seq<bool>, i: nat) -> Option<int>
    decreases present.len() - i,
{
    if i >= present.len() {
        None
    } else if present[i as int] {
        Some(i as int)
    } else {
        first_present(present, i + 1)
    }
}

/// The first of the candidates that is there.
pub fn choose_present(candidates: &Vec<String>, present: &Vec<bool>) -> (r: Option<String>)
    requires
        candidates@.len() == present@.len(),
    ensures
        match (r, first_present(present@, 0)) {
            (Some(s), Some(i)) => 0 <= i < candidates@.len() && s@ == candidates@[i]@,
            (None, None) => true,
            _ => false,
        },
{
    let mut i: usize = 0;
    while i < present.len()
        invariant
            i <= present@.len(),
            candidates@.len() == present@.len(),
            first_present(present@, i as nat) == first_present(present@, 0),
        decreases present@.len() - i,
    {
        if present[i] {
            return Some(candidates[i].clone());
        }
        i += 1;
    }
    None
}

/// What is said of a library that is nowhere.
pub open spec fn missing_library(name: Seq<char>) -> Seq<char> {
    "unable to find library -l"@ + name
}

pub fn missing_library_message(name: &str) -> (r: String)
    ensures
        r@ == missing_library(name@),
{
    let mut out = "unable to find library -l".to_owned();
    out.append(name);
    out
}

/// The bytes that an archive starts with.
pub open spec fn archive_magic() -> Seq<u8> {
    seq![0x21u8, 0x3c, 0x61, 0x72, 0x63, 0x68, 0x3e, 0x0a]
}

/// The bytes that an archive starts with whose members are files of their own.
pub open spec fn thin_magic() -> Seq<u8> {
    seq![0x21u8, 0x3c, 0x74, 0x68, 0x69, 0x6e, 0x3e, 0x0a]
}

/// The bytes that an ELF file starts with.
pub open spec fn elf_magic() -> Seq<u8> {
    seq![0x7fu8, 0x45, 0x4c, 0x46]
}

pub open spec fn leads(bytes: Seq<u8>, magic: Seq<u8>) -> bool {
    magic.len() <= bytes.len() && bytes.take(magic.len() as int) == magic
}

pub open spec fn is_archive(bytes: Seq<u8>) -> bool {
    leads(bytes, archive_magic()) || leads(bytes, thin_magic())
}

pub open spec fn is_elf(bytes: Seq<u8>) -> bool {
    leads(bytes, elf_magic())
}

fn has_lead(bytes: &[u8], magic: &[u8]) -> (r: bool)
    ensures
        r == leads(bytes@, magic@),
{
    if magic.len() > bytes.len() {
        return false;
    }
    let mut i: usize = 0;
    while i < magic.len()
        invariant
            i <= magic@.len() <= bytes@.len(),
            forall|k: int| 0 <= k < i ==> bytes@[k] == #[trigger] magic@[k],
        decreases magic@.len() - i,
    {
        if bytes[i] != magic[i] {
            assert(bytes@.take(magic@.len() as int)[i as int] != magic@[i as int]);
            return false;
        }
        i += 1;
    }
    assert(bytes@.take(magic@.len() as int) =~= magic@);
    true
}

pub fn starts_archive(bytes: &[u8]) -> (r: bool)
    ensures
        r == is_archive(bytes@),
{
    let magic: [u8; 8] = [0x21, 0x3c, 0x61, 0x72, 0x63, 0x68, 0x3e, 0x0a];
    let thin: [u8; 8] = [0x21, 0x3c, 0x74, 0x68, 0x69, 0x6e, 0x3e, 0x0a];
    assert(magic@ =~= archive_magic());
    assert(thin@ =~= thin_magic());
    has_lead(bytes, magic.as_slice()) || has_lead(bytes, thin.as_slice())
}

pub fn starts_elf(bytes: &[u8]) -> (r: bool)
    ensures
        r == is_elf(bytes@),
{
    let magic: [u8; 4] = [0x7f, 0x45, 0x4c, 0x46];
    assert(magic@ =~= elf_magic());
    has_lead(bytes, magic.as_slice())
}

/// The number that the digits from `i` to the first space say, behind `so_far`.
pub open spec fn number_from(s: Seq<u8>, i: int, end: int, so_far: nat) -> Option<nat>
    decreases end - i,
{
    if i >= end || s[i] == 0x20 {
        Some(so_far)
    } else if 0x30 <= s[i] <= 0x39 {
        number_from(s, i + 1, end, so_far * 10 + (s[i] - 0x30) as nat)
    } else {
        None
    }
}

/// The size of an archive member's header.
pub const MEMBER_HEADER_SIZE: usize = 60;

/// Where the contents of the member at `at` start: behind the header, and behind the
/// name where that follows the header.
pub open spec fn contents_start(s: Seq<u8>, at: int) -> Option<int> {
    if s.subrange(at, at + 3) == seq![0x23u8, 0x31, 0x2f] {
        match number_from(s, at + 3, at + 16, 0) {
            Some(n) => Some(at + 60 + n),
            None => None,
        }
    } else {
        Some(at + 60)
    }
}

/// A member from `at` on is an ELF file.
pub open spec fn elf_member_from(s: Seq<u8>, at: int) -> bool
    decreases s.len() + 1 - at,
    when 0 <= at
{
    if at + 60 > s.len() {
        false
    } else {
        match (contents_start(s, at), number_from(s, at + 48, at + 58, 0)) {
            (Some(start), Some(size)) => at + 60 + size <= s.len() && (start <= at + 60 + size
                && is_elf(s.subrange(start, at + 60 + size)) || elf_member_from(
                s,
                at + 60 + size + size % 2,
            )),
            _ => false,
        }
    }
}

/// The file is an archive with its members inside, and one of them is an ELF file.
pub open spec fn holds_elf(s: Seq<u8>) -> bool {
    s.len() >= 8 && s.take(8) == archive_magic() && elf_member_from(s, 8)
}

fn read_number(bytes: &[u8], from: usize, end: usize) -> (r: Option<u64>)
    requires
        from <= end <= bytes@.len(),
        end - from <= 16,
    ensures
        match (r, number_from(bytes@, from as int, end as int, 0)) {
            (Some(n), Some(m)) => n == m && n < 10_000_000_000_000_000,
            (None, None) => true,
            _ => false,
        },
{
    let mut n: u64 = 0;
    let mut i: usize = from;
    let mut limit: u64 = 1;
    while i < end && bytes[i] != 0x20
        invariant
            from <= i <= end <= bytes@.len(),
            end - from <= 16,
            n < limit,
            limit == pow10((i - from) as nat),
            limit <= 10_000_000_000_000_000,
            number_from(bytes@, from as int, end as int, 0) == number_from(
                bytes@,
                i as int,
                end as int,
                n as nat,
            ),
        decreases end - i,
    {
        if bytes[i] < 0x30 || bytes[i] > 0x39 {
            return None;
        }
        proof {
            lemma_pow10_bound((i + 1 - from) as nat);
        }
        n = n * 10 + (bytes[i] - 0x30) as u64;
        limit = limit * 10;
        i += 1;
    }
    Some(n)
}

spec fn pow10(n: nat) -> nat
    decreases n,
{
    if n == 0 {
        1
    } else {
        10 * pow10((n - 1) as nat)
    }
}

proof fn lemma_pow10_bound(n: nat)
    requires
        n <= 16,
    ensures
        pow10(n) <= 10_000_000_000_000_000,
{
    reveal_with_fuel(pow10, 17);
}

/// Whether an archive has a member that is an ELF file. The members of a thin archive
/// are other files.
pub fn archive_holds_elf(bytes: &[u8]) -> (r: bool)
    ensures
        r == holds_elf(bytes@),
{
    let magic: [u8; 8] = [0x21, 0x3c, 0x61, 0x72, 0x63, 0x68, 0x3e, 0x0a];
    assert(magic@ =~= archive_magic());
    if !has_lead(bytes, magic.as_slice()) {
        return false;
    }
    assert(bytes.len() == bytes@.len());
    let mut at: usize = 8;
    while at <= bytes.len() && MEMBER_HEADER_SIZE <= bytes.len() - at
        invariant
            8 <= at <= bytes@.len() + 1,
            bytes@.len() <= usize::MAX,
            holds_elf(bytes@) == elf_member_from(bytes@, 8),
            elf_member_from(bytes@, 8) == elf_member_from(bytes@, at as int),
        decreases bytes@.len() + 60 - at,
    {
        let size: u64 = match read_number(bytes, at + 48, at + 58) {
            Some(size) => size,
            None => return false,
        };
        let named: bool = bytes[at] == 0x23 && bytes[at + 1] == 0x31 && bytes[at + 2] == 0x2f;
        assert(named == (bytes@.subrange(at as int, at + 3) == seq![0x23u8, 0x31, 0x2f])) by {
            let lead = bytes@.subrange(at as int, at + 3);
            if named {
                assert(lead =~= seq![0x23u8, 0x31, 0x2f]);
            } else {
                assert(lead[0] == bytes@[at as int] && lead[1] == bytes@[at + 1] && lead[2]
                    == bytes@[at + 2]);
            }
        }
        let name: u64 = if named {
            match read_number(bytes, at + 3, at + 16) {
                Some(n) => n,
                None => return false,
            }
        } else {
            0
        };
        let body: usize = at + MEMBER_HEADER_SIZE;
        let left: u64 = (bytes.len() - body) as u64;
        if size > left {
            return false;
        }
        let end: usize = body + size as usize;
        if name <= size {
            let part = vstd::slice::slice_subrange(bytes, body + name as usize, end);
            if starts_elf(part) {
                return true;
            }
        }
        if size % 2 == 1 && end == bytes.len() {
            assert(!elf_member_from(bytes@, (bytes@.len() + 1) as int));
            return false;
        }
        at = end + (size % 2) as usize;
    }
    false
}

/// What a file is to a link.
#[derive(Debug)]
pub enum FileRole {
    Archive,
    Object,
    Shared,
    /// A script that names these inputs.
    Script(Vec<LinkInput>),
}

/// `FileRole` by its contents.
#[verifier::ext_equal]
pub enum RoleModel {
    Archive,
    Object,
    Shared,
    Script(Seq<InputModel>),
}

impl View for FileRole {
    type V = RoleModel;

    open spec fn view(&self) -> RoleModel {
        match self {
            FileRole::Archive => RoleModel::Archive,
            FileRole::Object => RoleModel::Object,
            FileRole::Shared => RoleModel::Shared,
            FileRole::Script(inputs) => RoleModel::Script(elf::inputs_view(inputs@)),
        }
    }
}

/// What is neither an archive nor an ELF file is a script, or else taken for an object
/// that cannot be read.
pub open spec fn text_role(
    bytes: Seq<u8>,
    as_needed: bool,
    library_search: LibrarySearchMode,
) -> RoleModel {
    match script::script_inputs(bytes, as_needed, library_search) {
        Some(inputs) => RoleModel::Script(inputs),
        None => RoleModel::Object,
    }
}

/// What a file is to a static link.
pub open spec fn static_role(bytes: Seq<u8>, library_search: LibrarySearchMode) -> RoleModel {
    if is_archive(bytes) {
        RoleModel::Archive
    } else if is_elf(bytes) {
        RoleModel::Object
    } else {
        text_role(bytes, false, library_search)
    }
}

/// What a file is to a dynamic link: the type in its header tells a shared object.
pub open spec fn dynamic_role(
    bytes: Seq<u8>,
    as_needed: bool,
    library_search: LibrarySearchMode,
) -> RoleModel {
    if is_archive(bytes) {
        RoleModel::Archive
    } else if bytes.len() >= 18 && is_elf(bytes) {
        if bytes[16] == 3 && bytes[17] == 0 {
            RoleModel::Shared
        } else {
            RoleModel::Object
        }
    } else {
        text_role(bytes, as_needed, library_search)
    }
}

fn find_text_role(bytes: &[u8], as_needed: bool, library_search: LibrarySearchMode) -> (r: FileRole)
    ensures
        r@ == text_role(bytes@, as_needed, library_search),
{
    match linker_script_inputs(bytes, as_needed, library_search) {
        Some(inputs) => FileRole::Script(inputs),
        None => FileRole::Object,
    }
}

/// What a file is to a static link.
pub fn static_file_role(bytes: &[u8], library_search: LibrarySearchMode) -> (r: FileRole)
    ensures
        r@ == static_role(bytes@, library_search),
{
    if starts_archive(bytes) {
        FileRole::Archive
    } else if starts_elf(bytes) {
        FileRole::Object
    } else {
        find_text_role(bytes, false, library_search)
    }
}

/// What a file is to a dynamic link.
pub fn dynamic_file_role(
    bytes: &[u8],
    as_needed: bool,
    library_search: LibrarySearchMode,
) -> (r: FileRole)
    ensures
        r@ == dynamic_role(bytes@, as_needed, library_search),
{
    if starts_archive(bytes) {
        FileRole::Archive
    } else if bytes.len() >= 18 && starts_elf(bytes) {
        if bytes[16] == 3 && bytes[17] == 0 {
            FileRole::Shared
        } else {
            FileRole::Object
        }
    } else {
        find_text_role(bytes, as_needed, library_search)
    }
}

/// The scripts that are being read, from the outermost to the innermost. None is
/// among them twice.
pub struct ScriptStack {
    open: Vec<String>,
}

impl View for ScriptStack {
    type V = Seq<Seq<char>>;

    closed spec fn view(&self) -> Seq<Seq<char>> {
        text::texts(self.open@)
    }
}

impl ScriptStack {
    pub open spec fn wf(self) -> bool {
        self@.no_duplicates()
    }

    pub fn new() -> (r: ScriptStack)
        ensures
            r@ == Seq::<Seq<char>>::empty(),
            r.wf(),
    {
        let r = ScriptStack { open: Vec::new() };
        assert(r@ =~= Seq::<Seq<char>>::empty());
        r
    }

    /// Starts on a script, unless it is being read already.
    pub fn enter(&mut self, identity: String) -> (r: bool)
        requires
            old(self).wf(),
        ensures
            final(self).wf(),
            r == !old(self)@.contains(identity@),
            final(self)@ == if r {
                old(self)@.push(identity@)
            } else {
                old(self)@
            },
    {
        let ghost all = self@;
        let mut i: usize = 0;
        while i < self.open.len()
            invariant
                i <= self.open@.len(),
                all == text::texts(self.open@),
                all == old(self)@,
                all.no_duplicates(),
                *self == *old(self),
                forall|k: int| 0 <= k < i ==> #[trigger] all[k] != identity@,
            decreases self.open@.len() - i,
        {
            assert(all[i as int] == self.open@[i as int]@);
            if same_text(self.open[i].as_str(), identity.as_str()) {
                assert(all.contains(identity@));
                return false;
            }
            i += 1;
        }
        self.open.push(identity);
        assert(self@ =~= all.push(identity@));
        proof {
            let after = all.push(identity@);
            assert forall|a: int, b: int|
                0 <= a < after.len() && 0 <= b < after.len() && a != b implies after[a] != after[b] by {
                if a < all.len() && b < all.len() {
                    assert(all[a] != all[b]);
                }
            }
        }
        true
    }

    /// Is done with the innermost script.
    pub fn leave(&mut self)
        requires
            old(self).wf(),
            old(self)@.len() > 0,
        ensures
            final(self).wf(),
            final(self)@ == old(self)@.drop_last(),
    {
        let ghost all = self@;
        let _ = self.open.pop();
        assert(self@ =~= all.drop_last());
    }
}

/// A script that was entered and left leaves the others as they were.
pub proof fn law_enter_and_leave(stack: Seq<Seq<char>>, identity: Seq<char>)
    ensures
        stack.push(identity).drop_last() == stack,
{
    assert(stack.push(identity).drop_last() =~= stack);
}

/// What is said of a script that leads back to itself.
pub open spec fn script_cycle(script: Seq<char>) -> Seq<char> {
    "linker script cycle involving "@ + script
}

pub fn script_cycle_message(script: &str) -> (r: String)
    ensures
        r@ == script_cycle(script@),
{
    let mut out = "linker script cycle involving ".to_owned();
    out.append(script);
    out
}

} // verus!
