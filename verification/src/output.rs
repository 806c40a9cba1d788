//! Decisions about the file that an image is written to.

use vstd::prelude::*;
use crate::path;
use crate::path::{find_last_step, join, normalize_lexically, same_path};
use crate::text;
use crate::text::{dec_string, hex_string_padded};

verus! {

/// Which permissions the new file gets.
#[derive(Debug, Clone, Copy, PartialEq, Eq, Structural)]
pub enum PermissionMode {
    /// Those of the file it replaces.
    Preserve,
    /// Those, and the right to execute wherever there is the right to read.
    AddExecute,
    /// Exactly these.
    Exact(u32),
}

/// A mode with the right to execute wherever there is the right to read.
pub open spec fn with_execute(mode: u32) -> u32 {
    mode | ((mode & 0o444) >> 2u32)
}

/// The mode that the new file is given, from the mode of the file it replaces and the
/// mode that it was made with. `None` leaves it as it was made.
pub open spec fn mode_for(mode: PermissionMode, existing: Option<u32>, made: u32) -> Option<u32> {
    match mode {
        PermissionMode::Preserve => match existing {
            Some(m) => Some(m & 0o777),
            None => None,
        },
        PermissionMode::AddExecute => Some(
            with_execute(
                match existing {
                    Some(m) => m & 0o777,
                    None => made & 0o777,
                },
            ),
        ),
        PermissionMode::Exact(m) => Some(m),
    }
}

/// The mode that the new file is given.
pub fn output_mode(mode: PermissionMode, existing: Option<u32>, made: u32) -> (r: Option<u32>)
    ensures
        r == mode_for(mode, existing, made),
{
    match mode {
        PermissionMode::Preserve => match existing {
            Some(m) => Some(m & 0o777),
            None => None,
        },
        PermissionMode::AddExecute => {
            let base: u32 = match existing {
                Some(m) => m & 0o777,
                None => made & 0o777,
            };
            Some(base | ((base & 0o444) >> 2u32))
        },
        PermissionMode::Exact(m) => Some(m),
    }
}

/// Adding the right to execute takes no right away, gives it to exactly those who may
/// read or had it, and changes nothing when it is done again.
pub proof fn law_execute_follows_read(mode: u32)
    ensures
        with_execute(mode) & 0o666 == mode & 0o666,
        with_execute(mode) & 0o100 != 0 <==> mode & 0o400 != 0 || mode & 0o100 != 0,
        with_execute(mode) & 0o010 != 0 <==> mode & 0o040 != 0 || mode & 0o010 != 0,
        with_execute(mode) & 0o001 != 0 <==> mode & 0o004 != 0 || mode & 0o001 != 0,
        with_execute(with_execute(mode)) == with_execute(mode),
{
    let after = with_execute(mode);
    assert(after & 0o666 == mode & 0o666 && (after & 0o100 != 0 <==> mode & 0o400 != 0 || mode
        & 0o100 != 0) && (after & 0o010 != 0 <==> mode & 0o040 != 0 || mode & 0o010 != 0) && (after
        & 0o001 != 0 <==> mode & 0o004 != 0 || mode & 0o001 != 0) && (after | ((after & 0o444)
        >> 2u32)) == after) by (bit_vector)
        requires
            after == mode | ((mode & 0o444) >> 2u32),
    ;
}

/// The name of a temporary file beside the output.
pub open spec fn temporary_name(process: u32, id: u64) -> Seq<char> {
    ".afs-ld-tmp-"@ + text::dec(process as nat) + "-"@ + text::zero_padded(text::hex(id as nat), 16)
}

/// The name of a temporary file beside the output.
pub fn make_temporary_name(process: u32, id: u64) -> (r: String)
    ensures
        r@ == temporary_name(process, id),
{
    let mut out = ".afs-ld-tmp-".to_owned();
    out.append(dec_string(process as u64).as_str());
    out.append("-");
    out.append(hex_string_padded(id, 16).as_str());
    out
}

/// The directory that an output stands in.
pub open spec fn directory_of(output: Seq<char>) -> Seq<char> {
    match path::last_step(output) {
        Some(step) => if step.parent.len() > 0 {
            step.parent
        } else {
            "."@
        },
        None => "."@,
    }
}

/// The directory that an output stands in.
pub fn output_directory(output: &str) -> (r: String)
    ensures
        r@ == directory_of(output@),
{
    match find_last_step(output) {
        Some(step) => if step.parent.as_str().unicode_len() > 0 {
            step.parent
        } else {
            ".".to_owned()
        },
        None => ".".to_owned(),
    }
}

/// A path behind a directory that exists, from the names that were stepped over, the
/// last one first.
pub open spec fn rebuilt(directory: Seq<char>, names: Seq<Seq<char>>) -> Seq<char>
    decreases names.len(),
{
    if names.len() == 0 {
        directory
    } else {
        rebuilt(path::joined(directory, names.last()), names.drop_last())
    }
}

/// The path to compare a file by, from the real path of its nearest directory that
/// exists and the names below it.
pub fn comparison_path(directory: &str, missing: &Vec<String>) -> (r: String)
    ensures
        r@ == path::normal_path(rebuilt(directory@, text::texts(missing@))),
{
    let ghost all = text::texts(missing@);
    let mut out = directory.to_owned();
    let mut i: usize = missing.len();
    assert(all.take(i as int) =~= all);
    while i > 0
        invariant
            i <= missing@.len(),
            all == text::texts(missing@),
            rebuilt(out@, all.take(i as int)) == rebuilt(directory@, all),
        decreases i,
    {
        assert(all.take(i as int).drop_last() =~= all.take(i - 1));
        assert(all[i - 1] == missing@[i - 1]@);
        out = join(out.as_str(), missing[i - 1].as_str());
        i -= 1;
    }
    normalize_lexically(out.as_str())
}

/// Two paths lead to one file: it is the same on disk, or it would be.
pub open spec fn aliased(
    left: Option<(u64, u64)>,
    right: Option<(u64, u64)>,
    left_path: Seq<char>,
    right_path: Seq<char>,
) -> bool {
    left is Some && left == right || path::parts_of(left_path) == path::parts_of(right_path)
}

/// Two paths lead to one file, by its device and number where it exists, or by the
/// paths that they are compared by.
pub fn paths_alias(
    left: Option<(u64, u64)>,
    right: Option<(u64, u64)>,
    left_path: &str,
    right_path: &str,
) -> (r: bool)
    ensures
        r == aliased(left, right, left_path@, right_path@),
{
    if let Some(l) = left {
        if let Some(r) = right {
            if l.0 == r.0 && l.1 == r.1 {
                return true;
            }
        }
    }
    same_path(left_path, right_path)
}

/// It does not matter which of two paths is named first.
pub proof fn law_alias_is_symmetric(
    left: Option<(u64, u64)>,
    right: Option<(u64, u64)>,
    left_path: Seq<char>,
    right_path: Seq<char>,
)
    ensures
        aliased(left, right, left_path, right_path) == aliased(
            right,
            left,
            right_path,
            left_path,
        ),
{
}

} // verus!
