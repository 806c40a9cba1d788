//! The front of ELF linking: its command line, its linker scripts and its files.

use vstd::prelude::*;

pub mod args;
pub mod files;
pub mod laws;
pub mod script;

verus! {

/// Which kinds of libraries a request finds. It is fixed where the request stands on
/// the command line.
#[derive(Debug, Clone, Copy, PartialEq, Eq, Structural)]
pub enum LibrarySearchMode {
    /// A shared object, or else an archive.
    DynamicPreferred,
    /// Archives alone.
    StaticOnly,
}

impl Default for LibrarySearchMode {
    fn default() -> (r: LibrarySearchMode)
        ensures
            r == LibrarySearchMode::DynamicPreferred,
    {
        LibrarySearchMode::DynamicPreferred
    }
}

/// An input, in the order of the command line: archives are searched from left to
/// right.
#[derive(Debug, Clone, PartialEq, Eq)]
pub enum LinkInput {
    /// An object, an archive or a shared object by its path.
    File { path: String, as_needed: bool, library_search: LibrarySearchMode },
    /// A library by its name, to be looked for in the search directories.
    Lib { name: String, as_needed: bool, library_search: LibrarySearchMode },
    /// Archives from here on are searched repeatedly.
    GroupStart,
    /// Archives up to here are.
    GroupEnd,
}

/// A `LinkInput` with its texts as sequences.
#[verifier::ext_equal]
pub enum InputModel {
    File { path: Seq<char>, as_needed: bool, library_search: LibrarySearchMode },
    Lib { name: Seq<char>, as_needed: bool, library_search: LibrarySearchMode },
    GroupStart,
    GroupEnd,
}

impl View for LinkInput {
    type V = InputModel;

    open spec fn view(&self) -> InputModel {
        match self {
            LinkInput::File { path, as_needed, library_search } => InputModel::File {
                path: path@,
                as_needed: *as_needed,
                library_search: *library_search,
            },
            LinkInput::Lib { name, as_needed, library_search } => InputModel::Lib {
                name: name@,
                as_needed: *as_needed,
                library_search: *library_search,
            },
            LinkInput::GroupStart => InputModel::GroupStart,
            LinkInput::GroupEnd => InputModel::GroupEnd,
        }
    }
}

pub open spec fn inputs_view(inputs: Seq<LinkInput>) -> Seq<InputModel> {
    inputs.map_values(|i: LinkInput| i@)
}

pub(crate) fn push_input(inputs: &mut Vec<LinkInput>, input: LinkInput)
    ensures
        inputs_view(final(inputs)@) == inputs_view(old(inputs)@).push(input@),
{
    inputs.push(input);
    assert(inputs_view(inputs@) =~= inputs_view(old(inputs)@).push(input@));
}

} // verus!
