//! Exported symbols, and the export trie that lists them.

use vstd::prelude::*;
use crate::macho::constants::EXPORT_SYMBOL_FLAGS_WEAK_DEFINITION;
use crate::macho::reader::ReadError;
use vstd::slice::slice_to_vec;

verus! {

/// What kind of thing an image exports, and where it is.
#[derive(Debug, Clone, Copy, PartialEq, Eq, Structural)]
pub enum ExportKind {
    Regular { address: u64 },
    ThreadLocal { address: u64 },
    Absolute { address: u64 },
    /// The symbol is had from the dependency with this ordinal.
    Reexport { ordinal: u64 },
    /// A function that a resolver picks when it is bound.
    StubAndResolver { stub: u64, resolver: u64 },
}

/// One exported symbol.
#[derive(Debug, Clone, PartialEq, Eq)]
pub struct ExportEntry {
    pub name: String,
    pub flags: u64,
    pub kind: ExportKind,
}

/// An `ExportEntry` with its name as a character sequence.
#[verifier::ext_equal]
pub struct ExportModel {
    pub name: Seq<char>,
    pub flags: u64,
    pub kind: ExportKind,
}

impl View for ExportEntry {
    type V = ExportModel;

    open spec fn view(&self) -> ExportModel {
        ExportModel { name: self.name@, flags: self.flags, kind: self.kind }
    }
}

impl ExportModel {
    pub open spec fn weak(self) -> bool {
        self.flags & EXPORT_SYMBOL_FLAGS_WEAK_DEFINITION != 0
    }
}

impl ExportEntry {
    /// The export may be replaced by another definition.
    pub fn weak_def(&self) -> (r: bool)
        ensures
            r == self@.weak(),
    {
        self.flags & EXPORT_SYMBOL_FLAGS_WEAK_DEFINITION != 0
    }
}

pub open spec fn entries_view(entries: Seq<ExportEntry>) -> Seq<ExportModel> {
    entries.map_values(|e: ExportEntry| e@)
}

/// What reading an export trie gave: the exports that it holds, or what is wrong with it.
pub open spec fn reading_view(r: Result<Vec<ExportEntry>, ReadError>) -> Result<
    Seq<ExportModel>,
    ReadError,
> {
    match r {
        Ok(v) => Ok(entries_view(v@)),
        Err(e) => Err(e),
    }
}

/// The bytes of an export trie.
#[derive(Debug, Clone, PartialEq, Eq)]
pub struct ExportTrie {
    raw: Vec<u8>,
}

impl View for ExportTrie {
    type V = Seq<u8>;

    closed spec fn view(&self) -> Seq<u8> {
        self.raw@
    }
}

impl Default for ExportTrie {
    fn default() -> (r: ExportTrie)
        ensures
            r@ == Seq::<u8>::empty(),
    {
        ExportTrie { raw: Vec::new() }
    }
}

impl ExportTrie {
    pub fn empty() -> (r: ExportTrie)
        ensures
            r@ == Seq::<u8>::empty(),
    {
        ExportTrie { raw: Vec::new() }
    }

    pub fn from_bytes(bytes: &[u8]) -> (r: ExportTrie)
        ensures
            r@ == bytes@,
    {
        ExportTrie { raw: slice_to_vec(bytes) }
    }

    pub fn as_bytes(&self) -> (r: &[u8])
        ensures
            r@ == self@,
    {
        self.raw.as_slice()
    }

    pub fn is_empty(&self) -> (r: bool)
        ensures
            r == (self@.len() == 0),
    {
        self.raw.len() == 0
    }
}

/// What a dylib exports: a list, or a trie that is not yet taken apart.
#[derive(Debug, Clone, PartialEq, Eq)]
pub enum Exports {
    Listed(Vec<ExportEntry>),
    Trie(ExportTrie),
}

/// `Exports` by their contents.
#[verifier::ext_equal]
pub enum ExportsModel {
    Listed(Seq<ExportModel>),
    Trie(Seq<u8>),
}

impl View for Exports {
    type V = ExportsModel;

    open spec fn view(&self) -> ExportsModel {
        match self {
            Exports::Listed(v) => ExportsModel::Listed(entries_view(v@)),
            Exports::Trie(t) => ExportsModel::Trie(t@),
        }
    }
}

impl ExportsModel {
    /// The exports, where reading their trie gave `trie`. A list needs no reading.
    pub open spec fn entries(self, trie: Result<Seq<ExportModel>, ReadError>) -> Result<
        Seq<ExportModel>,
        ReadError,
    > {
        match self {
            ExportsModel::Listed(v) => Ok(v),
            ExportsModel::Trie(_) => trie,
        }
    }
}

impl Exports {
    /// No exports.
    pub fn empty() -> (r: Exports)
        ensures
            r@ == ExportsModel::Listed(seq![]),
    {
        let none: Vec<ExportEntry> = Vec::new();
        assert(entries_view(none@) =~= seq![]);
        Exports::Listed(none)
    }

    pub fn from_entries(entries: Vec<ExportEntry>) -> (r: Exports)
        ensures
            r@ == ExportsModel::Listed(entries_view(entries@)),
    {
        Exports::Listed(entries)
    }

    pub fn from_trie_bytes(bytes: &[u8]) -> (r: Exports)
        ensures
            r@ == ExportsModel::Trie(bytes@),
    {
        Exports::Trie(ExportTrie::from_bytes(bytes))
    }

    /// The exports, if they are listed.
    pub fn entries(&self) -> (r: Option<&Vec<ExportEntry>>)
        ensures
            match r {
                Some(v) => self@ == ExportsModel::Listed(entries_view(v@)),
                None => self@ is Trie,
            },
    {
        match self {
            Exports::Listed(v) => Some(v),
            Exports::Trie(_) => None,
        }
    }

    /// The exports, where reading their trie gave `trie`.
    pub fn entries_with<'a>(&'a self, trie: &'a Result<Vec<ExportEntry>, ReadError>) -> (r: Result<
        &'a Vec<ExportEntry>,
        ReadError,
    >)
        ensures
            match (r, self@.entries(reading_view(*trie))) {
                (Ok(v), Ok(m)) => entries_view(v@) == m,
                (Err(e), Err(f)) => e == f,
                _ => false,
            },
    {
        match self {
            Exports::Listed(v) => Ok(v),
            Exports::Trie(_) => match trie {
                Ok(v) => Ok(v),
                Err(e) => Err(*e),
            },
        }
    }
}

} // verus!
