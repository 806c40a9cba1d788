//! Writing Mach-O executables and dylibs.

use std::collections::HashMap;
use vstd::prelude::*;
use crate::atom::AtomTable;
use crate::layout::LayoutInput;
use crate::reloc::ParsedRelocCache;
use crate::resolve::{AtomId, SymbolId, SymbolTable};
use crate::synth::SyntheticPlan;
use crate::text;
use crate::text::dec_string;

pub mod bind;
pub mod bind_laws;
pub mod commands;
pub mod data_in_code;
pub mod file;
pub mod file_laws;
pub mod finalize;
pub mod header_laws;
pub mod image_plan;
pub mod imports;
pub mod place_laws;
pub mod plan;
pub mod plan_laws;
pub mod ranges;
pub mod rebase;
pub mod rebase_laws;
pub mod relocs;
pub mod starts;
pub mod symbol_laws;
pub mod symbol_plan;
pub mod symbols;

verus! {

/// Where a program starts: in an atom, so far into it.
#[derive(Debug, Clone, Copy, PartialEq, Eq, Structural)]
pub struct EntryPoint {
    pub atom: AtomId,
    pub atom_value: u64,
}

/// What the link-edit data is made from.
#[derive(Clone, Copy)]
pub struct LinkEditContext<'a> {
    pub layout_inputs: &'a [LayoutInput<'a>],
    pub atom_table: &'a AtomTable,
    pub sym_table: &'a SymbolTable,
    pub synthetic_plan: &'a SyntheticPlan,
    pub icf_redirects: Option<&'a HashMap<u32, u32>>,
    pub parsed_relocs: &'a ParsedRelocCache,
}

/// How long the parts of a link-edit plan took, in nanoseconds.
#[derive(Debug, Clone, Copy, PartialEq, Eq, Structural)]
pub struct LinkEditBuildTimings {
    pub symbol_plan: u64,
    pub symbol_plan_locals: u64,
    pub symbol_plan_globals: u64,
    pub symbol_plan_strtab: u64,
    pub dyld_info: u64,
    pub dyld_bind: u64,
    pub dyld_rebase: u64,
    pub dyld_export: u64,
    pub metadata_tables: u64,
    pub code_signature: u64,
}

impl Default for LinkEditBuildTimings {
    fn default() -> (r: LinkEditBuildTimings)
        ensures
            r == (LinkEditBuildTimings {
                symbol_plan: 0,
                symbol_plan_locals: 0,
                symbol_plan_globals: 0,
                symbol_plan_strtab: 0,
                dyld_info: 0,
                dyld_bind: 0,
                dyld_rebase: 0,
                dyld_export: 0,
                metadata_tables: 0,
                code_signature: 0,
            }),
    {
        LinkEditBuildTimings {
            symbol_plan: 0,
            symbol_plan_locals: 0,
            symbol_plan_globals: 0,
            symbol_plan_strtab: 0,
            dyld_info: 0,
            dyld_bind: 0,
            dyld_rebase: 0,
            dyld_export: 0,
            metadata_tables: 0,
            code_signature: 0,
        }
    }
}

impl LinkEditBuildTimings {
    /// Every sum of two runs fits its field.
    pub open spec fn sums_fit(self, rhs: LinkEditBuildTimings) -> bool {
        &&& self.symbol_plan + rhs.symbol_plan <= u64::MAX
        &&& self.symbol_plan_locals + rhs.symbol_plan_locals <= u64::MAX
        &&& self.symbol_plan_globals + rhs.symbol_plan_globals <= u64::MAX
        &&& self.symbol_plan_strtab + rhs.symbol_plan_strtab <= u64::MAX
        &&& self.dyld_info + rhs.dyld_info <= u64::MAX
        &&& self.dyld_bind + rhs.dyld_bind <= u64::MAX
        &&& self.dyld_rebase + rhs.dyld_rebase <= u64::MAX
        &&& self.dyld_export + rhs.dyld_export <= u64::MAX
        &&& self.metadata_tables + rhs.metadata_tables <= u64::MAX
        &&& self.code_signature + rhs.code_signature <= u64::MAX
    }

    /// The sums of two runs.
    pub open spec fn total(self, rhs: LinkEditBuildTimings) -> LinkEditBuildTimings {
        LinkEditBuildTimings {
            symbol_plan: (self.symbol_plan + rhs.symbol_plan) as u64,
            symbol_plan_locals: (self.symbol_plan_locals + rhs.symbol_plan_locals) as u64,
            symbol_plan_globals: (self.symbol_plan_globals + rhs.symbol_plan_globals) as u64,
            symbol_plan_strtab: (self.symbol_plan_strtab + rhs.symbol_plan_strtab) as u64,
            dyld_info: (self.dyld_info + rhs.dyld_info) as u64,
            dyld_bind: (self.dyld_bind + rhs.dyld_bind) as u64,
            dyld_rebase: (self.dyld_rebase + rhs.dyld_rebase) as u64,
            dyld_export: (self.dyld_export + rhs.dyld_export) as u64,
            metadata_tables: (self.metadata_tables + rhs.metadata_tables) as u64,
            code_signature: (self.code_signature + rhs.code_signature) as u64,
        }
    }

    /// Adds the times of another run.
    pub fn add_assign(&mut self, rhs: LinkEditBuildTimings)
        requires
            old(self).sums_fit(rhs),
        ensures
            *final(self) == old(self).total(rhs),
    {
        self.symbol_plan = self.symbol_plan + rhs.symbol_plan;
        self.symbol_plan_locals = self.symbol_plan_locals + rhs.symbol_plan_locals;
        self.symbol_plan_globals = self.symbol_plan_globals + rhs.symbol_plan_globals;
        self.symbol_plan_strtab = self.symbol_plan_strtab + rhs.symbol_plan_strtab;
        self.dyld_info = self.dyld_info + rhs.dyld_info;
        self.dyld_bind = self.dyld_bind + rhs.dyld_bind;
        self.dyld_rebase = self.dyld_rebase + rhs.dyld_rebase;
        self.dyld_export = self.dyld_export + rhs.dyld_export;
        self.metadata_tables = self.metadata_tables + rhs.metadata_tables;
        self.code_signature = self.code_signature + rhs.code_signature;
    }
}

/// A symbol for the link map.
#[derive(Debug, Clone, PartialEq, Eq)]
pub struct LinkMapSymbol {
    pub name: String,
    pub addr: u64,
    pub size: u64,
    /// Which input defines it, counted from one; zero for none.
    pub file_index: usize,
}

/// An image that cannot be written.
#[derive(Debug, Clone, PartialEq, Eq)]
pub enum WriteError {
    MissingSegment(&'static str),
    OffsetTooLarge(&'static str),
    EntryAtomMissing(AtomId),
    DefinedSymbolAtomMissing(SymbolId, AtomId),
    DefinedSymbolSectionMissing(SymbolId, AtomId),
    DirectBindAtomMissing(AtomId),
    DirectBindSectionMissing(AtomId),
    ImportSymbolMissing(SymbolId),
    ImportSymbolWrongKind(SymbolId),
    MalformedRelocations(String, u8, String),
    MalformedLoh(String, String),
    MalformedDataInCode(String, String),
    SymbolListRead(String, String),
}

/// A `WriteError` with its texts as character sequences.
#[verifier::ext_equal]
pub enum WriteFault {
    MissingSegment(Seq<char>),
    OffsetTooLarge(Seq<char>),
    EntryAtomMissing(AtomId),
    DefinedSymbolAtomMissing(SymbolId, AtomId),
    DefinedSymbolSectionMissing(SymbolId, AtomId),
    DirectBindAtomMissing(AtomId),
    DirectBindSectionMissing(AtomId),
    ImportSymbolMissing(SymbolId),
    ImportSymbolWrongKind(SymbolId),
    MalformedRelocations(Seq<char>, u8, Seq<char>),
    MalformedLoh(Seq<char>, Seq<char>),
    MalformedDataInCode(Seq<char>, Seq<char>),
    SymbolListRead(Seq<char>, Seq<char>),
}

impl View for WriteError {
    type V = WriteFault;

    open spec fn view(&self) -> WriteFault {
        match self {
            WriteError::MissingSegment(name) => WriteFault::MissingSegment(name@),
            WriteError::OffsetTooLarge(what) => WriteFault::OffsetTooLarge(what@),
            WriteError::EntryAtomMissing(a) => WriteFault::EntryAtomMissing(*a),
            WriteError::DefinedSymbolAtomMissing(s, a) => WriteFault::DefinedSymbolAtomMissing(
                *s,
                *a,
            ),
            WriteError::DefinedSymbolSectionMissing(s, a) =>
                WriteFault::DefinedSymbolSectionMissing(*s, *a),
            WriteError::DirectBindAtomMissing(a) => WriteFault::DirectBindAtomMissing(*a),
            WriteError::DirectBindSectionMissing(a) => WriteFault::DirectBindSectionMissing(*a),
            WriteError::ImportSymbolMissing(s) => WriteFault::ImportSymbolMissing(*s),
            WriteError::ImportSymbolWrongKind(s) => WriteFault::ImportSymbolWrongKind(*s),
            WriteError::MalformedRelocations(path, n, detail) => WriteFault::MalformedRelocations(
                path@,
                *n,
                detail@,
            ),
            WriteError::MalformedLoh(path, detail) => WriteFault::MalformedLoh(path@, detail@),
            WriteError::MalformedDataInCode(path, detail) => WriteFault::MalformedDataInCode(
                path@,
                detail@,
            ),
            WriteError::SymbolListRead(path, detail) => WriteFault::SymbolListRead(
                path@,
                detail@,
            ),
        }
    }
}

/// `r` is `s`, with the error in its executable form.
pub open spec fn same_result<T>(r: Result<T, WriteError>, s: Result<T, WriteFault>) -> bool {
    match (r, s) {
        (Ok(a), Ok(b)) => a == b,
        (Err(e), Err(f)) => e@ == f,
        _ => false,
    }
}

/// The same of vectors and sequences.
pub open spec fn same_list<T>(r: Result<Vec<T>, WriteError>, s: Result<Seq<T>, WriteFault>) -> bool {
    match (r, s) {
        (Ok(a), Ok(b)) => a@ == b,
        (Err(e), Err(f)) => e@ == f,
        _ => false,
    }
}

pub open spec fn symbol_name(id: SymbolId) -> Seq<char> {
    "SymbolId("@ + text::dec(id.0 as nat) + ")"@
}

pub open spec fn atom_name(id: AtomId) -> Seq<char> {
    "AtomId("@ + text::dec(id.0 as nat) + ")"@
}

fn wrapped(what: &str, n: u32) -> (r: String)
    ensures
        r@ == what@ + text::dec(n as nat) + ")"@,
{
    let mut s = what.to_owned();
    s.append(dec_string(n as u64).as_str());
    s.append(")");
    s
}

pub(crate) fn describe_atom(id: AtomId) -> (r: String)
    ensures
        r@ == atom_name(id),
{
    wrapped("AtomId(", id.0)
}

/// `a`, `b` and `c` in one string.
pub(crate) fn joined3(a: &str, b: &str, c: &str) -> (r: String)
    ensures
        r@ == a@ + b@ + c@,
{
    let mut s = a.to_owned();
    s.append(b);
    s.append(c);
    s
}

impl WriteError {
    /// The message that a user sees.
    pub open spec fn message(self) -> Seq<char> {
        match self {
            WriteError::MissingSegment(name) => "missing output segment `"@ + name@ + "`"@,
            WriteError::OffsetTooLarge(what) => what@ + " exceeds 32-bit Mach-O field width"@ + ""@,
            WriteError::EntryAtomMissing(atom) => "entry atom "@ + atom_name(atom)
                + " missing from layout"@,
            WriteError::DefinedSymbolAtomMissing(symbol, atom) => "defined symbol "@ + symbol_name(
                symbol,
            ) + " points at missing atom "@ + atom_name(atom) + " in final layout"@,
            WriteError::DefinedSymbolSectionMissing(symbol, atom) => "defined symbol "@
                + symbol_name(symbol) + " points at atom "@ + atom_name(atom)
                + " outside any output section"@,
            WriteError::DirectBindAtomMissing(atom) => "direct bind atom "@ + atom_name(atom)
                + " missing from layout"@,
            WriteError::DirectBindSectionMissing(atom) => "direct bind atom "@ + atom_name(atom)
                + " is not inside an output section"@,
            WriteError::ImportSymbolMissing(symbol) => "synthetic import symbol "@ + symbol_name(
                symbol,
            ) + " missing from symbol table"@,
            WriteError::ImportSymbolWrongKind(symbol) => "synthetic import symbol "@ + symbol_name(
                symbol,
            ) + " is not a dylib import"@,
            WriteError::MalformedRelocations(path, section, detail) =>
                "failed to parse relocations in "@ + path@ + " section "@ + text::dec(
                section as nat,
            ) + ": "@ + detail@,
            WriteError::MalformedLoh(path, detail) =>
                "failed to remap LC_LINKER_OPTIMIZATION_HINT in "@ + path@ + ": "@ + detail@,
            WriteError::MalformedDataInCode(path, detail) => "failed to remap LC_DATA_IN_CODE in "@
                + path@ + ": "@ + detail@,
            WriteError::SymbolListRead(path, detail) => path@ + ": unable to read symbol list: "@
                + detail@,
        }
    }

    pub fn to_string(&self) -> (r: String)
        ensures
            r@ == self.message(),
    {
        match self {
            WriteError::MissingSegment(name) => joined3("missing output segment `", name, "`"),
            WriteError::OffsetTooLarge(what) => joined3(
                what,
                " exceeds 32-bit Mach-O field width",
                "",
            ),
            WriteError::EntryAtomMissing(atom) => joined3(
                "entry atom ",
                describe_atom(*atom).as_str(),
                " missing from layout",
            ),
            WriteError::DefinedSymbolAtomMissing(symbol, atom) => {
                let mut s = joined3(
                    "defined symbol ",
                    wrapped("SymbolId(", symbol.0).as_str(),
                    " points at missing atom ",
                );
                s.append(describe_atom(*atom).as_str());
                s.append(" in final layout");
                s
            },
            WriteError::DefinedSymbolSectionMissing(symbol, atom) => {
                let mut s = joined3(
                    "defined symbol ",
                    wrapped("SymbolId(", symbol.0).as_str(),
                    " points at atom ",
                );
                s.append(describe_atom(*atom).as_str());
                s.append(" outside any output section");
                s
            },
            WriteError::DirectBindAtomMissing(atom) => joined3(
                "direct bind atom ",
                describe_atom(*atom).as_str(),
                " missing from layout",
            ),
            WriteError::DirectBindSectionMissing(atom) => joined3(
                "direct bind atom ",
                describe_atom(*atom).as_str(),
                " is not inside an output section",
            ),
            WriteError::ImportSymbolMissing(symbol) => joined3(
                "synthetic import symbol ",
                wrapped("SymbolId(", symbol.0).as_str(),
                " missing from symbol table",
            ),
            WriteError::ImportSymbolWrongKind(symbol) => joined3(
                "synthetic import symbol ",
                wrapped("SymbolId(", symbol.0).as_str(),
                " is not a dylib import",
            ),
            WriteError::MalformedRelocations(path, section, detail) => {
                let mut s = joined3(
                    "failed to parse relocations in ",
                    path.as_str(),
                    " section ",
                );
                s.append(dec_string(*section as u64).as_str());
                s.append(": ");
                s.append(detail.as_str());
                s
            },
            WriteError::MalformedLoh(path, detail) => {
                let mut s = joined3(
                    "failed to remap LC_LINKER_OPTIMIZATION_HINT in ",
                    path.as_str(),
                    ": ",
                );
                s.append(detail.as_str());
                s
            },
            WriteError::MalformedDataInCode(path, detail) => {
                let mut s = joined3("failed to remap LC_DATA_IN_CODE in ", path.as_str(), ": ");
                s.append(detail.as_str());
                s
            },
            WriteError::SymbolListRead(path, detail) => joined3(
                path.as_str(),
                ": unable to read symbol list: ",
                detail.as_str(),
            ),
        }
    }
}

/// `value` rounded up to a multiple of `align`, a power of two, modulo 2^64.
pub open spec fn aligned(value: u64, align: u64) -> u64 {
    if align <= 1 {
        value
    } else {
        value.wrapping_add((align - 1) as u64) & !((align - 1) as u64)
    }
}

pub fn align_up(value: u64, align: u64) -> (r: u64)
    ensures
        r == aligned(value, align),
{
    if align <= 1 {
        return value;
    }
    let mask: u64 = align - 1;
    value.wrapping_add(mask) & !mask
}

/// Rounding to eight gives the next multiple of eight.
pub proof fn law_align_up_8(value: u64)
    requires
        value <= u64::MAX - 7,
    ensures
        aligned(value, 8) == (value + 7) / 8 * 8,
{
    let v: u64 = (value + 7) as u64;
    assert(v & !7u64 == v / 8 * 8) by (bit_vector);
}

/// A value that fits a 32-bit field.
pub open spec fn fit32(value: u64, what: Seq<char>) -> Result<u32, WriteFault> {
    if value <= u32::MAX {
        Ok(value as u32)
    } else {
        Err(WriteFault::OffsetTooLarge(what))
    }
}

pub fn u32_fit(value: u64, what: &'static str) -> (r: Result<u32, WriteError>)
    ensures
        same_result(r, fit32(value, what@)),
{
    if value <= u32::MAX as u64 {
        Ok(value as u32)
    } else {
        Err(WriteError::OffsetTooLarge(what))
    }
}

/// A version as one number: sixteen bits, eight bits and eight bits.
pub open spec fn packed(major: u32, minor: u32, patch: u32) -> u32 {
    (major << 16) | (minor << 8) | patch
}

pub fn pack_version(major: u32, minor: u32, patch: u32) -> (r: u32)
    ensures
        r == packed(major, minor, patch),
{
    (major << 16) | (minor << 8) | patch
}

} // verus!
