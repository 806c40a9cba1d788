//! Applying relocations to ARM64 code and data.

use vstd::prelude::*;
use crate::input::ObjectFile;
use crate::reloc::{Referent, RelocKind};
use crate::resolve::AtomId;
use crate::symbol::InputSymbol;
use crate::text;
use crate::text::{dec_string, hex_string};

pub mod apply;
pub mod apply_laws;
pub mod encode;
pub mod fill;
pub mod fill_laws;
pub mod image;
pub mod image_laws;
pub mod islands;
pub mod maps;
pub mod patch;
pub mod places;
pub mod target_laws;
pub mod targets;
pub mod thunk_laws;
pub mod thunks;
pub mod tlv;
pub mod tlv_laws;

verus! {

/// A relocation that cannot be applied.
#[derive(Debug, Clone, PartialEq, Eq)]
pub struct RelocError {
    pub input: String,
    pub atom: AtomId,
    pub atom_offset: u32,
    pub kind: RelocKind,
    pub referent: String,
    pub detail: String,
}

/// A `RelocError` with its texts as character sequences.
#[verifier::ext_equal]
pub struct RelocFault {
    pub input: Seq<char>,
    pub atom: AtomId,
    pub atom_offset: u32,
    pub kind: RelocKind,
    pub referent: Seq<char>,
    pub detail: Seq<char>,
}

impl View for RelocError {
    type V = RelocFault;

    open spec fn view(&self) -> RelocFault {
        RelocFault {
            input: self.input@,
            atom: self.atom,
            atom_offset: self.atom_offset,
            kind: self.kind,
            referent: self.referent@,
            detail: self.detail@,
        }
    }
}

/// `r` is `s`, with the error in its executable form.
pub open spec fn same_outcome<T>(r: Result<T, RelocError>, s: Result<T, RelocFault>) -> bool {
    match (r, s) {
        (Ok(a), Ok(b)) => a == b,
        (Err(e), Err(f)) => e@ == f,
        _ => false,
    }
}

/// The kind's name.
pub open spec fn kind_name(kind: RelocKind) -> Seq<char> {
    match kind {
        RelocKind::Unsigned => "Unsigned"@,
        RelocKind::Branch26 => "Branch26"@,
        RelocKind::Page21 => "Page21"@,
        RelocKind::PageOff12 => "PageOff12"@,
        RelocKind::GotLoadPage21 => "GotLoadPage21"@,
        RelocKind::GotLoadPageOff12 => "GotLoadPageOff12"@,
        RelocKind::PointerToGot => "PointerToGot"@,
        RelocKind::TlvpLoadPage21 => "TlvpLoadPage21"@,
        RelocKind::TlvpLoadPageOff12 => "TlvpLoadPageOff12"@,
        RelocKind::Subtractor => "Subtractor"@,
    }
}

fn kind_str(kind: RelocKind) -> (r: &'static str)
    ensures
        r@ == kind_name(kind),
{
    match kind {
        RelocKind::Unsigned => "Unsigned",
        RelocKind::Branch26 => "Branch26",
        RelocKind::Page21 => "Page21",
        RelocKind::PageOff12 => "PageOff12",
        RelocKind::GotLoadPage21 => "GotLoadPage21",
        RelocKind::GotLoadPageOff12 => "GotLoadPageOff12",
        RelocKind::PointerToGot => "PointerToGot",
        RelocKind::TlvpLoadPage21 => "TlvpLoadPage21",
        RelocKind::TlvpLoadPageOff12 => "TlvpLoadPageOff12",
        RelocKind::Subtractor => "Subtractor",
    }
}

impl RelocError {
    /// The message that a user sees.
    pub open spec fn message(self) -> Seq<char> {
        self.input@ + ": relocation "@ + kind_name(self.kind) + " at atom AtomId("@ + text::dec(
            self.atom.0 as nat,
        ) + ")+0x"@ + text::hex(self.atom_offset as nat) + " against "@ + self.referent@ + ": "@
            + self.detail@
    }

    pub fn to_string(&self) -> (r: String)
        ensures
            r@ == self.message(),
    {
        let mut s = self.input.clone();
        s.append(": relocation ");
        s.append(kind_str(self.kind));
        s.append(" at atom AtomId(");
        s.append(dec_string(self.atom.0 as u64).as_str());
        s.append(")+0x");
        s.append(hex_string(self.atom_offset as u64).as_str());
        s.append(" against ");
        s.append(self.referent.as_str());
        s.append(": ");
        s.append(self.detail.as_str());
        s
    }
}

/// How an error names a symbol of the input: by its name, or by where the name
/// should have been.
pub open spec fn symbol_text(obj: ObjectFile, sym: InputSymbol) -> Seq<char> {
    match obj.name_of(sym) {
        Ok(name) => name,
        Err(_) => "symbol@strx"@ + text::dec(sym.raw.strx as nat),
    }
}

pub fn describe_input_symbol(obj: &ObjectFile, input_sym: &InputSymbol) -> (r: String)
    ensures
        r@ == symbol_text(*obj, *input_sym),
{
    match obj.symbol_name(input_sym) {
        Ok(name) => name.to_owned(),
        Err(_) => {
            let mut s = "symbol@strx".to_owned();
            s.append(dec_string(input_sym.strx() as u64).as_str());
            s
        },
    }
}

/// How an error names what a relocation refers to.
pub open spec fn referent_text(obj: ObjectFile, referent: Referent) -> Seq<char> {
    match referent {
        Referent::Section(idx) => "section #"@ + text::dec(idx as nat),
        Referent::Symbol(idx) => if idx < obj.symbols@.len() {
            symbol_text(obj, obj.symbols@[idx as int])
        } else {
            "symbol #"@ + text::dec(idx as nat)
        },
    }
}

pub(crate) fn numbered(what: &str, n: u64) -> (r: String)
    ensures
        r@ == what@ + text::dec(n as nat),
{
    let mut s = what.to_owned();
    s.append(dec_string(n).as_str());
    s
}

pub fn describe_referent(obj: &ObjectFile, referent: Referent) -> (r: String)
    ensures
        r@ == referent_text(*obj, referent),
{
    match referent {
        Referent::Section(idx) => numbered("section #", idx as u64),
        Referent::Symbol(idx) => {
            if (idx as usize) < obj.symbols.len() {
                describe_input_symbol(obj, &obj.symbols[idx as usize])
            } else {
                numbered("symbol #", idx as u64)
            }
        },
    }
}

} // verus!
