//! What the linker adds to the image on its own: stubs, pointer tables and bind
//! requests.

use vstd::prelude::*;
use crate::resolve::{AtomId, SymbolId};

verus! {

/// Bytes of one symbol stub.
pub const STUB_SIZE: u64 = 12;

/// Bytes of the code in front of the stub helper's entries.
pub const STUB_HELPER_HEADER_SIZE: u64 = 24;

/// Bytes of one stub helper entry.
pub const STUB_HELPER_ENTRY_SIZE: u64 = 12;

/// Bytes of dyld's private slot.
pub const DYLD_PRIVATE_SIZE: u64 = 8;

/// Bytes of one thread-local variable descriptor.
pub const THREAD_VARIABLE_DESCRIPTOR_SIZE: u64 = 24;

/// A slot or stub that was made for a symbol.
#[derive(Debug, Clone, Copy, PartialEq, Eq, Structural)]
pub struct SlotEntry {
    pub symbol: SymbolId,
}

/// A table of equally large slots, one behind the other.
#[derive(Debug, Clone, PartialEq, Eq)]
pub struct SlotTable {
    pub entries: Vec<SlotEntry>,
}

/// A pointer in an atom that dyld binds to a symbol.
#[derive(Debug, Clone, Copy, PartialEq, Eq, Structural)]
pub struct DirectBind {
    pub symbol: SymbolId,
    pub atom: AtomId,
    pub atom_offset: u32,
    pub addend: i64,
}

#[derive(Debug, Clone, PartialEq, Eq)]
pub struct SyntheticPlan {
    pub stubs: SlotTable,
    pub got: SlotTable,
    pub thread_pointers: SlotTable,
    pub lazy_pointers: SlotTable,
    pub direct_binds: Vec<DirectBind>,
    pub tlv_bootstrap_symbol: Option<SymbolId>,
    pub binder_symbol: Option<SymbolId>,
    pub needs_dyld_private: bool,
}

} // verus!
