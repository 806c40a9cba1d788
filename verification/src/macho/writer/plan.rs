//! The link-edit data of an image: its tables, and where each of them goes.

use std::collections::HashMap;
use vstd::prelude::*;
use crate::bytes;
use crate::bytes::{push_u32, push_zeros};
use crate::layout;
use crate::layout::{Layout, PAGE_SIZE};
use crate::macho::constants::INDIRECT_SYMBOL_LOCAL;
use crate::macho::reader::{DyldInfoCmd, DysymtabCmd, LinkEditDataCmd, SymtabCmd};
use crate::macho::writer;
use crate::macho::writer::bind;
use crate::macho::writer::bind::build_bind_streams;
use crate::macho::writer::data_in_code;
use crate::macho::writer::data_in_code::build_data_in_code;
use crate::macho::writer::imports;
use crate::macho::writer::imports::{ImportLookup, ImportModel, ImportSymbolRecord};
use crate::macho::writer::rebase;
use crate::macho::writer::rebase::build_rebase_stream;
use crate::macho::writer::starts;
use crate::macho::writer::starts::build_function_starts;
use crate::macho::writer::symbol_plan;
use crate::macho::writer::symbol_plan::{MapModel, SymbolPlanModel, SymbolTablePlan};
use crate::macho::writer::{
    align_up, u32_fit, LinkEditContext, LinkMapSymbol, WriteError, WriteFault,
};
use crate::reloc::arm64::fill;
use crate::reloc::arm64::maps;
use crate::reloc::arm64::targets;
use crate::resolve::SymbolId;
use crate::section::OutputSection;
use crate::symbol;
use crate::symbol::write_nlist_table;
use crate::synth::{SlotEntry, SyntheticPlan};
use crate::text::same_text;

verus! {

broadcast use vstd::std_specs::hash::group_hash_axioms;

/// Where each section of pointers or stubs starts in the indirect symbol table,
/// if it has any entry there.
#[derive(Debug, Clone, Copy, PartialEq, Eq, Structural)]
pub struct IndirectStarts {
    pub stubs: Option<u32>,
    pub got: Option<u32>,
    pub lazy_pointers: Option<u32>,
}

/// Where the code signature goes.
#[derive(Debug, Clone, Copy, PartialEq, Eq, Structural)]
pub struct CodeSignaturePlan {
    pub dataoff: u32,
    pub datasize: u32,
}

/// The tables of the link-edit segment and the commands that point at them.
#[derive(Debug, Clone, PartialEq, Eq)]
pub struct LinkEditPlan {
    pub base_off: u32,
    pub symtab: SymtabCmd,
    pub dysymtab: DysymtabCmd,
    pub dyld_info: DyldInfoCmd,
    pub loh: Option<LinkEditDataCmd>,
    pub function_starts: LinkEditDataCmd,
    pub data_in_code: LinkEditDataCmd,
    pub symtab_bytes: Vec<u8>,
    pub indirect_bytes: Vec<u8>,
    pub rebase_bytes: Vec<u8>,
    pub bind_bytes: Vec<u8>,
    pub weak_bind_bytes: Vec<u8>,
    pub lazy_bind_bytes: Vec<u8>,
    pub export_bytes: Vec<u8>,
    pub loh_bytes: Vec<u8>,
    pub function_starts_bytes: Vec<u8>,
    pub data_in_code_bytes: Vec<u8>,
    pub strtab_bytes: Vec<u8>,
    pub code_signature: Option<CodeSignaturePlan>,
    pub indirect_starts: IndirectStarts,
    pub lazy_bind_offsets: HashMap<u32, u32>,
    pub map_symbols: Vec<LinkMapSymbol>,
}

/// A `LinkEditPlan` by its contents.
#[verifier::ext_equal]
pub struct LinkEditModel {
    pub base_off: u32,
    pub symtab: SymtabCmd,
    pub dysymtab: DysymtabCmd,
    pub dyld_info: DyldInfoCmd,
    pub loh: Option<LinkEditDataCmd>,
    pub function_starts: LinkEditDataCmd,
    pub data_in_code: LinkEditDataCmd,
    pub tables: Tables,
    pub weak_bind_bytes: Seq<u8>,
    pub loh_bytes: Seq<u8>,
    pub code_signature: Option<CodeSignaturePlan>,
    pub indirect_starts: IndirectStarts,
    pub lazy_bind_offsets: Map<u32, u32>,
    pub map_symbols: Seq<MapModel>,
}

/// The bytes of the tables.
#[verifier::ext_equal]
pub struct Tables {
    pub rebase: Seq<u8>,
    pub bind: Seq<u8>,
    pub lazy_bind: Seq<u8>,
    pub export: Seq<u8>,
    pub function_starts: Seq<u8>,
    pub data_in_code: Seq<u8>,
    pub symtab: Seq<u8>,
    pub indirect: Seq<u8>,
    pub strtab: Seq<u8>,
}

impl View for LinkEditPlan {
    type V = LinkEditModel;

    open spec fn view(&self) -> LinkEditModel {
        LinkEditModel {
            base_off: self.base_off,
            symtab: self.symtab,
            dysymtab: self.dysymtab,
            dyld_info: self.dyld_info,
            loh: self.loh,
            function_starts: self.function_starts,
            data_in_code: self.data_in_code,
            tables: Tables {
                rebase: self.rebase_bytes@,
                bind: self.bind_bytes@,
                lazy_bind: self.lazy_bind_bytes@,
                export: self.export_bytes@,
                function_starts: self.function_starts_bytes@,
                data_in_code: self.data_in_code_bytes@,
                symtab: self.symtab_bytes@,
                indirect: self.indirect_bytes@,
                strtab: self.strtab_bytes@,
            },
            weak_bind_bytes: self.weak_bind_bytes@,
            loh_bytes: self.loh_bytes@,
            code_signature: self.code_signature,
            indirect_starts: self.indirect_starts,
            lazy_bind_offsets: self.lazy_bind_offsets@,
            map_symbols: symbol_plan::map_view(self.map_symbols@),
        }
    }
}

impl LinkEditModel {
    /// Where the tables end in the file.
    pub open spec fn regular_end(self) -> u64 {
        (self.symtab.stroff as u64).wrapping_add(self.tables.strtab.len() as u64)
    }

    /// The size of the link-edit data.
    pub open spec fn size(self) -> u64 {
        match self.code_signature {
            Some(sig) => (sig.dataoff - self.base_off + sig.datasize) as u64,
            None => self.regular_end().saturating_sub(self.base_off as u64),
        }
    }
}

impl LinkEditPlan {
    /// How far the file is signed: the tables, rounded up to sixteen bytes.
    pub fn code_limit(&self) -> (r: u64)
        ensures
            r == writer::aligned(self@.regular_end(), 16),
    {
        align_up(
            (self.symtab.stroff as u64).wrapping_add(self.strtab_bytes.len() as u64),
            16,
        )
    }

    /// The plan with a place for the code signature.
    pub fn with_code_signature(self, signature: CodeSignaturePlan) -> (r: LinkEditPlan)
        ensures
            r@ == (LinkEditModel { code_signature: Some(signature), ..self@ }),
    {
        LinkEditPlan { code_signature: Some(signature), ..self }
    }

    pub fn total_size(&self) -> (r: u64)
        requires
            match self.code_signature {
                Some(sig) => sig.dataoff >= self.base_off,
                None => true,
            },
        ensures
            r == self@.size(),
    {
        let base_off: u64 = self.base_off as u64;
        match self.code_signature {
            Some(sig) => (sig.dataoff as u64 - base_off) + sig.datasize as u64,
            None => (self.symtab.stroff as u64).wrapping_add(
                self.strtab_bytes.len() as u64,
            ).saturating_sub(base_off),
        }
    }

    /// Where a symbol's lazy bind record starts.
    pub fn lazy_bind_offset(&self, symbol: SymbolId) -> (r: Option<u32>)
        ensures
            r == targets::lookup(self.lazy_bind_offsets@, symbol.0),
    {
        match self.lazy_bind_offsets.get(&symbol.0) {
            Some(offset) => Some(*offset),
            None => None,
        }
    }

    pub fn loh_bytes(&self) -> (r: &[u8])
        ensures
            r@ == self.loh_bytes@,
    {
        self.loh_bytes.as_slice()
    }
}

/// A block of `size` bytes behind `cursor`: where it starts, and where it ends.
pub open spec fn placed(cursor: u64, size: nat, what: Seq<char>) -> Result<(u32, u64), WriteFault> {
    let at = writer::aligned(cursor, 8);
    match writer::fit32(at, what) {
        Ok(offset) => Ok((offset, at.wrapping_add(size as u64))),
        Err(e) => Err(e),
    }
}

/// The same of a block that has no place where it is empty.
pub open spec fn placed_if_any(cursor: u64, size: nat, what: Seq<char>) -> Result<
    (u32, u64),
    WriteFault,
> {
    if size == 0 {
        Ok((0, cursor))
    } else {
        placed(cursor, size, what)
    }
}

pub fn place_required_block(cursor: &mut u64, size: usize, context: &'static str) -> (r: Result<
    u32,
    WriteError,
>)
    ensures
        match (r, placed(*old(cursor), size as nat, context@)) {
            (Ok(offset), Ok(p)) => offset == p.0 && *final(cursor) == p.1,
            (Err(e), Err(f)) => e@ == f,
            _ => false,
        },
{
    *cursor = align_up(*cursor, 8);
    let offset: u32 = match u32_fit(*cursor, context) {
        Ok(offset) => offset,
        Err(e) => {
            return Err(e);
        },
    };
    *cursor = cursor.wrapping_add(size as u64);
    Ok(offset)
}

pub fn place_optional_block(cursor: &mut u64, size: usize, context: &'static str) -> (r: Result<
    u32,
    WriteError,
>)
    ensures
        match (r, placed_if_any(*old(cursor), size as nat, context@)) {
            (Ok(offset), Ok(p)) => offset == p.0 && *final(cursor) == p.1,
            (Err(e), Err(f)) => e@ == f,
            _ => false,
        },
{
    if size == 0 {
        return Ok(0);
    }
    place_required_block(cursor, size, context)
}

pub fn place_linkedit_data_block(
    cursor: &mut u64,
    size: usize,
    context: &'static str,
) -> (r: Result<LinkEditDataCmd, WriteError>)
    ensures
        match (r, placed(*old(cursor), size as nat, context@)) {
            (Ok(cmd), Ok(p)) => cmd == (LinkEditDataCmd { dataoff: p.0, datasize: size as u32 })
                && *final(cursor) == p.1,
            (Err(e), Err(f)) => e@ == f,
            _ => false,
        },
{
    match place_required_block(cursor, size, context) {
        Ok(dataoff) => Ok(LinkEditDataCmd { dataoff, datasize: size as u32 }),
        Err(e) => Err(e),
    }
}

pub fn place_optional_linkedit_data_block(
    cursor: &mut u64,
    size: usize,
    context: &'static str,
) -> (r: Result<Option<LinkEditDataCmd>, WriteError>)
    ensures
        size == 0 ==> r == Ok::<Option<LinkEditDataCmd>, WriteError>(None) && *final(cursor)
            == *old(cursor),
        size != 0 ==> match (r, placed(*old(cursor), size as nat, context@)) {
            (Ok(cmd), Ok(p)) => cmd == Some(
                LinkEditDataCmd { dataoff: p.0, datasize: size as u32 },
            ) && *final(cursor) == p.1,
            (Err(e), Err(f)) => e@ == f,
            _ => false,
        },
{
    if size == 0 {
        return Ok(None);
    }
    match place_linkedit_data_block(cursor, size, context) {
        Ok(cmd) => Ok(Some(cmd)),
        Err(e) => Err(e),
    }
}

/// Where the tables go.
#[derive(Debug, Clone, Copy, PartialEq, Eq, Structural)]
pub struct Places {
    pub rebase_off: u32,
    pub bind_off: u32,
    pub lazy_bind_off: u32,
    pub export_off: u32,
    pub function_starts_off: u32,
    pub data_in_code_off: u32,
    pub symoff: u32,
    pub indirectsymoff: u32,
    pub stroff: u32,
}

/// Where the tables for dyld go, and where the last of them ends.
pub open spec fn dyld_places(base: u32, t: Tables) -> Result<(Places, u64), WriteFault> {
    match placed_if_any(base as u64, t.rebase.len(), "rebase stream offset"@) {
        Err(e) => Err(e),
        Ok(rebase) => match placed_if_any(rebase.1, t.bind.len(), "bind stream offset"@) {
            Err(e) => Err(e),
            Ok(bind) => match placed_if_any(
                bind.1,
                t.lazy_bind.len(),
                "lazy bind stream offset"@,
            ) {
                Err(e) => Err(e),
                Ok(lazy) => match placed_if_any(lazy.1, t.export.len(), "export trie offset"@) {
                    Err(e) => Err(e),
                    Ok(export) => Ok(
                        (
                            Places {
                                rebase_off: rebase.0,
                                bind_off: bind.0,
                                lazy_bind_off: lazy.0,
                                export_off: export.0,
                                function_starts_off: 0,
                                data_in_code_off: 0,
                                symoff: 0,
                                indirectsymoff: 0,
                                stroff: 0,
                            },
                            export.1,
                        ),
                    ),
                },
            },
        },
    }
}

/// Where all tables go.
pub open spec fn places(base: u32, t: Tables) -> Result<Places, WriteFault> {
    match dyld_places(base, t) {
        Err(e) => Err(e),
        Ok((p, end)) => match placed(end, t.function_starts.len(), "function starts offset"@) {
            Err(e) => Err(e),
            Ok(fs) => match placed(fs.1, t.data_in_code.len(), "data-in-code offset"@) {
                Err(e) => Err(e),
                Ok(dic) => match placed(dic.1, t.symtab.len(), "symbol table offset"@) {
                    Err(e) => Err(e),
                    Ok(sym) => match placed_if_any(
                        sym.1,
                        t.indirect.len(),
                        "indirect symbol table offset"@,
                    ) {
                        Err(e) => Err(e),
                        Ok(ind) => match placed(ind.1, t.strtab.len(), "string table offset"@) {
                            Err(e) => Err(e),
                            Ok(strs) => Ok(
                                Places {
                                    function_starts_off: fs.0,
                                    data_in_code_off: dic.0,
                                    symoff: sym.0,
                                    indirectsymoff: ind.0,
                                    stroff: strs.0,
                                    ..p
                                },
                            ),
                        },
                    },
                },
            },
        },
    }
}

/// Blocks with their sizes, in the order in which they are placed.
pub open spec fn blocks(p: Places, t: Tables) -> Seq<(int, int)> {
    seq![
        (p.rebase_off as int, t.rebase.len() as int),
        (p.bind_off as int, t.bind.len() as int),
        (p.lazy_bind_off as int, t.lazy_bind.len() as int),
        (p.export_off as int, t.export.len() as int),
        (p.function_starts_off as int, t.function_starts.len() as int),
        (p.data_in_code_off as int, t.data_in_code.len() as int),
        (p.symoff as int, t.symtab.len() as int),
        (p.indirectsymoff as int, t.indirect.len() as int),
        (p.stroff as int, t.strtab.len() as int),
    ]
}

/// Every table's size fits its field.
pub open spec fn sizes_fit(t: Tables) -> bool {
    &&& t.rebase.len() <= u32::MAX
    &&& t.bind.len() <= u32::MAX
    &&& t.lazy_bind.len() <= u32::MAX
    &&& t.export.len() <= u32::MAX
    &&& t.function_starts.len() <= u32::MAX
    &&& t.data_in_code.len() <= u32::MAX
    &&& t.symtab.len() <= u32::MAX
    &&& t.indirect.len() <= u32::MAX
    &&& t.strtab.len() <= u32::MAX
}

proof fn lemma_placed(cursor: u64, size: nat, what: Seq<char>)
    requires
        cursor <= 0x2_0000_0000,
        size <= u32::MAX,
        placed(cursor, size, what) is Ok,
    ensures
        ({
            let p = placed(cursor, size, what)->Ok_0;
            &&& cursor <= p.0
            &&& p.0 % 8 == 0
            &&& p.1 == p.0 + size
        }),
{
    writer::law_align_up_8(cursor);
}

/// Block `i` stands behind the place `c[i]` and ends at `c[i + 1]`.
spec fn stands(c: Seq<int>, b: Seq<(int, int)>, i: int) -> bool {
    &&& c[i] <= c[i + 1]
    &&& b[i].1 > 0 ==> c[i] <= b[i].0 && b[i].0 % 8 == 0 && b[i].0 + b[i].1 == c[i + 1]
}

proof fn lemma_cursors_grow(c: Seq<int>, b: Seq<(int, int)>, i: int, j: int)
    requires
        0 <= i <= j <= b.len(),
        forall|k: int| 0 <= k < b.len() ==> #[trigger] stands(c, b, k),
    ensures
        c[i] <= c[j],
    decreases j - i,
{
    if i < j {
        assert(stands(c, b, i));
        lemma_cursors_grow(c, b, i + 1, j);
    }
}

proof fn lemma_placed_if_any(cursor: u64, size: nat, what: Seq<char>)
    requires
        cursor <= 0x2_0000_0000,
        size <= u32::MAX,
        placed_if_any(cursor, size, what) is Ok,
    ensures
        ({
            let p = placed_if_any(cursor, size, what)->Ok_0;
            &&& cursor <= p.1 <= 0x2_0000_0000
            &&& size > 0 ==> cursor <= p.0 && p.0 % 8 == 0 && p.1 == p.0 + size
        }),
{
    if size > 0 {
        lemma_placed(cursor, size, what);
    }
}

proof fn lemma_dyld_cursors(base: u32, t: Tables) -> (c: Seq<int>)
    requires
        sizes_fit(t),
        dyld_places(base, t) is Ok,
    ensures
        c.len() == 5,
        c[0] == base,
        c[4] == dyld_places(base, t)->Ok_0.1,
        c[4] <= 0x2_0000_0000,
        forall|p: Places| #[trigger]
            same_dyld(p, dyld_places(base, t)->Ok_0.0) ==> stands(c, blocks(p, t), 0) && stands(
                c,
                blocks(p, t),
                1,
            ) && stands(c, blocks(p, t), 2) && stands(c, blocks(p, t), 3),
{
    let c0 = base as u64;
    lemma_placed_if_any(c0, t.rebase.len(), "rebase stream offset"@);
    let c1 = placed_if_any(c0, t.rebase.len(), "rebase stream offset"@)->Ok_0.1;
    lemma_placed_if_any(c1, t.bind.len(), "bind stream offset"@);
    let c2 = placed_if_any(c1, t.bind.len(), "bind stream offset"@)->Ok_0.1;
    lemma_placed_if_any(c2, t.lazy_bind.len(), "lazy bind stream offset"@);
    let c3 = placed_if_any(c2, t.lazy_bind.len(), "lazy bind stream offset"@)->Ok_0.1;
    lemma_placed_if_any(c3, t.export.len(), "export trie offset"@);
    let c4 = placed_if_any(c3, t.export.len(), "export trie offset"@)->Ok_0.1;
    seq![c0 as int, c1 as int, c2 as int, c3 as int, c4 as int]
}

/// Both put the tables for dyld at the same places.
spec fn same_dyld(p: Places, q: Places) -> bool {
    p.rebase_off == q.rebase_off && p.bind_off == q.bind_off && p.lazy_bind_off
        == q.lazy_bind_off && p.export_off == q.export_off
}

proof fn lemma_cursors(base: u32, t: Tables) -> (c: Seq<int>)
    requires
        sizes_fit(t),
        places(base, t) is Ok,
    ensures
        c.len() == 10,
        c[0] == base,
        c[9] == places(base, t)->Ok_0.stroff + t.strtab.len(),
        forall|k: int| 0 <= k < 9 ==> #[trigger] stands(c, blocks(places(base, t)->Ok_0, t), k),
{
    let p = places(base, t)->Ok_0;
    let d = lemma_dyld_cursors(base, t);
    assert(same_dyld(p, dyld_places(base, t)->Ok_0.0));
    let c4 = dyld_places(base, t)->Ok_0.1;
    lemma_placed(c4, t.function_starts.len(), "function starts offset"@);
    let c5 = placed(c4, t.function_starts.len(), "function starts offset"@)->Ok_0.1;
    lemma_placed(c5, t.data_in_code.len(), "data-in-code offset"@);
    let c6 = placed(c5, t.data_in_code.len(), "data-in-code offset"@)->Ok_0.1;
    lemma_placed(c6, t.symtab.len(), "symbol table offset"@);
    let c7 = placed(c6, t.symtab.len(), "symbol table offset"@)->Ok_0.1;
    lemma_placed_if_any(c7, t.indirect.len(), "indirect symbol table offset"@);
    let c8 = placed_if_any(c7, t.indirect.len(), "indirect symbol table offset"@)->Ok_0.1;
    lemma_placed(c8, t.strtab.len(), "string table offset"@);
    let c9 = placed(c8, t.strtab.len(), "string table offset"@)->Ok_0.1;
    let c = d + seq![c5 as int, c6 as int, c7 as int, c8 as int, c9 as int];
    let b = blocks(p, t);
    assert(stands(c, b, 0) && stands(c, b, 1) && stands(c, b, 2) && stands(c, b, 3)) by {
        assert(stands(d, b, 0) && stands(d, b, 1) && stands(d, b, 2) && stands(d, b, 3));
    }
    assert(stands(c, b, 4) && stands(c, b, 5) && stands(c, b, 6));
    assert(stands(c, b, 7) && stands(c, b, 8));
    c
}

proof fn lemma_strings_behind(base: u32, t: Tables)
    requires
        sizes_fit(t),
        places(base, t) is Ok,
    ensures
        base <= places(base, t)->Ok_0.stroff,
{
    let more = Tables { strtab: seq![0u8], ..t };
    assert(dyld_places(base, more) == dyld_places(base, t));
    assert(places(base, more)->Ok_0 == places(base, t)->Ok_0);
    let b = blocks(places(base, more)->Ok_0, more);
    let c = lemma_cursors(base, more);
    assert(stands(c, b, 8));
    lemma_cursors_grow(c, b, 0, 8);
}

/// The tables stand one behind the other from the start of the link-edit data
/// on, each at a multiple of eight, no two of them overlap, and none ends behind the
/// strings.
pub proof fn law_tables_apart(base: u32, t: Tables)
    requires
        sizes_fit(t),
        places(base, t) is Ok,
    ensures
        ({
            let b = blocks(places(base, t)->Ok_0, t);
            &&& forall|i: int|
                0 <= i < b.len() && (#[trigger] b[i]).1 > 0 ==> base <= b[i].0 && b[i].0 % 8 == 0
                    && b[i].0 + b[i].1 <= b[8].0 + b[8].1
            &&& base <= b[8].0
            &&& forall|i: int, j: int|
                0 <= i < j < b.len() && (#[trigger] b[i]).1 > 0 && (#[trigger] b[j]).1 > 0
                    ==> b[i].0 + b[i].1 <= b[j].0
        }),
{
    let b = blocks(places(base, t)->Ok_0, t);
    let c = lemma_cursors(base, t);
    assert forall|i: int| 0 <= i < b.len() && (#[trigger] b[i]).1 > 0 implies base <= b[i].0
        && b[i].0 % 8 == 0 && b[i].0 + b[i].1 <= b[8].0 + b[8].1 by {
        assert(stands(c, b, i));
        lemma_cursors_grow(c, b, 0, i);
        lemma_cursors_grow(c, b, i + 1, 9);
    }
    assert(base <= b[8].0) by {
        lemma_strings_behind(base, t);
    }
    assert forall|i: int, j: int|
        0 <= i < j < b.len() && (#[trigger] b[i]).1 > 0 && (#[trigger] b[j]).1 > 0 implies b[i].0
        + b[i].1 <= b[j].0 by {
        assert(stands(c, b, i) && stands(c, b, j));
        lemma_cursors_grow(c, b, i + 1, j);
    }
}

/// The index of a slot's symbol, if a dylib provides it.
pub open spec fn indirect_index(
    symbol: SymbolId,
    records: Seq<ImportModel>,
    indices: Map<u32, u32>,
) -> u32 {
    if imports::import_of(records, symbol) is Some && indices.contains_key(symbol.0) {
        indices[symbol.0]
    } else {
        INDIRECT_SYMBOL_LOCAL
    }
}

pub fn indirect_symbol_index(
    symbol: SymbolId,
    import_lookup: &ImportLookup<'_>,
    symbol_indices: &HashMap<u32, u32>,
) -> (r: u32)
    requires
        import_lookup.wf(),
    ensures
        r == indirect_index(symbol, import_lookup@, symbol_indices@),
{
    if import_lookup.get(symbol).is_none() {
        return INDIRECT_SYMBOL_LOCAL;
    }
    match symbol_indices.get(&symbol.0) {
        Some(index) => *index,
        None => INDIRECT_SYMBOL_LOCAL,
    }
}

/// The indirect symbols of a section's slots.
pub open spec fn indirect_indices(
    entries: Seq<SlotEntry>,
    records: Seq<ImportModel>,
    indices: Map<u32, u32>,
) -> Seq<u32> {
    entries.map_values(|e: SlotEntry| indirect_index(e.symbol, records, indices))
}

/// Where a section starts in the indirect symbol table.
pub open spec fn indirect_start(before: nat, entries: Seq<SlotEntry>) -> Option<u32> {
    if entries.len() == 0 {
        None
    } else {
        Some(before as u32)
    }
}

pub fn push_indirect_section(
    indirect_symbols: &mut Vec<u32>,
    entries: &Vec<SlotEntry>,
    import_lookup: &ImportLookup<'_>,
    symbol_indices: &HashMap<u32, u32>,
) -> (r: Option<u32>)
    requires
        import_lookup.wf(),
    ensures
        final(indirect_symbols)@ == old(indirect_symbols)@ + indirect_indices(
            entries@,
            import_lookup@,
            symbol_indices@,
        ),
        r == indirect_start(old(indirect_symbols)@.len(), entries@),
{
    let ghost before = indirect_symbols@;
    let start: u32 = indirect_symbols.len() as u32;
    let ghost all = indirect_indices(entries@, import_lookup@, symbol_indices@);
    let mut i: usize = 0;
    assert(indirect_symbols@ =~= before + all.take(0));
    while i < entries.len()
        invariant
            i <= entries@.len(),
            import_lookup.wf(),
            all == indirect_indices(entries@, import_lookup@, symbol_indices@),
            indirect_symbols@ == before + all.take(i as int),
        decreases entries@.len() - i,
    {
        indirect_symbols.push(
            indirect_symbol_index(entries[i].symbol, import_lookup, symbol_indices),
        );
        assert(indirect_symbols@ =~= before + all.take(i + 1));
        i += 1;
    }
    assert(all.take(i as int) =~= all);
    if entries.len() == 0 {
        None
    } else {
        Some(start)
    }
}

/// The indirect symbol table.
pub open spec fn indirect_symbols(
    plan: SyntheticPlan,
    records: Seq<ImportModel>,
    indices: Map<u32, u32>,
) -> Seq<u32> {
    indirect_indices(plan.stubs.entries@, records, indices) + indirect_indices(
        plan.got.entries@,
        records,
        indices,
    ) + indirect_indices(plan.lazy_pointers.entries@, records, indices)
}

pub open spec fn indirect_starts(plan: SyntheticPlan) -> IndirectStarts {
    IndirectStarts {
        stubs: indirect_start(0, plan.stubs.entries@),
        got: indirect_start(plan.stubs.entries@.len(), plan.got.entries@),
        lazy_pointers: indirect_start(
            plan.stubs.entries@.len() + plan.got.entries@.len(),
            plan.lazy_pointers.entries@,
        ),
    }
}

/// Numbers of four bytes each.
pub open spec fn words(s: Seq<u32>) -> Seq<u8>
    decreases s.len(),
{
    if s.len() == 0 {
        seq![]
    } else {
        words(s.drop_last()) + bytes::le32_bytes(s.last())
    }
}

fn words_of(s: &Vec<u32>) -> (r: Vec<u8>)
    ensures
        r@ == words(s@),
{
    let mut out: Vec<u8> = Vec::new();
    let mut i: usize = 0;
    assert(out@ =~= words(s@.take(0)));
    while i < s.len()
        invariant
            i <= s@.len(),
            out@ == words(s@.take(i as int)),
        decreases s@.len() - i,
    {
        assert(s@.take(i + 1).drop_last() =~= s@.take(i as int));
        push_u32(&mut out, s[i]);
        assert(out@ =~= words(s@.take(i + 1)));
        i += 1;
    }
    assert(s@.take(i as int) =~= s@);
    out
}

/// A stream with zeros up to the next multiple of eight.
pub open spec fn padded_stream(s: Seq<u8>) -> Seq<u8> {
    s + bytes::zeros((8 - s.len() as int % 8) % 8)
}

pub fn pad_dyld_info_stream(bytes: Vec<u8>) -> (r: Vec<u8>)
    ensures
        r@ == padded_stream(bytes@),
{
    let mut out = bytes;
    let pad: usize = (8 - out.len() % 8) % 8;
    push_zeros(&mut out, pad);
    out
}

/// The tables of an image. `trie` is the export trie.
pub open spec fn tables(
    layout: Layout,
    ctx: LinkEditContext,
    records: Seq<ImportModel>,
    symbols: SymbolPlanModel,
    trie: Seq<u8>,
) -> Result<Tables, WriteFault> {
    match bind::bind_streams(layout, *ctx.synthetic_plan, records) {
        Err(e) => Err(e),
        Ok(binds) => match rebase::stream(ctx, layout) {
            Err(e) => Err(e),
            Ok(rebases) => match starts::function_starts(
                layout,
                ctx.atom_table@,
                ctx.layout_inputs@,
            ) {
                Err(e) => Err(e),
                Ok(function_starts) => match data_in_code::table(
                    layout.sections@,
                    ctx.atom_table@,
                    targets::redirect_map(ctx.icf_redirects),
                    ctx.layout_inputs@,
                ) {
                    Err(e) => Err(e),
                    Ok(data_in_code) => Ok(
                        Tables {
                            rebase: padded_stream(rebases),
                            bind: padded_stream(binds.bind),
                            lazy_bind: padded_stream(binds.lazy.stream),
                            export: padded_stream(trie),
                            function_starts,
                            data_in_code,
                            symtab: symbol::nlist_table_bytes(symbols.symbols),
                            indirect: words(
                                indirect_symbols(
                                    *ctx.synthetic_plan,
                                    records,
                                    symbols.symbol_indices,
                                ),
                            ),
                            strtab: symbols.strtab,
                        },
                    ),
                },
            },
        },
    }
}

/// The plan of tables at their places.
pub open spec fn plan_of(
    base: u32,
    t: Tables,
    p: Places,
    plan: SyntheticPlan,
    symbols: SymbolPlanModel,
    lazy_offsets: Map<u32, u32>,
) -> LinkEditModel {
    LinkEditModel {
        base_off: base,
        symtab: SymtabCmd {
            symoff: p.symoff,
            nsyms: symbols.symbols.len() as u32,
            stroff: p.stroff,
            strsize: t.strtab.len() as u32,
        },
        dysymtab: DysymtabCmd {
            indirectsymoff: p.indirectsymoff,
            nindirectsyms: (plan.stubs.entries@.len() + plan.got.entries@.len()
                + plan.lazy_pointers.entries@.len()) as u32,
            ..symbols.dysymtab
        },
        dyld_info: DyldInfoCmd {
            rebase_off: p.rebase_off,
            rebase_size: t.rebase.len() as u32,
            bind_off: p.bind_off,
            bind_size: t.bind.len() as u32,
            weak_bind_off: 0,
            weak_bind_size: 0,
            lazy_bind_off: p.lazy_bind_off,
            lazy_bind_size: t.lazy_bind.len() as u32,
            export_off: p.export_off,
            export_size: t.export.len() as u32,
        },
        loh: None,
        function_starts: LinkEditDataCmd {
            dataoff: p.function_starts_off,
            datasize: t.function_starts.len() as u32,
        },
        data_in_code: LinkEditDataCmd {
            dataoff: p.data_in_code_off,
            datasize: t.data_in_code.len() as u32,
        },
        tables: t,
        weak_bind_bytes: seq![],
        loh_bytes: seq![],
        code_signature: None,
        indirect_starts: indirect_starts(plan),
        lazy_bind_offsets: lazy_offsets,
        map_symbols: symbols.map_symbols,
    }
}

/// Where the link-edit segment starts in the file.
pub open spec fn linkedit_base(layout: Layout) -> Result<u32, WriteFault> {
    match layout::segment_at(layout.segments@, "__LINKEDIT"@) {
        None => Err(WriteFault::MissingSegment("__LINKEDIT"@)),
        Some(i) => writer::fit32(layout.segments@[i].file_off, "linkedit file offset"@),
    }
}

/// The link-edit plan of an image, before it is signed.
pub open spec fn linkedit_plan(
    layout: Layout,
    ctx: LinkEditContext,
    records: Seq<ImportModel>,
    symbols: SymbolPlanModel,
    trie: Seq<u8>,
) -> Result<LinkEditModel, WriteFault> {
    match linkedit_base(layout) {
        Err(e) => Err(e),
        Ok(base) => match tables(layout, ctx, records, symbols, trie) {
            Err(e) => Err(e),
            Ok(t) => match places(base, t) {
                Err(e) => Err(e),
                Ok(p) => Ok(
                    plan_of(
                        base,
                        t,
                        p,
                        *ctx.synthetic_plan,
                        symbols,
                        bind::bind_streams(
                            layout,
                            *ctx.synthetic_plan,
                            records,
                        )->Ok_0.lazy.offsets,
                    ),
                ),
            },
        },
    }
}

/// Same plan, same fault.
pub open spec fn same_plan(
    r: Result<LinkEditPlan, WriteError>,
    s: Result<LinkEditModel, WriteFault>,
) -> bool {
    match (r, s) {
        (Ok(plan), Ok(m)) => plan@ == m,
        (Err(e), Err(f)) => e@ == f,
        _ => false,
    }
}

pub fn find_linkedit_base(layout: &Layout) -> (r: Result<u32, WriteError>)
    ensures
        writer::same_result(r, linkedit_base(*layout)),
{
    match layout.segment("__LINKEDIT") {
        Some(segment) => u32_fit(segment.file_off, "linkedit file offset"),
        None => Err(WriteError::MissingSegment("__LINKEDIT")),
    }
}

/// The plan of an image without symbols.
pub open spec fn minimal_plan(base: u32) -> LinkEditModel {
    LinkEditModel {
        base_off: base,
        symtab: SymtabCmd { symoff: base, nsyms: 0, stroff: base, strsize: 8 },
        dysymtab: DysymtabCmd::zero(),
        dyld_info: DyldInfoCmd::zero(),
        loh: None,
        function_starts: LinkEditDataCmd { dataoff: base, datasize: 0 },
        data_in_code: LinkEditDataCmd { dataoff: base, datasize: 0 },
        tables: Tables {
            rebase: seq![],
            bind: seq![],
            lazy_bind: seq![],
            export: seq![],
            function_starts: seq![],
            data_in_code: seq![],
            symtab: seq![],
            indirect: seq![],
            strtab: bytes::zeros(8),
        },
        weak_bind_bytes: seq![],
        loh_bytes: seq![],
        code_signature: None,
        indirect_starts: IndirectStarts { stubs: None, got: None, lazy_pointers: None },
        lazy_bind_offsets: Map::empty(),
        map_symbols: seq![],
    }
}

impl LinkEditPlan {
    /// The plan of an image without symbols.
    pub fn minimal(layout: &Layout) -> (r: Result<LinkEditPlan, WriteError>)
        ensures
            same_plan(
                r,
                match linkedit_base(*layout) {
                    Ok(base) => Ok(minimal_plan(base)),
                    Err(e) => Err(e),
                },
            ),
    {
        let base_off: u32 = match find_linkedit_base(layout) {
            Ok(base) => base,
            Err(e) => {
                return Err(e);
            },
        };
        let mut strtab_bytes: Vec<u8> = Vec::new();
        push_zeros(&mut strtab_bytes, 8);
        assert(strtab_bytes@ =~= bytes::zeros(8));
        let plan = LinkEditPlan {
            base_off,
            symtab: SymtabCmd { symoff: base_off, nsyms: 0, stroff: base_off, strsize: 8 },
            dysymtab: DysymtabCmd::default(),
            dyld_info: DyldInfoCmd::default(),
            loh: None,
            function_starts: LinkEditDataCmd { dataoff: base_off, datasize: 0 },
            data_in_code: LinkEditDataCmd { dataoff: base_off, datasize: 0 },
            symtab_bytes: Vec::new(),
            indirect_bytes: Vec::new(),
            rebase_bytes: Vec::new(),
            bind_bytes: Vec::new(),
            weak_bind_bytes: Vec::new(),
            lazy_bind_bytes: Vec::new(),
            export_bytes: Vec::new(),
            loh_bytes: Vec::new(),
            function_starts_bytes: Vec::new(),
            data_in_code_bytes: Vec::new(),
            strtab_bytes,
            code_signature: None,
            indirect_starts: IndirectStarts { stubs: None, got: None, lazy_pointers: None },
            lazy_bind_offsets: HashMap::new(),
            map_symbols: Vec::new(),
        };
        assert(symbol_plan::map_view(plan.map_symbols@) =~= seq![]);
        assert(plan@ =~= minimal_plan(base_off));
        Ok(plan)
    }
}

/// The tables with what goes with them, as vectors.
struct BuiltTables {
    rebase: Vec<u8>,
    bind: Vec<u8>,
    weak_bind: Vec<u8>,
    lazy_bind: Vec<u8>,
    export: Vec<u8>,
    loh: Vec<u8>,
    function_starts: Vec<u8>,
    data_in_code: Vec<u8>,
    symtab: Vec<u8>,
    indirect: Vec<u8>,
    indirect_count: usize,
    starts: IndirectStarts,
    lazy_offsets: HashMap<u32, u32>,
}

impl BuiltTables {
    spec fn are(self, t: Tables, plan: SyntheticPlan) -> bool {
        &&& self.rebase@ == t.rebase
        &&& self.bind@ == t.bind
        &&& self.weak_bind@.len() == 0
        &&& self.lazy_bind@ == t.lazy_bind
        &&& self.export@ == t.export
        &&& self.loh@.len() == 0
        &&& self.function_starts@ == t.function_starts
        &&& self.data_in_code@ == t.data_in_code
        &&& self.symtab@ == t.symtab
        &&& self.indirect@ == t.indirect
        &&& self.indirect_count == plan.stubs.entries@.len() + plan.got.entries@.len()
            + plan.lazy_pointers.entries@.len()
        &&& self.starts == indirect_starts(plan)
    }
}

/// What the tables of an image are built from holds together.
pub open spec fn sound(layout: Layout, ctx: LinkEditContext) -> bool {
    &&& ctx.sym_table.wf()
    &&& ctx.atom_table.wf()
    &&& maps::atoms_known(layout.sections@, ctx.atom_table@)
    &&& targets::redirections_end(targets::redirect_map(ctx.icf_redirects))
    &&& fill::symbols_known(ctx.synthetic_plan.got.entries@, ctx.sym_table@.symbols.len())
}

fn build_tables(
    layout: &Layout,
    ctx: &LinkEditContext<'_>,
    lookup: &ImportLookup<'_>,
    symbols: &SymbolTablePlan,
    trie: Vec<u8>,
) -> (r: Result<BuiltTables, WriteError>)
    requires
        sound(*layout, *ctx),
        lookup.wf(),
    ensures
        match (r, tables(*layout, *ctx, lookup@, symbols@, trie@)) {
            (Ok(built), Ok(t)) => built.are(t, *ctx.synthetic_plan) && t.strtab
                == symbols.strtab_bytes@ && built.lazy_offsets@ == bind::bind_streams(
                *layout,
                *ctx.synthetic_plan,
                lookup@,
            )->Ok_0.lazy.offsets,
            (Err(e), Err(f)) => e@ == f,
            _ => false,
        },
{
    let mut symtab: Vec<u8> = Vec::new();
    write_nlist_table(symbols.symbols.as_slice(), &mut symtab);
    assert(symtab@ =~= symbol::nlist_table_bytes(symbols.symbols@));
    let plan = ctx.synthetic_plan;
    let mut indirect: Vec<u32> = Vec::new();
    let stubs = push_indirect_section(
        &mut indirect,
        &plan.stubs.entries,
        lookup,
        &symbols.symbol_indices,
    );
    let got = push_indirect_section(
        &mut indirect,
        &plan.got.entries,
        lookup,
        &symbols.symbol_indices,
    );
    let lazy_pointers = push_indirect_section(
        &mut indirect,
        &plan.lazy_pointers.entries,
        lookup,
        &symbols.symbol_indices,
    );
    assert(indirect@ =~= indirect_symbols(*plan, lookup@, symbols@.symbol_indices));
    let streams = match build_bind_streams(layout, plan, lookup) {
        Ok(streams) => streams,
        Err(e) => {
            return Err(e);
        },
    };
    let rebase = match build_rebase_stream(layout, ctx) {
        Ok(rebase) => rebase,
        Err(e) => {
            return Err(e);
        },
    };
    let function_starts = match build_function_starts(layout, ctx.layout_inputs, ctx.atom_table) {
        Ok(starts) => starts,
        Err(e) => {
            return Err(e);
        },
    };
    let data_in_code = match build_data_in_code(
        layout,
        ctx.layout_inputs,
        ctx.atom_table,
        ctx.icf_redirects,
    ) {
        Ok(entries) => entries,
        Err(e) => {
            return Err(e);
        },
    };
    Ok(
        BuiltTables {
            rebase: pad_dyld_info_stream(rebase),
            bind: pad_dyld_info_stream(streams.bind),
            weak_bind: pad_dyld_info_stream(streams.weak_bind),
            lazy_bind: pad_dyld_info_stream(streams.lazy_bind),
            export: pad_dyld_info_stream(trie),
            loh: Vec::new(),
            function_starts,
            data_in_code,
            symtab,
            indirect: words_of(&indirect),
            indirect_count: indirect.len(),
            starts: IndirectStarts { stubs, got, lazy_pointers },
            lazy_offsets: streams.lazy_offsets,
        },
    )
}

fn place_tables(base_off: u32, b: &BuiltTables, strtab: &Vec<u8>, Ghost(t): Ghost<Tables>, Ghost(
    plan,
): Ghost<SyntheticPlan>) -> (r: Result<Places, WriteError>)
    requires
        b.are(t, plan),
        strtab@ == t.strtab,
    ensures
        writer::same_result(r, places(base_off, t)),
{
    let mut cursor: u64 = base_off as u64;
    let rebase_off: u32 = match place_optional_block(
        &mut cursor,
        b.rebase.len(),
        "rebase stream offset",
    ) {
        Ok(off) => off,
        Err(e) => {
            return Err(e);
        },
    };
    let bind_off: u32 = match place_optional_block(
        &mut cursor,
        b.bind.len(),
        "bind stream offset",
    ) {
        Ok(off) => off,
        Err(e) => {
            return Err(e);
        },
    };
    let weak_bind_off: u32 = match place_optional_block(
        &mut cursor,
        b.weak_bind.len(),
        "weak bind stream offset",
    ) {
        Ok(off) => off,
        Err(e) => {
            return Err(e);
        },
    };
    let lazy_bind_off: u32 = match place_optional_block(
        &mut cursor,
        b.lazy_bind.len(),
        "lazy bind stream offset",
    ) {
        Ok(off) => off,
        Err(e) => {
            return Err(e);
        },
    };
    let export_off: u32 = match place_optional_block(
        &mut cursor,
        b.export.len(),
        "export trie offset",
    ) {
        Ok(off) => off,
        Err(e) => {
            return Err(e);
        },
    };
    if let Err(e) = place_optional_linkedit_data_block(&mut cursor, b.loh.len(), "LOH offset") {
        return Err(e);
    }
    let function_starts = match place_linkedit_data_block(
        &mut cursor,
        b.function_starts.len(),
        "function starts offset",
    ) {
        Ok(cmd) => cmd,
        Err(e) => {
            return Err(e);
        },
    };
    let data_in_code = match place_linkedit_data_block(
        &mut cursor,
        b.data_in_code.len(),
        "data-in-code offset",
    ) {
        Ok(cmd) => cmd,
        Err(e) => {
            return Err(e);
        },
    };
    let symoff: u32 = match place_required_block(
        &mut cursor,
        b.symtab.len(),
        "symbol table offset",
    ) {
        Ok(off) => off,
        Err(e) => {
            return Err(e);
        },
    };
    let indirectsymoff: u32 = match place_optional_block(
        &mut cursor,
        b.indirect.len(),
        "indirect symbol table offset",
    ) {
        Ok(off) => off,
        Err(e) => {
            return Err(e);
        },
    };
    let stroff: u32 = match place_required_block(
        &mut cursor,
        strtab.len(),
        "string table offset",
    ) {
        Ok(off) => off,
        Err(e) => {
            return Err(e);
        },
    };
    Ok(
        Places {
            rebase_off,
            bind_off,
            lazy_bind_off,
            export_off,
            function_starts_off: function_starts.dataoff,
            data_in_code_off: data_in_code.dataoff,
            symoff,
            indirectsymoff,
            stroff,
        },
    )
}

/// Plans the link-edit data of an image. The export trie is taken as it is.
pub fn build_linkedit_plan(
    layout: &Layout,
    ctx: &LinkEditContext<'_>,
    records: &Vec<ImportSymbolRecord>,
    symbols: SymbolTablePlan,
    export_trie: Vec<u8>,
) -> (r: Result<LinkEditPlan, WriteError>)
    requires
        sound(*layout, *ctx),
    ensures
        same_plan(
            r,
            linkedit_plan(
                *layout,
                *ctx,
                imports::imports_view(records@),
                symbols@,
                export_trie@,
            ),
        ),
{
    let base_off: u32 = match find_linkedit_base(layout) {
        Ok(base) => base,
        Err(e) => {
            return Err(e);
        },
    };
    let lookup = ImportLookup::new(records);
    let ghost model = symbols@;
    let ghost wanted = tables(*layout, *ctx, lookup@, symbols@, export_trie@);
    let b = match build_tables(layout, ctx, &lookup, &symbols, export_trie) {
        Ok(b) => b,
        Err(e) => {
            return Err(e);
        },
    };
    let ghost t = wanted->Ok_0;
    let p = match place_tables(
        base_off,
        &b,
        &symbols.strtab_bytes,
        Ghost(t),
        Ghost(*ctx.synthetic_plan),
    ) {
        Ok(p) => p,
        Err(e) => {
            return Err(e);
        },
    };
    let plan = LinkEditPlan {
        base_off,
        symtab: SymtabCmd {
            symoff: p.symoff,
            nsyms: symbols.symbols.len() as u32,
            stroff: p.stroff,
            strsize: symbols.strtab_bytes.len() as u32,
        },
        dysymtab: DysymtabCmd {
            indirectsymoff: p.indirectsymoff,
            nindirectsyms: b.indirect_count as u32,
            ..symbols.dysymtab
        },
        dyld_info: DyldInfoCmd {
            rebase_off: p.rebase_off,
            rebase_size: b.rebase.len() as u32,
            bind_off: p.bind_off,
            bind_size: b.bind.len() as u32,
            weak_bind_off: 0,
            weak_bind_size: b.weak_bind.len() as u32,
            lazy_bind_off: p.lazy_bind_off,
            lazy_bind_size: b.lazy_bind.len() as u32,
            export_off: p.export_off,
            export_size: b.export.len() as u32,
        },
        loh: None,
        function_starts: LinkEditDataCmd {
            dataoff: p.function_starts_off,
            datasize: b.function_starts.len() as u32,
        },
        data_in_code: LinkEditDataCmd {
            dataoff: p.data_in_code_off,
            datasize: b.data_in_code.len() as u32,
        },
        symtab_bytes: b.symtab,
        indirect_bytes: b.indirect,
        rebase_bytes: b.rebase,
        bind_bytes: b.bind,
        weak_bind_bytes: b.weak_bind,
        lazy_bind_bytes: b.lazy_bind,
        export_bytes: b.export,
        loh_bytes: b.loh,
        function_starts_bytes: b.function_starts,
        data_in_code_bytes: b.data_in_code,
        strtab_bytes: symbols.strtab_bytes,
        code_signature: None,
        indirect_starts: b.starts,
        lazy_bind_offsets: b.lazy_offsets,
        map_symbols: symbols.map_symbols,
    };
    assert(plan.weak_bind_bytes@ =~= seq![]);
    assert(plan.loh_bytes@ =~= seq![]);
    assert(plan@ =~= plan_of(
        base_off,
        t,
        p,
        *ctx.synthetic_plan,
        model,
        plan.lazy_bind_offsets@,
    ));
    Ok(plan)
}

/// A section's start in the indirect symbol table, if it has one.
pub open spec fn start_for(starts: IndirectStarts, section: OutputSection) -> Option<u32> {
    if layout::is_section(section, "__TEXT"@, "__stubs"@) {
        starts.stubs
    } else if layout::is_section(section, "__DATA_CONST"@, "__got"@) {
        starts.got
    } else if layout::is_section(section, "__DATA"@, "__la_symbol_ptr"@) {
        starts.lazy_pointers
    } else {
        None
    }
}

/// A section with its start in the indirect symbol table.
pub open spec fn with_start(starts: IndirectStarts, section: OutputSection) -> OutputSection {
    match start_for(starts, section) {
        Some(start) => OutputSection { reserved1: start, ..section },
        None => section,
    }
}

fn find_start(starts: &IndirectStarts, section: &OutputSection) -> (r: Option<u32>)
    ensures
        r == start_for(*starts, *section),
{
    let segment = section.segment.as_str();
    let name = section.name.as_str();
    if same_text(segment, "__TEXT") && same_text(name, "__stubs") {
        starts.stubs
    } else if same_text(segment, "__DATA_CONST") && same_text(name, "__got") {
        starts.got
    } else if same_text(segment, "__DATA") && same_text(name, "__la_symbol_ptr") {
        starts.lazy_pointers
    } else {
        None
    }
}

/// Tells the sections where they start in the indirect symbol table.
pub fn apply_indirect_starts(layout: &mut Layout, linkedit: &LinkEditPlan)
    ensures
        final(layout).kind == old(layout).kind,
        final(layout).segments@ == old(layout).segments@,
        final(layout).sections@ == old(layout).sections@.map_values(
            |s: OutputSection| with_start(linkedit.indirect_starts, s),
        ),
{
    let ghost before = layout.sections@;
    let n: usize = layout.sections.len();
    let mut i: usize = 0;
    while i < n
        invariant
            i <= n,
            n == before.len(),
            layout.sections@.len() == n,
            layout.kind == old(layout).kind,
            layout.segments@ == old(layout).segments@,
            forall|k: int|
                0 <= k < i ==> #[trigger] layout.sections@[k] == with_start(
                    linkedit.indirect_starts,
                    before[k],
                ),
            forall|k: int| i <= k < n ==> #[trigger] layout.sections@[k] == before[k],
        decreases n - i,
    {
        if let Some(start) = find_start(&linkedit.indirect_starts, &layout.sections[i]) {
            layout.sections[i].reserved1 = start;
        }
        i += 1;
    }
    assert(layout.sections@ =~= before.map_values(
        |s: OutputSection| with_start(linkedit.indirect_starts, s),
    ));
}

/// Gives the link-edit segment the size of its data.
pub fn size_linkedit_segment(layout: &mut Layout, linkedit: &LinkEditPlan) -> (r: Result<
    (),
    WriteError,
>)
    requires
        match linkedit.code_signature {
            Some(sig) => sig.dataoff >= linkedit.base_off,
            None => true,
        },
    ensures
        final(layout).kind == old(layout).kind,
        final(layout).sections@ == old(layout).sections@,
        match layout::segment_at(old(layout).segments@, "__LINKEDIT"@) {
            None => r == Err::<(), WriteError>(WriteError::MissingSegment("__LINKEDIT"))
                && final(layout).segments@ == old(layout).segments@,
            Some(i) => {
                let size: u64 = if linkedit@.size() == 0 {
                    1
                } else {
                    linkedit@.size()
                };
                &&& r is Ok
                &&& final(layout).segments@ == old(layout).segments@.update(
                    i,
                    crate::section::OutputSegment {
                        file_size: size,
                        vm_size: writer::aligned(size, PAGE_SIZE),
                        ..old(layout).segments@[i]
                    },
                )
            },
        },
{
    let i: usize = match layout.find_segment("__LINKEDIT") {
        Some(i) => i,
        None => {
            return Err(WriteError::MissingSegment("__LINKEDIT"));
        },
    };
    let total: u64 = linkedit.total_size();
    let size: u64 = if total == 0 {
        1
    } else {
        total
    };
    layout.segments[i].file_size = size;
    layout.segments[i].vm_size = align_up(size, PAGE_SIZE);
    Ok(())
}

} // verus!
