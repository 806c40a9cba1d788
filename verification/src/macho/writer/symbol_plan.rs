//! The symbol table of an image: its order, its names and its exports.

use std::collections::HashMap;
use vstd::prelude::*;
use crate::layout;
use crate::layout::Layout;
use crate::macho::constants::{
    EXPORT_SYMBOL_FLAGS_KIND_ABSOLUTE, EXPORT_SYMBOL_FLAGS_KIND_THREAD_LOCAL,
    EXPORT_SYMBOL_FLAGS_WEAK_DEFINITION, NO_SECT, N_ABS, N_EXT, N_TYPE, N_UNDF, N_WEAK_DEF,
    N_WEAK_REF,
};
use crate::macho::exports;
use crate::macho::exports::{ExportEntry, ExportKind, ExportModel};
use crate::macho::reader::DysymtabCmd;
use crate::macho::writer::imports;
use crate::macho::writer::imports::{ImportModel, ImportSymbolRecord};
use crate::macho::writer::ranges::build_atom_range_index;
use crate::macho::writer::symbols;
use crate::macho::writer::symbols::{
    collect_synthetic_local_symbols, push_all_locals, push_globals, push_header_symbol, push_spec,
    GlobalEnv, LocalSymbolContext, OutputSymbolPartition, OutputSymbolSpec, SymbolModel,
};
use crate::macho::writer::{LinkEditContext, LinkMapSymbol, WriteError, WriteFault};
use crate::options::OutputKind;
use crate::reloc::arm64::maps;
use crate::reloc::arm64::maps::{atom_address_map, atom_output_segment_map, InputMap};
use crate::reloc::arm64::targets;
use crate::resolve::suggest;
use crate::section::{OutputSection, SectionKind};
use crate::sorting;
use crate::sorting::{stable_sort, Order};
use crate::string_table;
use crate::string_table::{StringOffsets, StringTableBuilder};
use crate::symbol::{InputSymbol, RawNlist};
use crate::symbol_visibility::SymbolVisibilityPolicy;
use crate::text;
use crate::text::is_text_less;

verus! {

broadcast use vstd::std_specs::hash::group_hash_axioms;

/// Local symbols by section, value, type and name.
pub open spec fn local_less(a: SymbolModel, b: SymbolModel) -> bool {
    if a.n_sect != b.n_sect {
        a.n_sect < b.n_sect
    } else if a.n_value != b.n_value {
        a.n_value < b.n_value
    } else if a.n_type != b.n_type {
        a.n_type < b.n_type
    } else {
        text::text_less(a.name, b.name)
    }
}

pub open spec fn local_order() -> spec_fn(SymbolModel, SymbolModel) -> bool {
    |a: SymbolModel, b: SymbolModel| local_less(a, b)
}

pub open spec fn name_order() -> spec_fn(SymbolModel, SymbolModel) -> bool {
    |a: SymbolModel, b: SymbolModel| text::text_less(a.name, b.name)
}

/// Local symbols in the order of the table.
pub struct ByPlace;

impl Order<OutputSymbolSpec> for ByPlace {
    open spec fn less(a: OutputSymbolSpec, b: OutputSymbolSpec) -> bool {
        local_less(a@, b@)
    }

    fn is_less(a: &OutputSymbolSpec, b: &OutputSymbolSpec) -> (r: bool) {
        if a.n_sect != b.n_sect {
            a.n_sect < b.n_sect
        } else if a.n_value != b.n_value {
            a.n_value < b.n_value
        } else if a.n_type != b.n_type {
            a.n_type < b.n_type
        } else {
            is_text_less(a.name.as_str(), b.name.as_str())
        }
    }

    proof fn law_asymmetric(a: OutputSymbolSpec, b: OutputSymbolSpec) {
        text::lemma_bytes_less_asymmetric(text::utf8(a.name@), text::utf8(b.name@));
    }

    proof fn law_transitive(a: OutputSymbolSpec, b: OutputSymbolSpec, c: OutputSymbolSpec) {
        text::lemma_bytes_less_transitive(
            text::utf8(a.name@),
            text::utf8(b.name@),
            text::utf8(c.name@),
        );
    }
}

/// Symbols by their names.
pub struct ByName;

impl Order<OutputSymbolSpec> for ByName {
    open spec fn less(a: OutputSymbolSpec, b: OutputSymbolSpec) -> bool {
        text::text_less(a.name@, b.name@)
    }

    fn is_less(a: &OutputSymbolSpec, b: &OutputSymbolSpec) -> (r: bool) {
        is_text_less(a.name.as_str(), b.name.as_str())
    }

    proof fn law_asymmetric(a: OutputSymbolSpec, b: OutputSymbolSpec) {
        text::lemma_bytes_less_asymmetric(text::utf8(a.name@), text::utf8(b.name@));
    }

    proof fn law_transitive(a: OutputSymbolSpec, b: OutputSymbolSpec, c: OutputSymbolSpec) {
        text::lemma_bytes_less_transitive(
            text::utf8(a.name@),
            text::utf8(b.name@),
            text::utf8(c.name@),
        );
    }
}

pub fn sort_local_symbols(locals: &mut Vec<OutputSymbolSpec>)
    ensures
        symbols::symbols_view(final(locals)@) == sorting::sorted_by(
            symbols::symbols_view(old(locals)@),
            local_order(),
        ),
{
    proof {
        sorting::lemma_sort_map::<OutputSymbolSpec, SymbolModel, ByPlace>(
            locals@,
            |s: OutputSymbolSpec| s@,
            local_order(),
        );
    }
    stable_sort::<OutputSymbolSpec, ByPlace>(locals);
}

fn sort_by_name(specs: &mut Vec<OutputSymbolSpec>)
    ensures
        symbols::symbols_view(final(specs)@) == sorting::sorted_by(
            symbols::symbols_view(old(specs)@),
            name_order(),
        ),
{
    proof {
        sorting::lemma_sort_map::<OutputSymbolSpec, SymbolModel, ByName>(
            specs@,
            |s: OutputSymbolSpec| s@,
            name_order(),
        );
    }
    stable_sort::<OutputSymbolSpec, ByName>(specs);
}

/// A symbol that a dylib is to provide.
pub open spec fn undefined_symbol(import: ImportModel) -> SymbolModel {
    SymbolModel {
        symbol: Some(import.symbol),
        name: import.name,
        partition: OutputSymbolPartition::Undefined,
        n_type: N_UNDF | N_EXT,
        n_sect: NO_SECT,
        n_desc: (import.ordinal << 8u16) | (if import.weak_import {
            N_WEAK_REF
        } else {
            0
        }),
        n_value: 0,
        size: 0,
        file_index: 0,
    }
}

pub open spec fn undefined_symbols(records: Seq<ImportModel>) -> Seq<SymbolModel> {
    records.map_values(|r: ImportModel| undefined_symbol(r))
}

fn make_undefined(records: &Vec<ImportSymbolRecord>) -> (r: Vec<OutputSymbolSpec>)
    ensures
        symbols::symbols_view(r@) == undefined_symbols(imports::imports_view(records@)),
{
    let ghost all = imports::imports_view(records@);
    let mut out: Vec<OutputSymbolSpec> = Vec::new();
    let mut i: usize = 0;
    assert(symbols::symbols_view(out@) =~= undefined_symbols(all.take(0)));
    while i < records.len()
        invariant
            i <= records@.len(),
            all == imports::imports_view(records@),
            symbols::symbols_view(out@) == undefined_symbols(all.take(i as int)),
        decreases records@.len() - i,
    {
        let record = &records[i];
        let weak_bit: u16 = if record.weak_import {
            N_WEAK_REF
        } else {
            0
        };
        let spec = OutputSymbolSpec {
            symbol: Some(record.symbol),
            name: record.name.clone(),
            partition: OutputSymbolPartition::Undefined,
            n_type: N_UNDF | N_EXT,
            n_sect: NO_SECT,
            n_desc: (record.ordinal << 8u16) | weak_bit,
            n_value: 0,
            size: 0,
            file_index: 0,
        };
        let ghost before = symbols::symbols_view(out@);
        push_spec(&mut out, spec);
        assert(spec@ == undefined_symbol(all[i as int]));
        assert(symbols::symbols_view(out@) =~= undefined_symbols(all.take(i + 1)));
        i += 1;
    }
    assert(all.take(i as int) =~= all);
    out
}

/// A thread's own copy of the section's contents is made for each thread.
pub open spec fn thread_local(sections: Seq<OutputSection>, n_sect: u8) -> bool {
    &&& 1 <= n_sect <= sections.len()
    &&& sections[n_sect - 1].kind == SectionKind::ThreadLocalRegular || sections[n_sect - 1].kind
        == SectionKind::ThreadLocalZeroFill
}

pub fn section_is_thread_local(layout: &Layout, n_sect: u8) -> (r: bool)
    ensures
        r == thread_local(layout.sections@, n_sect),
{
    if n_sect == 0 || n_sect as usize > layout.sections.len() {
        return false;
    }
    let kind = layout.sections[n_sect as usize - 1].kind;
    kind == SectionKind::ThreadLocalRegular || kind == SectionKind::ThreadLocalZeroFill
}

/// The flags with which a symbol is exported.
pub open spec fn export_flags(
    sections: Seq<OutputSection>,
    n_desc: u16,
    n_type: u8,
    n_sect: u8,
) -> u64 {
    let weak: u64 = if n_desc & N_WEAK_DEF != 0 {
        EXPORT_SYMBOL_FLAGS_WEAK_DEFINITION
    } else {
        0
    };
    if n_type & N_TYPE == N_ABS {
        weak | EXPORT_SYMBOL_FLAGS_KIND_ABSOLUTE
    } else if thread_local(sections, n_sect) {
        weak | EXPORT_SYMBOL_FLAGS_KIND_THREAD_LOCAL
    } else {
        weak
    }
}

pub fn export_symbol_flags(layout: &Layout, n_desc: u16, n_type: u8, n_sect: u8) -> (r: u64)
    ensures
        r == export_flags(layout.sections@, n_desc, n_type, n_sect),
{
    let weak: u64 = if n_desc & N_WEAK_DEF != 0 {
        EXPORT_SYMBOL_FLAGS_WEAK_DEFINITION
    } else {
        0
    };
    if n_type & N_TYPE == N_ABS {
        weak | EXPORT_SYMBOL_FLAGS_KIND_ABSOLUTE
    } else if section_is_thread_local(layout, n_sect) {
        weak | EXPORT_SYMBOL_FLAGS_KIND_THREAD_LOCAL
    } else {
        weak
    }
}

/// What is exported: a fixed value, or a place counted from the image's start.
pub open spec fn export_kind(
    sections: Seq<OutputSection>,
    image_base: u64,
    n_type: u8,
    n_sect: u8,
    n_value: u64,
) -> ExportKind {
    if n_type & N_TYPE == N_ABS {
        ExportKind::Absolute { address: n_value }
    } else if thread_local(sections, n_sect) {
        ExportKind::ThreadLocal { address: n_value.saturating_sub(image_base) }
    } else {
        ExportKind::Regular { address: n_value.saturating_sub(image_base) }
    }
}

pub fn export_symbol_kind(
    layout: &Layout,
    image_base: u64,
    n_type: u8,
    n_sect: u8,
    n_value: u64,
) -> (r: ExportKind)
    ensures
        r == export_kind(layout.sections@, image_base, n_type, n_sect, n_value),
{
    if n_type & N_TYPE == N_ABS {
        ExportKind::Absolute { address: n_value }
    } else if section_is_thread_local(layout, n_sect) {
        ExportKind::ThreadLocal { address: n_value.saturating_sub(image_base) }
    } else {
        ExportKind::Regular { address: n_value.saturating_sub(image_base) }
    }
}

/// Where the image starts in memory.
pub open spec fn image_base(layout: Layout) -> u64 {
    match layout::segment_at(layout.segments@, "__TEXT"@) {
        Some(i) => layout.segments@[i].vm_addr,
        None => 0,
    }
}

/// How a symbol is exported.
pub open spec fn exported(layout: Layout, s: SymbolModel) -> ExportModel {
    ExportModel {
        name: s.name,
        flags: export_flags(layout.sections@, s.n_desc, s.n_type, s.n_sect),
        kind: export_kind(layout.sections@, image_base(layout), s.n_type, s.n_sect, s.n_value),
    }
}

pub open spec fn all_exported(layout: Layout, specs: Seq<SymbolModel>) -> Seq<ExportModel> {
    specs.map_values(|s: SymbolModel| exported(layout, s))
}

/// Images that others can link against list what they export.
pub open spec fn exporting(kind: OutputKind) -> bool {
    kind == OutputKind::Dylib || kind == OutputKind::Executable
}

fn make_exports(layout: &Layout, specs: &Vec<OutputSymbolSpec>) -> (r: Vec<ExportEntry>)
    ensures
        exports::entries_view(r@) == all_exported(*layout, symbols::symbols_view(specs@)),
{
    let ghost all = symbols::symbols_view(specs@);
    let base: u64 = match layout.segment("__TEXT") {
        Some(segment) => segment.vm_addr,
        None => 0,
    };
    let mut out: Vec<ExportEntry> = Vec::new();
    let mut i: usize = 0;
    assert(exports::entries_view(out@) =~= all_exported(*layout, all.take(0)));
    while i < specs.len()
        invariant
            i <= specs@.len(),
            all == symbols::symbols_view(specs@),
            base == image_base(*layout),
            exports::entries_view(out@) == all_exported(*layout, all.take(i as int)),
        decreases specs@.len() - i,
    {
        let spec = &specs[i];
        let entry = ExportEntry {
            name: spec.name.clone(),
            flags: export_symbol_flags(layout, spec.n_desc, spec.n_type, spec.n_sect),
            kind: export_symbol_kind(layout, base, spec.n_type, spec.n_sect, spec.n_value),
        };
        let ghost before = exports::entries_view(out@);
        out.push(entry);
        assert(entry@ =~= exported(*layout, all[i as int]));
        assert(exports::entries_view(out@) =~= before.push(entry@));
        assert(all_exported(*layout, all.take(i + 1)) =~= all_exported(
            *layout,
            all.take(i as int),
        ).push(exported(*layout, all[i as int])));
        i += 1;
    }
    assert(all.take(i as int) =~= all);
    out
}

/// The names of symbols.
pub open spec fn names_of(specs: Seq<SymbolModel>) -> Seq<Seq<char>> {
    specs.map_values(|s: SymbolModel| s.name)
}

/// Where a name stands in the string table of these symbols.
pub open spec fn strx_of(specs: Seq<SymbolModel>, name: Seq<char>) -> u32 {
    string_table::offset_in(string_table::table_of(names_of(specs)).entries, name)->0
}

/// A symbol table entry.
pub open spec fn table_entry(specs: Seq<SymbolModel>, s: SymbolModel) -> InputSymbol {
    InputSymbol {
        raw: RawNlist {
            strx: strx_of(specs, s.name),
            n_type: s.n_type,
            n_sect: s.n_sect,
            n_desc: s.n_desc,
            n_value: s.n_value,
        },
    }
}

pub open spec fn table_entries(specs: Seq<SymbolModel>) -> Seq<InputSymbol> {
    specs.map_values(|s: SymbolModel| table_entry(specs, s))
}

/// Where each known symbol stands in the table.
pub open spec fn indices(specs: Seq<SymbolModel>) -> Map<u32, u32>
    decreases specs.len(),
{
    if specs.len() == 0 {
        Map::empty()
    } else {
        let rest = indices(specs.drop_last());
        match specs.last().symbol {
            Some(id) => rest.insert(id.0, (specs.len() - 1) as u32),
            None => rest,
        }
    }
}

/// A `LinkMapSymbol` with its name as a character sequence.
#[verifier::ext_equal]
pub struct MapModel {
    pub name: Seq<char>,
    pub addr: u64,
    pub size: u64,
    pub file_index: usize,
}

impl View for LinkMapSymbol {
    type V = MapModel;

    open spec fn view(&self) -> MapModel {
        MapModel {
            name: self.name@,
            addr: self.addr,
            size: self.size,
            file_index: self.file_index,
        }
    }
}

pub open spec fn map_view(s: Seq<LinkMapSymbol>) -> Seq<MapModel> {
    s.map_values(|m: LinkMapSymbol| m@)
}

/// The symbols that a link map lists: those that the image defines.
pub open spec fn mapped(specs: Seq<SymbolModel>) -> Seq<MapModel>
    decreases specs.len(),
{
    if specs.len() == 0 {
        seq![]
    } else {
        let rest = mapped(specs.drop_last());
        let s = specs.last();
        if s.partition == OutputSymbolPartition::Undefined {
            rest
        } else {
            rest.push(
                MapModel { name: s.name, addr: s.n_value, size: s.size, file_index: s.file_index },
            )
        }
    }
}

/// How many symbols each part of the table holds.
pub open spec fn counts(specs: Seq<SymbolModel>) -> DysymtabCmd {
    let nlocalsym = symbols::part(specs, OutputSymbolPartition::Local).len() as u32;
    let nextdefsym = symbols::part(specs, OutputSymbolPartition::ExternalDefined).len() as u32;
    DysymtabCmd {
        ilocalsym: 0,
        nlocalsym,
        iextdefsym: nlocalsym,
        nextdefsym,
        iundefsym: nlocalsym.wrapping_add(nextdefsym),
        nundefsym: symbols::part(specs, OutputSymbolPartition::Undefined).len() as u32,
        ..DysymtabCmd::zero()
    }
}

/// A symbol table and what goes with it.
#[derive(Debug, Clone)]
pub struct SymbolTablePlan {
    pub symbols: Vec<InputSymbol>,
    pub map_symbols: Vec<LinkMapSymbol>,
    pub strtab_bytes: Vec<u8>,
    pub symbol_indices: HashMap<u32, u32>,
    pub exports: Vec<ExportEntry>,
    pub dysymtab: DysymtabCmd,
}

/// A `SymbolTablePlan` by its contents.
#[verifier::ext_equal]
pub struct SymbolPlanModel {
    pub symbols: Seq<InputSymbol>,
    pub map_symbols: Seq<MapModel>,
    pub strtab: Seq<u8>,
    pub symbol_indices: Map<u32, u32>,
    pub exports: Seq<ExportModel>,
    pub dysymtab: DysymtabCmd,
}

impl View for SymbolTablePlan {
    type V = SymbolPlanModel;

    open spec fn view(&self) -> SymbolPlanModel {
        SymbolPlanModel {
            symbols: self.symbols@,
            map_symbols: map_view(self.map_symbols@),
            strtab: self.strtab_bytes@,
            symbol_indices: self.symbol_indices@,
            exports: exports::entries_view(self.exports@),
            dysymtab: self.dysymtab,
        }
    }
}

/// The plan for symbols in the order of the table.
pub open spec fn table_plan(specs: Seq<SymbolModel>, exports: Seq<ExportModel>) -> SymbolPlanModel {
    SymbolPlanModel {
        symbols: table_entries(specs),
        map_symbols: mapped(specs),
        strtab: string_table::padded8(string_table::table_of(names_of(specs)).raw),
        symbol_indices: indices(specs),
        exports,
        dysymtab: counts(specs),
    }
}

/// The symbols of an image in the order of its table. `locals` and `externals`
/// are as they were found, `records` are the imports.
pub open spec fn table_order(
    locals: Seq<SymbolModel>,
    externals: Seq<SymbolModel>,
    records: Seq<ImportModel>,
    strip_locals: bool,
) -> Seq<SymbolModel> {
    (if strip_locals {
        seq![]
    } else {
        sorting::sorted_by(locals, local_order())
    }) + sorting::sorted_by(externals, name_order()) + sorting::sorted_by(
        undefined_symbols(records),
        name_order(),
    )
}

/// The local and the other symbols that an image defines, as they are found.
pub open spec fn found(
    layout: Layout,
    kind: OutputKind,
    plan: crate::synth::SyntheticPlan,
    g: GlobalEnv,
) -> Result<(Seq<SymbolModel>, Seq<SymbolModel>), WriteFault> {
    match symbols::header_symbol(
        layout,
        kind,
        g.visibility.spec_hides("__mh_execute_header"@),
    ) {
        Err(e) => Err(e),
        Ok(header) => match symbols::all_locals(g.env, g.inputs, g.inputs.len()) {
            Err(e) => Err(e),
            Ok(locals) => match symbols::private_symbol(layout, plan) {
                Err(e) => Err(e),
                Ok(private) => match symbols::globals(g, g.table.symbols.len()) {
                    Err(e) => Err(e),
                    Ok(all) => Ok(
                        (
                            symbols::part(header, OutputSymbolPartition::Local) + locals + private
                                + symbols::part(all, OutputSymbolPartition::Local),
                            symbols::part(header, OutputSymbolPartition::ExternalDefined)
                                + symbols::part(all, OutputSymbolPartition::ExternalDefined),
                        ),
                    ),
                },
            },
        },
    }
}

/// The symbol table plan of an image.
pub open spec fn symbol_plan(
    layout: Layout,
    kind: OutputKind,
    strip_locals: bool,
    plan: crate::synth::SyntheticPlan,
    records: Seq<ImportModel>,
    g: GlobalEnv,
) -> Result<SymbolPlanModel, WriteFault> {
    match found(layout, kind, plan, g) {
        Err(e) => Err(e),
        Ok((locals, externals)) => Ok(
            table_plan(
                table_order(locals, externals, records, strip_locals),
                if exporting(kind) {
                    all_exported(layout, sorting::sorted_by(externals, name_order()))
                } else {
                    seq![]
                },
            ),
        ),
    }
}

proof fn lemma_once_each(names: Seq<Seq<char>>, name: Seq<char>)
    ensures
        string_table::once_each(names).contains(name) == names.contains(name),
    decreases names.len(),
{
    if names.len() > 0 {
        let rest = string_table::once_each(names.drop_last());
        lemma_once_each(names.drop_last(), name);
        assert(names =~= names.drop_last().push(names.last()));
        if names.drop_last().contains(name) {
            let i = choose|i: int| 0 <= i < names.drop_last().len() && names.drop_last()[i] == name;
            assert(names[i] == name);
        }
        if rest.contains(name) {
            let i = choose|i: int| 0 <= i < rest.len() && rest[i] == name;
            assert(rest.push(names.last())[i] == name);
        }
        assert(rest.push(names.last())[rest.len() as int] == names.last());
        assert(names[names.len() - 1] == names.last());
        if names.contains(name) && name != names.last() {
            let i = choose|i: int| 0 <= i < names.len() && names[i] == name;
            assert(names.drop_last()[i] == name);
        }
        if rest.push(names.last()).contains(name) && name != names.last() {
            let i = choose|i: int|
                0 <= i < rest.push(names.last()).len() && rest.push(names.last())[i] == name;
            assert(rest[i] == name);
        }
    }
}

proof fn lemma_entries_named(order: Seq<Seq<char>>)
    ensures
        string_table::laid_out(order).entries.len() == order.len(),
        forall|i: int|
            0 <= i < order.len() ==> (#[trigger] string_table::laid_out(order).entries[i]).0
                == order[i],
    decreases order.len(),
{
    if order.len() > 0 {
        lemma_entries_named(order.drop_last());
        let t0 = string_table::laid_out(order.drop_last());
        let t = string_table::laid_out(order);
        assert forall|i: int| 0 <= i < order.len() implies (#[trigger] t.entries[i]).0
            == order[i] by {
            if i < order.len() - 1 {
                assert(t.entries[i] == t0.entries[i]);
                assert(order.drop_last()[i] == order[i]);
            }
        }
    }
}

proof fn lemma_offset_found(entries: Seq<(Seq<char>, u32)>, i: int)
    requires
        0 <= i < entries.len(),
    ensures
        string_table::offset_in(entries, entries[i].0) is Some,
    decreases entries.len(),
{
    if entries.first().0 != entries[i].0 {
        assert(entries.drop_first()[i - 1] == entries[i]);
        lemma_offset_found(entries.drop_first(), i - 1);
    }
}

proof fn lemma_has_strx(names: Seq<Seq<char>>, name: Seq<char>)
    requires
        names.contains(name),
    ensures
        string_table::offset_in(string_table::table_of(names).entries, name) is Some,
{
    let order = string_table::suffix_order(string_table::once_each(names));
    lemma_once_each(names, name);
    sorting::lemma_sorted_by_keeps(
        string_table::once_each(names),
        string_table::names_suffix_less(),
    );
    assert(order.contains(name));
    let i = choose|i: int| 0 <= i < order.len() && order[i] == name;
    lemma_entries_named(order);
    lemma_offset_found(string_table::laid_out(order).entries, i);
}

fn build_strings(specs: &Vec<OutputSymbolSpec>) -> (r: (Vec<u8>, StringOffsets))
    ensures
        ({
            let names = names_of(symbols::symbols_view(specs@));
            &&& r.0@ == string_table::padded8(string_table::table_of(names).raw)
            &&& r.1@ == string_table::table_of(names).entries
            &&& string_table::suffix_sorted(
                string_table::suffix_order(string_table::once_each(names)),
                string_table::once_each(names),
            )
        }),
{
    let ghost names = names_of(symbols::symbols_view(specs@));
    let mut builder = StringTableBuilder::new();
    let mut i: usize = 0;
    while i < specs.len()
        invariant
            i <= specs@.len(),
            names == names_of(symbols::symbols_view(specs@)),
            builder.wf(),
            builder@ == string_table::once_each(names.take(i as int)),
        decreases specs@.len() - i,
    {
        assert(names.take(i + 1).drop_last() =~= names.take(i as int));
        assert(names.take(i + 1).last() == specs@[i as int].name@);
        builder.insert(specs[i].name.as_str());
        i += 1;
    }
    assert(names.take(i as int) =~= names);
    builder.finish()
}

fn count_part(specs: &Vec<OutputSymbolSpec>, partition: OutputSymbolPartition) -> (r: usize)
    ensures
        r == symbols::part(symbols::symbols_view(specs@), partition).len(),
{
    let ghost all = symbols::symbols_view(specs@);
    let mut n: usize = 0;
    let mut i: usize = 0;
    while i < specs.len()
        invariant
            n <= i <= specs@.len(),
            all == symbols::symbols_view(specs@),
            n == symbols::part(all.take(i as int), partition).len(),
        decreases specs@.len() - i,
    {
        assert(all.take(i + 1).drop_last() =~= all.take(i as int));
        assert(all.take(i + 1).last() == specs@[i as int]@);
        if specs[i].partition == partition {
            n += 1;
        }
        i += 1;
    }
    assert(all.take(i as int) =~= all);
    n
}

fn make_map(specs: &Vec<OutputSymbolSpec>) -> (r: Vec<LinkMapSymbol>)
    ensures
        map_view(r@) == mapped(symbols::symbols_view(specs@)),
{
    let ghost all = symbols::symbols_view(specs@);
    let mut out: Vec<LinkMapSymbol> = Vec::new();
    let mut i: usize = 0;
    assert(map_view(out@) =~= seq![]);
    while i < specs.len()
        invariant
            i <= specs@.len(),
            all == symbols::symbols_view(specs@),
            map_view(out@) == mapped(all.take(i as int)),
        decreases specs@.len() - i,
    {
        assert(all.take(i + 1).drop_last() =~= all.take(i as int));
        assert(all.take(i + 1).last() == specs@[i as int]@);
        let spec = &specs[i];
        if spec.partition != OutputSymbolPartition::Undefined {
            let ghost before = map_view(out@);
            let symbol = LinkMapSymbol {
                name: spec.name.clone(),
                addr: spec.n_value,
                size: spec.size,
                file_index: spec.file_index,
            };
            out.push(symbol);
            assert(map_view(out@) =~= before.push(symbol@));
        }
        i += 1;
    }
    assert(all.take(i as int) =~= all);
    out
}

fn plan_table(specs: Vec<OutputSymbolSpec>, entries: Vec<ExportEntry>) -> (r: SymbolTablePlan)
    ensures
        r@ == table_plan(symbols::symbols_view(specs@), exports::entries_view(entries@)),
{
    let ghost all = symbols::symbols_view(specs@);
    let (strtab_bytes, offsets) = build_strings(&specs);
    let nlocalsym: u32 = count_part(&specs, OutputSymbolPartition::Local) as u32;
    let nextdefsym: u32 = count_part(&specs, OutputSymbolPartition::ExternalDefined) as u32;
    let nundefsym: u32 = count_part(&specs, OutputSymbolPartition::Undefined) as u32;
    let map_symbols = make_map(&specs);
    let mut table: Vec<InputSymbol> = Vec::new();
    let mut symbol_indices: HashMap<u32, u32> = HashMap::new();
    let mut i: usize = 0;
    while i < specs.len()
        invariant
            i <= specs@.len(),
            all == symbols::symbols_view(specs@),
            offsets@ == string_table::table_of(names_of(all)).entries,
            string_table::suffix_sorted(
                string_table::suffix_order(string_table::once_each(names_of(all))),
                string_table::once_each(names_of(all)),
            ),
            table@.len() == i,
            forall|k: int| 0 <= k < i ==> #[trigger] table@[k] == table_entry(all, all[k]),
            symbol_indices@ == indices(all.take(i as int)),
        decreases specs@.len() - i,
    {
        assert(all.take(i + 1).drop_last() =~= all.take(i as int));
        assert(all.take(i + 1).last() == specs@[i as int]@);
        let spec = &specs[i];
        proof {
            assert(names_of(all)[i as int] == spec.name@);
            lemma_has_strx(names_of(all), spec.name@);
        }
        let strx: u32 = match offsets.get(spec.name.as_str()) {
            Some(strx) => strx,
            None => 0,
        };
        table.push(
            InputSymbol::from_raw(
                RawNlist {
                    strx,
                    n_type: spec.n_type,
                    n_sect: spec.n_sect,
                    n_desc: spec.n_desc,
                    n_value: spec.n_value,
                },
            ),
        );
        if let Some(id) = spec.symbol {
            symbol_indices.insert(id.0, i as u32);
        }
        i += 1;
    }
    assert(all.take(i as int) =~= all);
    assert(table@ =~= table_entries(all));
    SymbolTablePlan {
        symbols: table,
        map_symbols,
        strtab_bytes,
        symbol_indices,
        exports: entries,
        dysymtab: DysymtabCmd {
            ilocalsym: 0,
            nlocalsym,
            iextdefsym: nlocalsym,
            nextdefsym,
            iundefsym: nlocalsym.wrapping_add(nextdefsym),
            nundefsym,
            ..DysymtabCmd::default()
        },
    }
}

fn append_specs(out: &mut Vec<OutputSymbolSpec>, more: Vec<OutputSymbolSpec>)
    ensures
        symbols::symbols_view(final(out)@) == symbols::symbols_view(old(out)@)
            + symbols::symbols_view(more@),
{
    let mut more = more;
    let ghost before = out@;
    let ghost added = more@;
    out.append(&mut more);
    assert(symbols::symbols_view(out@) =~= symbols::symbols_view(before) + symbols::symbols_view(
        added,
    ));
}

/// Atoms that sections hold have addresses, and only those.
proof fn lemma_placed_known(sections: Seq<OutputSection>, atoms: Seq<crate::atom::Atom>)
    requires
        maps::atoms_known(sections, atoms),
        sections.len() <= usize::MAX,
    ensures
        forall|a: u32| #[trigger]
            maps::atom_addresses(sections).contains_key(a) ==> 1 <= a <= atoms.len(),
        forall|a: u32| #[trigger]
            maps::atom_sections(sections).contains_key(a) ==> maps::atom_sections(sections)[a]
                < usize::MAX,
{
    maps::lemma_addresses_known(sections, atoms);
    assert forall|a: u32| #[trigger] maps::atom_sections(sections).contains_key(a) implies
        maps::atom_sections(sections)[a] < usize::MAX by {
        maps::lemma_atom_sections(sections, a);
    }
}

/// What the global symbols of an image are made from.
pub open spec fn global_env<'a>(
    layout: Layout,
    ctx: LinkEditContext<'a>,
    visibility: SymbolVisibilityPolicy,
    dead_strip: bool,
) -> GlobalEnv<'a> {
    GlobalEnv {
        env: symbols::env_of(
            layout.sections@,
            ctx.atom_table@,
            targets::redirect_map(ctx.icf_redirects),
        ),
        inputs: ctx.layout_inputs@,
        table: ctx.sym_table@,
        visibility,
        dead_strip,
    }
}

/// Plans the symbol table of an image.
pub fn build_output_symbols(
    layout: &Layout,
    kind: OutputKind,
    dead_strip: bool,
    strip_locals: bool,
    visibility: &SymbolVisibilityPolicy,
    ctx: &LinkEditContext<'_>,
    imports: &Vec<ImportSymbolRecord>,
) -> (r: Result<SymbolTablePlan, WriteError>)
    requires
        ctx.atom_table.wf(),
        ctx.layout_inputs@.len() < usize::MAX,
        targets::redirections_end(targets::redirect_map(ctx.icf_redirects)),
        maps::atoms_known(layout.sections@, ctx.atom_table@),
        suggest::names_known(ctx.sym_table@),
        symbols::inputs_sound(ctx.layout_inputs@),
        symbols::private_fits(*layout, *ctx.synthetic_plan),
    ensures
        match (
            r,
            symbol_plan(
                *layout,
                kind,
                strip_locals,
                *ctx.synthetic_plan,
                imports::imports_view(imports@),
                global_env(*layout, *ctx, *visibility, dead_strip),
            ),
        ) {
            (Ok(plan), Ok(m)) => plan@ == m,
            (Err(e), Err(f)) => e@ == f,
            _ => false,
        },
{
    let ghost g = global_env(*layout, *ctx, *visibility, dead_strip);
    assert(layout.sections.len() == layout.sections@.len());
    proof {
        lemma_placed_known(layout.sections@, ctx.atom_table@);
    }
    let atom_sections = atom_output_segment_map(layout);
    let atom_addrs = atom_address_map(layout);
    let by_section = ctx.atom_table.by_input_section();
    let atom_ranges = build_atom_range_index(ctx.atom_table, &by_section, ctx.icf_redirects);
    let input_map = InputMap::new(ctx.layout_inputs);
    let local_ctx = LocalSymbolContext {
        atom_table: ctx.atom_table,
        atom_ranges: &atom_ranges,
        atom_sections: &atom_sections,
        atom_addrs: &atom_addrs,
    };
    assert(local_ctx.of(g.env));
    let mut locals: Vec<OutputSymbolSpec> = Vec::new();
    let mut externals: Vec<OutputSymbolSpec> = Vec::new();
    assert(symbols::symbols_view(locals@) =~= seq![]);
    assert(symbols::symbols_view(externals@) =~= seq![]);
    let hidden = visibility.hides("__mh_execute_header");
    let head = if hidden {
        push_header_symbol(layout, kind, hidden, &mut locals)
    } else {
        push_header_symbol(layout, kind, hidden, &mut externals)
    };
    if let Err(e) = head {
        return Err(e);
    }
    let ghost header = symbols::header_symbol(*layout, kind, hidden)->Ok_0;
    proof {
        lemma_single_part(header);
        assert(symbols::symbols_view(locals@) =~= symbols::part(
            header,
            OutputSymbolPartition::Local,
        ));
        assert(symbols::symbols_view(externals@) =~= symbols::part(
            header,
            OutputSymbolPartition::ExternalDefined,
        ));
    }
    if let Err(e) = push_all_locals(&local_ctx, &input_map, &mut locals, Ghost(g.env)) {
        return Err(e);
    }
    if let Err(e) = collect_synthetic_local_symbols(layout, ctx.synthetic_plan, &mut locals) {
        return Err(e);
    }
    if let Err(e) = push_globals(
        &local_ctx,
        &input_map,
        ctx.sym_table,
        visibility,
        dead_strip,
        &mut locals,
        &mut externals,
        Ghost(g),
    ) {
        return Err(e);
    }
    let ghost l = symbols::symbols_view(locals@);
    let ghost x = symbols::symbols_view(externals@);
    assert(found(*layout, kind, *ctx.synthetic_plan, g) == Ok::<
        (Seq<SymbolModel>, Seq<SymbolModel>),
        WriteFault,
    >((l, x)));
    sort_local_symbols(&mut locals);
    sort_by_name(&mut externals);
    let mut undefineds = make_undefined(imports);
    sort_by_name(&mut undefineds);
    let entries = if kind == OutputKind::Dylib || kind == OutputKind::Executable {
        make_exports(layout, &externals)
    } else {
        let none: Vec<ExportEntry> = Vec::new();
        assert(exports::entries_view(none@) =~= seq![]);
        none
    };
    let mut specs: Vec<OutputSymbolSpec> = Vec::new();
    assert(symbols::symbols_view(specs@) =~= seq![]);
    if !strip_locals {
        append_specs(&mut specs, locals);
    }
    append_specs(&mut specs, externals);
    append_specs(&mut specs, undefineds);
    assert(symbols::symbols_view(specs@) =~= table_order(
        l,
        x,
        imports::imports_view(imports@),
        strip_locals,
    ));
    Ok(plan_table(specs, entries))
}

proof fn lemma_single_part(header: Seq<SymbolModel>)
    requires
        header.len() <= 1,
    ensures
        symbols::part(header, OutputSymbolPartition::Local) == (if header.len() == 1
            && header[0].partition == OutputSymbolPartition::Local {
            header
        } else {
            seq![]
        }),
        symbols::part(header, OutputSymbolPartition::ExternalDefined) == (if header.len() == 1
            && header[0].partition == OutputSymbolPartition::ExternalDefined {
            header
        } else {
            seq![]
        }),
{
    if header.len() == 1 {
        let none = header.drop_last();
        assert(none =~= seq![]);
        assert(symbols::part(none, OutputSymbolPartition::Local) =~= seq![]);
        assert(symbols::part(none, OutputSymbolPartition::ExternalDefined) =~= seq![]);
        assert(Seq::<SymbolModel>::empty().push(header[0]) =~= header);
    }
}

/// Each entry of the table names its symbol: reading the string table at the
/// entry's offset gives the symbol's name, as long as the name holds no zero
/// byte and the string table stays below four gigabytes.
pub proof fn law_entries_lead_to_names(specs: Seq<SymbolModel>, i: int)
    requires
        0 <= i < specs.len(),
        string_table::table_of(names_of(specs)).raw.len() <= u32::MAX,
        !text::utf8(specs[i].name).contains(0u8),
    ensures
        string_table::name_at(
            string_table::padded8(string_table::table_of(names_of(specs)).raw),
            table_entries(specs)[i].raw.strx,
        ) == Ok::<_, crate::macho::reader::ReadError>(specs[i].name),
{
    let names = names_of(specs);
    let order = string_table::suffix_order(string_table::once_each(names));
    let name = specs[i].name;
    assert(names[i] == name);
    lemma_has_strx(names, name);
    lemma_entries_named(order);
    let k = lemma_offset_place(string_table::laid_out(order).entries, name);
    assert(order[k] == name);
    string_table::law_names_found_again(order, k);
}

proof fn lemma_offset_place(entries: Seq<(Seq<char>, u32)>, name: Seq<char>) -> (k: int)
    requires
        string_table::offset_in(entries, name) is Some,
    ensures
        0 <= k < entries.len(),
        entries[k] == (name, string_table::offset_in(entries, name)->0),
    decreases entries.len(),
{
    if entries.first().0 == name {
        0
    } else {
        let k = lemma_offset_place(entries.drop_first(), name);
        assert(entries.drop_first()[k] == entries[k + 1]);
        k + 1
    }
}

} // verus!
