//! The pointers of an image that dyld slides.

use vstd::prelude::*;
use crate::atom::Atom;
use crate::dyld_info;
use crate::dyld_info::{emit_rebase_stream, ByPlace, RebaseSite};
use crate::input::ObjectFile;
use crate::layout;
use crate::layout::Layout;
use crate::macho::writer;
use crate::macho::writer::{LinkEditContext, WriteError, WriteFault};
use crate::reloc::arm64::maps;
use crate::reloc::arm64::maps::{cached_relocs_for_atom, InputMap};
use crate::reloc::arm64::patch;
use crate::reloc::arm64::patch::direct_import_bind_supported;
use crate::reloc::arm64::targets;
use crate::reloc::{Referent, Reloc, RelocKind};
use crate::resolve::names;
use crate::resolve::table;
use crate::resolve::{Istr, Symbol, SymbolId, SymbolTable};
use crate::section::{OutputAtom, OutputSection, OutputSegment};
use crate::sorting;
use crate::sorting::sort_distinct;
use crate::symbol::{InputSymbol, SymKind};
use crate::synth::{SlotEntry, SyntheticPlan};
use crate::text::same_text;

verus! {

/// A segment's place in the image, as an opcode holds it.
pub open spec fn segment_number(segments: Seq<OutputSegment>, name: Seq<char>, missing: Seq<char>) -> Result<
    u8,
    WriteFault,
> {
    match layout::segment_at(segments, name) {
        None => Err(WriteFault::MissingSegment(missing)),
        Some(i) => if i <= u8::MAX {
            Ok(i as u8)
        } else {
            Err(WriteFault::OffsetTooLarge("segment index"@))
        },
    }
}

/// The number of a segment; `missing` names it in the error.
pub fn segment_index(layout: &Layout, name: &str, missing: &'static str) -> (r: Result<
    u8,
    WriteError,
>)
    ensures
        writer::same_result(r, segment_number(layout.segments@, name@, missing@)),
{
    match layout.find_segment(name) {
        None => Err(WriteError::MissingSegment(missing)),
        Some(i) => {
            if i <= u8::MAX as usize {
                Ok(i as u8)
            } else {
                Err(WriteError::OffsetTooLarge("segment index"))
            }
        },
    }
}

/// Where a table of pointers is: its segment's number, and its distance from the
/// segment's start.
pub open spec fn table_place(layout: Layout, segment: Seq<char>, name: Seq<char>) -> Result<
    RebaseSite,
    WriteFault,
> {
    match segment_number(layout.segments@, segment, segment) {
        Err(e) => Err(e),
        Ok(segment_index) => match layout::section_at(layout.sections@, segment, name) {
            None => Err(WriteFault::MissingSegment(segment)),
            Some(i) => Ok(
                RebaseSite {
                    segment_index,
                    segment_offset: layout.sections@[i].addr.wrapping_sub(
                        layout.segments@[layout::segment_at(
                            layout.segments@,
                            segment,
                        )->0].vm_addr,
                    ),
                },
            ),
        },
    }
}

pub fn find_table(layout: &Layout, segment: &'static str, name: &str) -> (r: Result<
    RebaseSite,
    WriteError,
>)
    ensures
        writer::same_result(r, table_place(*layout, segment@, name@)),
{
    let segment_index: u8 = match segment_index(layout, segment, segment) {
        Ok(n) => n,
        Err(e) => {
            return Err(e);
        },
    };
    let vm_addr: u64 = match layout.segment(segment) {
        Some(s) => s.vm_addr,
        None => {
            return Err(WriteError::MissingSegment(segment));
        },
    };
    match layout.find_section(segment, name) {
        Some(i) => Ok(
            RebaseSite {
                segment_index,
                segment_offset: layout.sections[i].addr.wrapping_sub(vm_addr),
            },
        ),
        None => Err(WriteError::MissingSegment(segment)),
    }
}

/// The `i`th pointer of a table.
pub open spec fn slot(table: RebaseSite, i: int) -> RebaseSite {
    RebaseSite { segment_offset: dyld_info::behind(table.segment_offset, i as nat), ..table }
}

fn slot_site(table: RebaseSite, i: usize) -> (r: RebaseSite)
    ensures
        r == slot(table, i as int),
{
    RebaseSite {
        segment_index: table.segment_index,
        segment_offset: table.segment_offset.wrapping_add((i as u64).wrapping_mul(8)),
    }
}

/// The lazy pointers, all of which are slid.
pub open spec fn lazy_sites(layout: Layout, plan: SyntheticPlan) -> Result<
    Seq<RebaseSite>,
    WriteFault,
> {
    if plan.lazy_pointers.entries@.len() == 0 {
        Ok(seq![])
    } else {
        match table_place(layout, "__DATA"@, "__la_symbol_ptr"@) {
            Err(e) => Err(e),
            Ok(table) => Ok(
                Seq::new(plan.lazy_pointers.entries@.len(), |i: int| slot(table, i)),
            ),
        }
    }
}

pub fn collect_lazy_pointer_rebase_sites(layout: &Layout, synthetic_plan: &SyntheticPlan) -> (r:
    Result<Vec<RebaseSite>, WriteError>)
    ensures
        writer::same_list(r, lazy_sites(*layout, *synthetic_plan)),
{
    let n: usize = synthetic_plan.lazy_pointers.entries.len();
    let mut out: Vec<RebaseSite> = Vec::new();
    if n == 0 {
        return Ok(out);
    }
    let table = match find_table(layout, "__DATA", "__la_symbol_ptr") {
        Ok(table) => table,
        Err(e) => {
            return Err(e);
        },
    };
    let mut i: usize = 0;
    while i < n
        invariant
            i <= n,
            out@ == Seq::new(i as nat, |k: int| slot(table, k)),
        decreases n - i,
    {
        out.push(slot_site(table, i));
        assert(out@ =~= Seq::new((i + 1) as nat, |k: int| slot(table, k)));
        i += 1;
    }
    Ok(out)
}

/// The slots of the pointer table whose symbols are in this image.
pub open spec fn local_slots(
    table: RebaseSite,
    entries: Seq<SlotEntry>,
    t: table::TableState,
) -> Seq<RebaseSite>
    decreases entries.len(),
{
    if entries.len() == 0 {
        seq![]
    } else {
        let rest = local_slots(table, entries.drop_last(), t);
        if t.at(entries.last().symbol) is DylibImport {
            rest
        } else {
            rest.push(slot(table, entries.len() - 1))
        }
    }
}

pub open spec fn got_sites(layout: Layout, plan: SyntheticPlan, t: table::TableState) -> Result<
    Seq<RebaseSite>,
    WriteFault,
> {
    if plan.got.entries@.len() == 0 {
        Ok(seq![])
    } else {
        match table_place(layout, "__DATA_CONST"@, "__got"@) {
            Err(e) => Err(e),
            Ok(table) => Ok(local_slots(table, plan.got.entries@, t)),
        }
    }
}

pub fn collect_local_got_rebase_sites(
    layout: &Layout,
    synthetic_plan: &SyntheticPlan,
    sym_table: &SymbolTable,
) -> (r: Result<Vec<RebaseSite>, WriteError>)
    requires
        crate::reloc::arm64::fill::symbols_known(
            synthetic_plan.got.entries@,
            sym_table@.symbols.len(),
        ),
    ensures
        writer::same_list(r, got_sites(*layout, *synthetic_plan, sym_table@)),
{
    let entries = &synthetic_plan.got.entries;
    let mut out: Vec<RebaseSite> = Vec::new();
    if entries.len() == 0 {
        return Ok(out);
    }
    let table = match find_table(layout, "__DATA_CONST", "__got") {
        Ok(table) => table,
        Err(e) => {
            return Err(e);
        },
    };
    let mut i: usize = 0;
    while i < entries.len()
        invariant
            i <= entries@.len(),
            crate::reloc::arm64::fill::symbols_known(entries@, sym_table@.symbols.len()),
            out@ == local_slots(table, entries@.take(i as int), sym_table@),
        decreases entries@.len() - i,
    {
        assert(entries@.take(i + 1).drop_last() =~= entries@.take(i as int));
        let id = entries[i].symbol;
        assert(entries@[i as int].symbol.0 < sym_table@.symbols.len());
        if !matches!(sym_table.get(id), Symbol::DylibImport { .. }) {
            out.push(slot_site(table, i));
        }
        i += 1;
    }
    assert(entries@.take(i as int) =~= entries@);
    Ok(out)
}

/// The symbol of this name, aliases not followed.
pub open spec fn own_symbol(t: table::TableState, name: Seq<char>) -> Option<SymbolId> {
    match names::place_of(t.names, name) {
        Some(i) => t.slot(Istr(i as u32)),
        None => None,
    }
}

/// What a relocation refers to lies in this image.
pub open spec fn refers_inside(obj: ObjectFile, sym: InputSymbol, t: table::TableState) -> bool {
    let by_name = match obj.name_of(sym) {
        Ok(name) => own_symbol(t, name),
        Err(_) => None,
    };
    match by_name {
        Some(id) => match t.at(id) {
            Symbol::Defined { atom, .. } => atom.0 != 0,
            Symbol::Common { .. } => true,
            _ => false,
        },
        None => sym.spec_kind() == SymKind::Sect,
    }
}

/// A relocation writes a pointer that slides with the image.
pub open spec fn needs_rebase(obj: ObjectFile, reloc: Reloc, t: table::TableState) -> bool {
    &&& reloc.kind == RelocKind::Unsigned
    &&& patch::bindable(reloc)
    &&& match reloc.referent {
        Referent::Section(_) => true,
        Referent::Symbol(i) => i < obj.symbols@.len() && refers_inside(
            obj,
            obj.symbols@[i as int],
            t,
        ),
    }
}

pub fn reloc_needs_rebase(obj: &ObjectFile, reloc: Reloc, sym_table: &SymbolTable) -> (r: bool)
    requires
        sym_table.wf(),
    ensures
        r == needs_rebase(*obj, reloc, sym_table@),
{
    if reloc.kind != RelocKind::Unsigned || !direct_import_bind_supported(reloc) {
        return false;
    }
    let idx: u32 = match reloc.referent {
        Referent::Section(_) => {
            return true;
        },
        Referent::Symbol(idx) => idx,
    };
    if idx as usize >= obj.symbols.len() {
        return false;
    }
    let sym = &obj.symbols[idx as usize];
    let by_name: Option<SymbolId> = match obj.symbol_name(sym) {
        Ok(name) => sym_table.lookup_str(name),
        Err(_) => None,
    };
    match by_name {
        Some(id) => {
            proof {
                let name = obj.name_of(*sym)->Ok_0;
                let handle = Istr(names::place_of(sym_table@.names, name)->0 as u32);
                assert(sym_table@.by_name.contains_key(handle.0));
            }
            match sym_table.get(id) {
                Symbol::Defined { atom, .. } => atom.0 != 0,
                Symbol::Common { .. } => true,
                _ => false,
            }
        },
        None => sym.kind() == SymKind::Sect,
    }
}

/// The pointers among an atom's relocations.
pub open spec fn reloc_sites(
    obj: ObjectFile,
    atom: Atom,
    relocs: Seq<Reloc>,
    t: table::TableState,
    at: RebaseSite,
) -> Seq<RebaseSite>
    decreases relocs.len(),
{
    if relocs.len() == 0 {
        seq![]
    } else {
        let rest = reloc_sites(obj, atom, relocs.drop_last(), t, at);
        let reloc = relocs.last();
        if needs_rebase(obj, reloc, t) {
            rest.push(
                RebaseSite {
                    segment_offset: at.segment_offset.wrapping_add(
                        targets::offset_in_atom(reloc, atom) as u64,
                    ),
                    ..at
                },
            )
        } else {
            rest
        }
    }
}

/// The pointers of a placed atom; none where its input is unknown.
pub open spec fn atom_sites(ctx: LinkEditContext, placed: OutputAtom, section: RebaseSite) -> Seq<
    RebaseSite,
> {
    let a = ctx.atom_table@[placed.atom.0 - 1];
    match maps::object_for(ctx.layout_inputs@, a.origin) {
        None => seq![],
        Some(obj) => reloc_sites(
            obj,
            a,
            maps::relocs_of(ctx.parsed_relocs@, a),
            ctx.sym_table@,
            RebaseSite {
                segment_offset: section.segment_offset.wrapping_add(placed.offset),
                ..section
            },
        ),
    }
}

pub open spec fn atoms_sites(
    ctx: LinkEditContext,
    placed: Seq<OutputAtom>,
    section: RebaseSite,
) -> Seq<RebaseSite>
    decreases placed.len(),
{
    if placed.len() == 0 {
        seq![]
    } else {
        atoms_sites(ctx, placed.drop_last(), section) + atom_sites(ctx, placed.last(), section)
    }
}

/// A section that holds pointers of the input.
pub open spec fn has_pointers(s: OutputSection) -> bool {
    (s.segment@ == "__DATA"@ || s.segment@ == "__DATA_CONST"@) && s.name@ != "__thread_vars"@
}

/// The pointers of a section.
pub open spec fn section_sites(ctx: LinkEditContext, layout: Layout, s: OutputSection) -> Result<
    Seq<RebaseSite>,
    WriteFault,
> {
    if !has_pointers(s) {
        Ok(seq![])
    } else {
        match segment_number(layout.segments@, s.segment@, "__UNKNOWN"@) {
            Err(e) => Err(e),
            Ok(segment_index) => Ok(
                atoms_sites(
                    ctx,
                    s.atoms@,
                    RebaseSite {
                        segment_index,
                        segment_offset: s.addr.wrapping_sub(
                            layout.segments@[layout::segment_at(
                                layout.segments@,
                                s.segment@,
                            )->0].vm_addr,
                        ),
                    },
                ),
            ),
        }
    }
}

pub open spec fn sections_sites(
    ctx: LinkEditContext,
    layout: Layout,
    sections: Seq<OutputSection>,
) -> Result<Seq<RebaseSite>, WriteFault>
    decreases sections.len(),
{
    if sections.len() == 0 {
        Ok(seq![])
    } else {
        match sections_sites(ctx, layout, sections.drop_last()) {
            Err(e) => Err(e),
            Ok(rest) => match section_sites(ctx, layout, sections.last()) {
                Err(e) => Err(e),
                Ok(more) => Ok(rest + more),
            },
        }
    }
}

/// Every pointer that slides: the lazy pointers, the local slots of the pointer table,
/// and those in the data of the inputs.
pub open spec fn all_sites(ctx: LinkEditContext, layout: Layout) -> Result<
    Seq<RebaseSite>,
    WriteFault,
> {
    match lazy_sites(layout, *ctx.synthetic_plan) {
        Err(e) => Err(e),
        Ok(lazy) => match got_sites(layout, *ctx.synthetic_plan, ctx.sym_table@) {
            Err(e) => Err(e),
            Ok(got) => match sections_sites(ctx, layout, layout.sections@) {
                Err(e) => Err(e),
                Ok(rest) => Ok(lazy + got + rest),
            },
        },
    }
}

/// The stream of an image: its pointers in order, each once.
pub open spec fn stream(ctx: LinkEditContext, layout: Layout) -> Result<Seq<u8>, WriteFault> {
    match all_sites(ctx, layout) {
        Err(e) => Err(e),
        Ok(sites) => Ok(
            dyld_info::rebase_stream(sorting::distinct::<RebaseSite, ByPlace>(sites)),
        ),
    }
}

proof fn lemma_sections_fault(
    ctx: LinkEditContext,
    layout: Layout,
    sections: Seq<OutputSection>,
    n: int,
)
    requires
        0 <= n <= sections.len(),
        sections_sites(ctx, layout, sections.take(n)) is Err,
    ensures
        sections_sites(ctx, layout, sections) == sections_sites(ctx, layout, sections.take(n)),
    decreases sections.len() - n,
{
    if n < sections.len() {
        assert(sections.take(n + 1).drop_last() =~= sections.take(n));
        lemma_sections_fault(ctx, layout, sections, n + 1);
    } else {
        assert(sections.take(n) =~= sections);
    }
}

fn push_atom_sites(
    out: &mut Vec<RebaseSite>,
    ctx: &LinkEditContext<'_>,
    input_map: &InputMap<'_>,
    placed: &OutputAtom,
    section: RebaseSite,
)
    requires
        ctx.sym_table.wf(),
        input_map.wf(),
        input_map@ == ctx.layout_inputs@,
        1 <= placed.atom.0 <= ctx.atom_table@.len(),
    ensures
        final(out)@ == old(out)@ + atom_sites(*ctx, *placed, section),
{
    let a = ctx.atom_table.get(placed.atom);
    let ghost before = out@;
    let obj = match input_map.get(a.origin) {
        Some(obj) => obj,
        None => {
            assert(out@ =~= before + atom_sites(*ctx, *placed, section));
            return;
        },
    };
    let relocs = cached_relocs_for_atom(ctx.parsed_relocs, a);
    let base: u64 = section.segment_offset.wrapping_add(placed.offset);
    let ghost at = RebaseSite { segment_offset: base, ..section };
    let mut i: usize = 0;
    assert(out@ =~= before + reloc_sites(*obj, *a, relocs@.take(0), ctx.sym_table@, at));
    while i < relocs.len()
        invariant
            i <= relocs@.len(),
            ctx.sym_table.wf(),
            at == (RebaseSite { segment_offset: base, ..section }),
            out@ == before + reloc_sites(
                *obj,
                *a,
                relocs@.take(i as int),
                ctx.sym_table@,
                at,
            ),
        decreases relocs@.len() - i,
    {
        let reloc = relocs[i];
        assert(relocs@.take(i + 1).drop_last() =~= relocs@.take(i as int));
        if reloc_needs_rebase(obj, reloc, ctx.sym_table) {
            let local: u64 = reloc.offset.saturating_sub(a.input_offset) as u64;
            out.push(
                RebaseSite {
                    segment_index: section.segment_index,
                    segment_offset: base.wrapping_add(local),
                },
            );
            assert(out@ =~= before + reloc_sites(
                *obj,
                *a,
                relocs@.take(i + 1),
                ctx.sym_table@,
                at,
            ));
        }
        i += 1;
    }
    assert(relocs@.take(i as int) =~= relocs@);
}

fn push_section_sites(
    out: &mut Vec<RebaseSite>,
    ctx: &LinkEditContext<'_>,
    input_map: &InputMap<'_>,
    layout: &Layout,
    s: &OutputSection,
) -> (r: Result<(), WriteError>)
    requires
        ctx.sym_table.wf(),
        input_map.wf(),
        input_map@ == ctx.layout_inputs@,
        maps::all_known(s.atoms@, ctx.atom_table@),
    ensures
        match (r, section_sites(*ctx, *layout, *s)) {
            (Ok(_), Ok(more)) => final(out)@ == old(out)@ + more,
            (Err(e), Err(f)) => e@ == f,
            _ => false,
        },
{
    let ghost before = out@;
    let holds = (same_text(s.segment.as_str(), "__DATA") || same_text(
        s.segment.as_str(),
        "__DATA_CONST",
    )) && !same_text(s.name.as_str(), "__thread_vars");
    if !holds {
        assert(out@ =~= before + Seq::<RebaseSite>::empty());
        return Ok(());
    }
    let segment_index: u8 = match segment_index(layout, s.segment.as_str(), "__UNKNOWN") {
        Ok(n) => n,
        Err(e) => {
            return Err(e);
        },
    };
    let vm_addr: u64 = match layout.segment(s.segment.as_str()) {
        Some(segment) => segment.vm_addr,
        None => {
            return Err(WriteError::MissingSegment("__UNKNOWN"));
        },
    };
    let section = RebaseSite { segment_index, segment_offset: s.addr.wrapping_sub(vm_addr) };
    let mut k: usize = 0;
    assert(out@ =~= before + atoms_sites(*ctx, s.atoms@.take(0), section));
    while k < s.atoms.len()
        invariant
            k <= s.atoms@.len(),
            ctx.sym_table.wf(),
            input_map.wf(),
            input_map@ == ctx.layout_inputs@,
            maps::all_known(s.atoms@, ctx.atom_table@),
            out@ == before + atoms_sites(*ctx, s.atoms@.take(k as int), section),
        decreases s.atoms@.len() - k,
    {
        proof {
            assert(s.atoms@.take(k + 1).drop_last() =~= s.atoms@.take(k as int));
            assert(1 <= s.atoms@[k as int].atom.0 <= ctx.atom_table@.len());
        }
        push_atom_sites(out, ctx, input_map, &s.atoms[k], section);
        assert(out@ =~= before + atoms_sites(*ctx, s.atoms@.take(k + 1), section));
        k += 1;
    }
    assert(s.atoms@.take(k as int) =~= s.atoms@);
    Ok(())
}

pub fn collect_rebase_sites(layout: &Layout, ctx: &LinkEditContext<'_>) -> (r: Result<
    Vec<RebaseSite>,
    WriteError,
>)
    requires
        ctx.sym_table.wf(),
        maps::atoms_known(layout.sections@, ctx.atom_table@),
        crate::reloc::arm64::fill::symbols_known(
            ctx.synthetic_plan.got.entries@,
            ctx.sym_table@.symbols.len(),
        ),
    ensures
        writer::same_list(r, all_sites(*ctx, *layout)),
{
    let mut out = match collect_lazy_pointer_rebase_sites(layout, ctx.synthetic_plan) {
        Ok(sites) => sites,
        Err(e) => {
            return Err(e);
        },
    };
    let mut got = match collect_local_got_rebase_sites(
        layout,
        ctx.synthetic_plan,
        ctx.sym_table,
    ) {
        Ok(sites) => sites,
        Err(e) => {
            return Err(e);
        },
    };
    out.append(&mut got);
    let ghost front = out@;
    let input_map = InputMap::new(ctx.layout_inputs);
    let ghost want = all_sites(*ctx, *layout);
    let mut i: usize = 0;
    assert(out@ =~= front + Seq::<RebaseSite>::empty());
    while i < layout.sections.len()
        invariant
            i <= layout.sections@.len(),
            ctx.sym_table.wf(),
            input_map.wf(),
            input_map@ == ctx.layout_inputs@,
            maps::atoms_known(layout.sections@, ctx.atom_table@),
            want == all_sites(*ctx, *layout),
            want == match sections_sites(*ctx, *layout, layout.sections@) {
                Ok(rest) => Ok::<_, WriteFault>(front + rest),
                Err(e) => Err(e),
            },
            match sections_sites(*ctx, *layout, layout.sections@.take(i as int)) {
                Ok(rest) => out@ == front + rest,
                Err(_) => false,
            },
        decreases layout.sections@.len() - i,
    {
        proof {
            assert(layout.sections@.take(i + 1).drop_last() =~= layout.sections@.take(i as int));
            assert(maps::all_known(layout.sections@[i as int].atoms@, ctx.atom_table@));
        }
        let ghost before = out@;
        let step = push_section_sites(&mut out, ctx, &input_map, layout, &layout.sections[i]);
        if let Err(e) = step {
            proof {
                lemma_sections_fault(*ctx, *layout, layout.sections@, i + 1);
            }
            return Err(e);
        }
        proof {
            let rest = sections_sites(*ctx, *layout, layout.sections@.take(i as int))->Ok_0;
            let more = section_sites(*ctx, *layout, layout.sections@[i as int])->Ok_0;
            assert(out@ =~= front + (rest + more));
        }
        i += 1;
    }
    assert(layout.sections@.take(i as int) =~= layout.sections@);
    Ok(out)
}

pub fn build_rebase_stream(layout: &Layout, ctx: &LinkEditContext<'_>) -> (r: Result<
    Vec<u8>,
    WriteError,
>)
    requires
        ctx.sym_table.wf(),
        maps::atoms_known(layout.sections@, ctx.atom_table@),
        crate::reloc::arm64::fill::symbols_known(
            ctx.synthetic_plan.got.entries@,
            ctx.sym_table@.symbols.len(),
        ),
    ensures
        writer::same_list(r, stream(*ctx, *layout)),
{
    let sites = match collect_rebase_sites(layout, ctx) {
        Ok(sites) => sites,
        Err(e) => {
            return Err(e);
        },
    };
    let sites = sort_distinct::<RebaseSite, ByPlace>(sites);
    Ok(emit_rebase_stream(&sites))
}

} // verus!
