//! The pointers of an image that dyld binds to symbols of dylibs.

use std::collections::HashMap;
use vstd::prelude::*;
use crate::dyld_info;
use crate::dyld_info::{
    emit_bind_records, emit_lazy_bind_record, BindModel, BindRecordSpec, RebaseSite,
};
use crate::layout;
use crate::layout::Layout;
use crate::macho::writer::imports;
use crate::macho::writer::imports::{ImportLookup, ImportModel, ImportSymbolRecord};
use crate::macho::writer::rebase;
use crate::macho::writer::rebase::{find_table, segment_index};
use crate::macho::writer::{WriteError, WriteFault};
use crate::reloc::arm64::targets;
use crate::section::{OutputAtom, OutputSection, OutputSegment};
use crate::synth::{DirectBind, SlotEntry, SyntheticPlan};
use crate::text::same_text;

verus! {

broadcast use vstd::std_specs::hash::group_hash_axioms;

/// Where an atom is, as far as binding its pointers is concerned.
#[derive(Debug, Clone, Copy, PartialEq, Eq, Structural)]
pub struct BindAtomPlacement {
    pub addr: u64,
    pub segment_index: u8,
    pub segment_vm_addr: u64,
    pub is_thread_vars: bool,
}

/// The last segment of this name.
pub open spec fn last_segment(segments: Seq<OutputSegment>, name: Seq<char>) -> Option<int>
    decreases segments.len(),
{
    if segments.len() == 0 {
        None
    } else if segments.last().name@ == name {
        Some(segments.len() - 1)
    } else {
        last_segment(segments.drop_last(), name)
    }
}

fn find_last_segment(segments: &Vec<OutputSegment>, name: &str) -> (r: Option<usize>)
    ensures
        match r {
            Some(i) => last_segment(segments@, name@) == Some(i as int) && i < segments@.len(),
            None => last_segment(segments@, name@) is None,
        },
{
    let mut i: usize = segments.len();
    assert(segments@.take(i as int) =~= segments@);
    while i > 0
        invariant
            i <= segments@.len(),
            last_segment(segments@, name@) == last_segment(segments@.take(i as int), name@),
        decreases i,
    {
        assert(segments@.take(i as int).drop_last() =~= segments@.take(i - 1));
        if same_text(segments[i - 1].name.as_str(), name) {
            return Some(i - 1);
        }
        i -= 1;
    }
    None
}

/// `m` with the places of a section's atoms.
pub open spec fn with_placed(
    m: Map<u32, BindAtomPlacement>,
    base: BindAtomPlacement,
    atoms: Seq<OutputAtom>,
) -> Map<u32, BindAtomPlacement>
    decreases atoms.len(),
{
    if atoms.len() == 0 {
        m
    } else {
        with_placed(m, base, atoms.drop_last()).insert(
            atoms.last().atom.0,
            BindAtomPlacement { addr: base.addr.wrapping_add(atoms.last().offset), ..base },
        )
    }
}

/// The places of the atoms in sections whose segments are known.
pub open spec fn placements(segments: Seq<OutputSegment>, sections: Seq<OutputSection>) -> Map<
    u32,
    BindAtomPlacement,
>
    decreases sections.len(),
{
    if sections.len() == 0 {
        Map::empty()
    } else {
        let rest = placements(segments, sections.drop_last());
        let s = sections.last();
        match last_segment(segments, s.segment@) {
            None => rest,
            Some(i) => with_placed(
                rest,
                BindAtomPlacement {
                    addr: s.addr,
                    segment_index: i as u8,
                    segment_vm_addr: segments[i].vm_addr,
                    is_thread_vars: layout::is_section(s, "__DATA"@, "__thread_vars"@),
                },
                s.atoms@,
            ),
        }
    }
}

/// The places of atoms by their ids.
#[derive(Debug)]
pub struct BindLayoutIndex {
    pub atoms: HashMap<u32, BindAtomPlacement>,
}

impl BindLayoutIndex {
    pub fn build(layout: &Layout) -> (r: Result<BindLayoutIndex, WriteError>)
        ensures
            match r {
                Ok(index) => layout.segments@.len() <= 256 && index.atoms@ == placements(
                    layout.segments@,
                    layout.sections@,
                ),
                Err(e) => layout.segments@.len() > 256 && e@ == WriteFault::OffsetTooLarge(
                    "segment index"@,
                ),
            },
    {
        if layout.segments.len() > 256 {
            return Err(WriteError::OffsetTooLarge("segment index"));
        }
        let mut atoms: HashMap<u32, BindAtomPlacement> = HashMap::new();
        let mut i: usize = 0;
        while i < layout.sections.len()
            invariant
                i <= layout.sections@.len(),
                layout.segments@.len() <= 256,
                atoms@ == placements(layout.segments@, layout.sections@.take(i as int)),
            decreases layout.sections@.len() - i,
        {
            let s = &layout.sections[i];
            assert(layout.sections@.take(i + 1).drop_last() =~= layout.sections@.take(i as int));
            assert(layout.sections@.take(i + 1).last() == *s);
            if let Some(n) = find_last_segment(&layout.segments, s.segment.as_str()) {
                let base = BindAtomPlacement {
                    addr: s.addr,
                    segment_index: n as u8,
                    segment_vm_addr: layout.segments[n].vm_addr,
                    is_thread_vars: same_text(s.segment.as_str(), "__DATA") && same_text(
                        s.name.as_str(),
                        "__thread_vars",
                    ),
                };
                let ghost before = atoms@;
                let mut k: usize = 0;
                while k < s.atoms.len()
                    invariant
                        k <= s.atoms@.len(),
                        atoms@ == with_placed(before, base, s.atoms@.take(k as int)),
                    decreases s.atoms@.len() - k,
                {
                    assert(s.atoms@.take(k + 1).drop_last() =~= s.atoms@.take(k as int));
                    atoms.insert(
                        s.atoms[k].atom.0,
                        BindAtomPlacement {
                            addr: base.addr.wrapping_add(s.atoms[k].offset),
                            segment_index: base.segment_index,
                            segment_vm_addr: base.segment_vm_addr,
                            is_thread_vars: base.is_thread_vars,
                        },
                    );
                    k += 1;
                }
                assert(s.atoms@.take(k as int) =~= s.atoms@);
            }
            i += 1;
        }
        assert(layout.sections@.take(i as int) =~= layout.sections@);
        Ok(BindLayoutIndex { atoms })
    }
}

/// The record that binds one pointer.
pub open spec fn bind_at(import: ImportModel, site: RebaseSite, addend: i64) -> BindModel {
    BindModel {
        segment_index: site.segment_index,
        segment_offset: site.segment_offset,
        ordinal: import.ordinal,
        name: import.name,
        weak_import: import.weak_import,
        addend,
    }
}

fn bind_record(import: &ImportSymbolRecord, site: RebaseSite, addend: i64) -> (r: BindRecordSpec)
    ensures
        r@ == bind_at(import@, site, addend),
{
    BindRecordSpec {
        segment_index: site.segment_index,
        segment_offset: site.segment_offset,
        ordinal: import.ordinal,
        name: import.name.clone(),
        weak_import: import.weak_import,
        addend,
    }
}

/// How many descriptors an atom of this size has.
pub open spec fn descriptor_count(size: u64) -> nat {
    ((size + 23) / 24) as nat
}

/// The first words of an atom's descriptors.
pub open spec fn descriptor_binds(placed: OutputAtom, section: RebaseSite, import: ImportModel) -> Seq<
    BindModel,
> {
    Seq::new(
        descriptor_count(placed.size),
        |k: int|
            bind_at(
                import,
                RebaseSite {
                    segment_offset: section.segment_offset.wrapping_add(
                        placed.offset,
                    ).wrapping_add((24 * k) as u64),
                    ..section
                },
                0,
            ),
    )
}

pub open spec fn all_descriptor_binds(
    atoms: Seq<OutputAtom>,
    section: RebaseSite,
    import: ImportModel,
) -> Seq<BindModel>
    decreases atoms.len(),
{
    if atoms.len() == 0 {
        seq![]
    } else {
        all_descriptor_binds(atoms.drop_last(), section, import) + descriptor_binds(
            atoms.last(),
            section,
            import,
        )
    }
}

/// The binds of thread-local descriptors to the function that sets them up.
pub open spec fn tlv_binds(layout: Layout, plan: SyntheticPlan, records: Seq<ImportModel>) -> Result<
    Seq<BindModel>,
    WriteFault,
> {
    match plan.tlv_bootstrap_symbol {
        None => Ok(seq![]),
        Some(id) => match rebase::segment_number(layout.segments@, "__DATA"@, "__DATA"@) {
            Err(e) => Err(e),
            Ok(segment_index) => match layout::section_at(
                layout.sections@,
                "__DATA"@,
                "__thread_vars"@,
            ) {
                None => Ok(seq![]),
                Some(i) => match imports::import_of(records, id) {
                    None => Err(WriteFault::ImportSymbolMissing(id)),
                    Some(import) => Ok(
                        all_descriptor_binds(
                            layout.sections@[i].atoms@,
                            RebaseSite {
                                segment_index,
                                segment_offset: layout.sections@[i].addr.wrapping_sub(
                                    layout.segments@[layout::segment_at(
                                        layout.segments@,
                                        "__DATA"@,
                                    )->0].vm_addr,
                                ),
                            },
                            import,
                        ),
                    ),
                },
            },
        },
    }
}

fn push_descriptor_binds(
    out: &mut Vec<BindRecordSpec>,
    placed: &OutputAtom,
    section: RebaseSite,
    import: &ImportSymbolRecord,
)
    ensures
        dyld_info::binds_view(final(out)@) == dyld_info::binds_view(old(out)@) + descriptor_binds(
            *placed,
            section,
            import@,
        ),
{
    let ghost before = dyld_info::binds_view(out@);
    let ghost want = descriptor_binds(*placed, section, import@);
    let n: u64 = if placed.size == 0 {
        0
    } else {
        (placed.size - 1) / 24 + 1
    };
    assert(n == descriptor_count(placed.size));
    let at: u64 = section.segment_offset.wrapping_add(placed.offset);
    let mut k: u64 = 0;
    assert(dyld_info::binds_view(out@) =~= before + want.take(0));
    while k < n
        invariant
            k <= n,
            n == descriptor_count(placed.size),
            n <= (u64::MAX - 1) / 24 + 1,
            at == section.segment_offset.wrapping_add(placed.offset),
            want == descriptor_binds(*placed, section, import@),
            dyld_info::binds_view(out@) == before + want.take(k as int),
        decreases n - k,
    {
        let ghost prev = out@;
        let site = RebaseSite {
            segment_index: section.segment_index,
            segment_offset: at.wrapping_add(24 * k),
        };
        let record = bind_record(import, site, 0);
        out.push(record);
        proof {
            assert(dyld_info::binds_view(out@) =~= dyld_info::binds_view(prev).push(record@));
            assert(want[k as int] == record@);
            assert(dyld_info::binds_view(out@) =~= before + want.take(k + 1));
        }
        k += 1;
    }
    assert(want.take(k as int) =~= want);
}

fn push_tlv_binds(
    out: &mut Vec<BindRecordSpec>,
    layout: &Layout,
    plan: &SyntheticPlan,
    lookup: &ImportLookup<'_>,
) -> (r: Result<(), WriteError>)
    requires
        lookup.wf(),
    ensures
        match (r, tlv_binds(*layout, *plan, lookup@)) {
            (Ok(_), Ok(more)) => dyld_info::binds_view(final(out)@) == dyld_info::binds_view(
                old(out)@,
            ) + more,
            (Err(e), Err(f)) => e@ == f,
            _ => false,
        },
{
    let ghost before = dyld_info::binds_view(out@);
    assert(before =~= before + Seq::<BindModel>::empty());
    let id = match plan.tlv_bootstrap_symbol {
        Some(id) => id,
        None => {
            return Ok(());
        },
    };
    let segment_index: u8 = match segment_index(layout, "__DATA", "__DATA") {
        Ok(n) => n,
        Err(e) => {
            return Err(e);
        },
    };
    let vm_addr: u64 = match layout.segment("__DATA") {
        Some(s) => s.vm_addr,
        None => {
            return Err(WriteError::MissingSegment("__DATA"));
        },
    };
    let i: usize = match layout.find_section("__DATA", "__thread_vars") {
        Some(i) => i,
        None => {
            return Ok(());
        },
    };
    let import = match lookup.get(id) {
        Some(import) => import,
        None => {
            return Err(WriteError::ImportSymbolMissing(id));
        },
    };
    let s = &layout.sections[i];
    let section = RebaseSite { segment_index, segment_offset: s.addr.wrapping_sub(vm_addr) };
    let mut k: usize = 0;
    assert(before =~= before + all_descriptor_binds(s.atoms@.take(0), section, import@));
    while k < s.atoms.len()
        invariant
            k <= s.atoms@.len(),
            dyld_info::binds_view(out@) == before + all_descriptor_binds(
                s.atoms@.take(k as int),
                section,
                import@,
            ),
        decreases s.atoms@.len() - k,
    {
        assert(s.atoms@.take(k + 1).drop_last() =~= s.atoms@.take(k as int));
        push_descriptor_binds(out, &s.atoms[k], section, import);
        assert(dyld_info::binds_view(out@) =~= before + all_descriptor_binds(
            s.atoms@.take(k + 1),
            section,
            import@,
        ));
        k += 1;
    }
    assert(s.atoms@.take(k as int) =~= s.atoms@);
    Ok(())
}

/// The binds of the slots whose symbols dylibs provide.
pub open spec fn slot_binds(
    table: RebaseSite,
    entries: Seq<SlotEntry>,
    records: Seq<ImportModel>,
) -> Seq<BindModel>
    decreases entries.len(),
{
    if entries.len() == 0 {
        seq![]
    } else {
        let rest = slot_binds(table, entries.drop_last(), records);
        match imports::import_of(records, entries.last().symbol) {
            Some(import) => rest.push(bind_at(import, rebase::slot(table, entries.len() - 1), 0)),
            None => rest,
        }
    }
}

/// The binds of the pointer table.
pub open spec fn got_binds(layout: Layout, plan: SyntheticPlan, records: Seq<ImportModel>) -> Result<
    Seq<BindModel>,
    WriteFault,
> {
    if plan.got.entries@.len() == 0 {
        Ok(seq![])
    } else {
        match rebase::table_place(layout, "__DATA_CONST"@, "__got"@) {
            Err(e) => Err(e),
            Ok(table) => Ok(slot_binds(table, plan.got.entries@, records)),
        }
    }
}

fn push_got_binds(
    out: &mut Vec<BindRecordSpec>,
    layout: &Layout,
    plan: &SyntheticPlan,
    lookup: &ImportLookup<'_>,
) -> (r: Result<(), WriteError>)
    requires
        lookup.wf(),
    ensures
        match (r, got_binds(*layout, *plan, lookup@)) {
            (Ok(_), Ok(more)) => dyld_info::binds_view(final(out)@) == dyld_info::binds_view(
                old(out)@,
            ) + more,
            (Err(e), Err(f)) => e@ == f,
            _ => false,
        },
{
    let ghost before = dyld_info::binds_view(out@);
    assert(before =~= before + Seq::<BindModel>::empty());
    let entries = &plan.got.entries;
    if entries.len() == 0 {
        return Ok(());
    }
    let table = match find_table(layout, "__DATA_CONST", "__got") {
        Ok(table) => table,
        Err(e) => {
            return Err(e);
        },
    };
    let mut i: usize = 0;
    while i < entries.len()
        invariant
            i <= entries@.len(),
            lookup.wf(),
            dyld_info::binds_view(out@) == before + slot_binds(
                table,
                entries@.take(i as int),
                lookup@,
            ),
        decreases entries@.len() - i,
    {
        assert(entries@.take(i + 1).drop_last() =~= entries@.take(i as int));
        if let Some(import) = lookup.get(entries[i].symbol) {
            let ghost prev = out@;
            let site = RebaseSite {
                segment_index: table.segment_index,
                segment_offset: table.segment_offset.wrapping_add((i as u64).wrapping_mul(8)),
            };
            let record = bind_record(import, site, 0);
            out.push(record);
            proof {
                assert(site == rebase::slot(table, i as int));
                assert(dyld_info::binds_view(out@) =~= dyld_info::binds_view(prev).push(record@));
                assert(dyld_info::binds_view(out@) =~= before + slot_binds(
                    table,
                    entries@.take(i + 1),
                    lookup@,
                ));
            }
        }
        i += 1;
    }
    assert(entries@.take(i as int) =~= entries@);
    Ok(())
}

/// The binds of pointers in the inputs' own data. Descriptors of thread-local variables
/// are bound elsewhere.
pub open spec fn direct_binds(
    binds: Seq<DirectBind>,
    places: Map<u32, BindAtomPlacement>,
    records: Seq<ImportModel>,
) -> Result<Seq<BindModel>, WriteFault>
    decreases binds.len(),
{
    if binds.len() == 0 {
        Ok(seq![])
    } else {
        let bind = binds.last();
        match direct_binds(binds.drop_last(), places, records) {
            Err(e) => Err(e),
            Ok(rest) => match (
                imports::import_of(records, bind.symbol),
                targets::lookup(places, bind.atom.0),
            ) {
                (None, _) => Err(WriteFault::ImportSymbolMissing(bind.symbol)),
                (Some(_), None) => Err(WriteFault::DirectBindAtomMissing(bind.atom)),
                (Some(import), Some(place)) => Ok(
                    if place.is_thread_vars {
                        rest
                    } else {
                        rest.push(bind_at(import, direct_site(place, bind), bind.addend))
                    },
                ),
            },
        }
    }
}

pub open spec fn direct_site(place: BindAtomPlacement, bind: DirectBind) -> RebaseSite {
    RebaseSite {
        segment_index: place.segment_index,
        segment_offset: place.addr.wrapping_add(bind.atom_offset as u64).wrapping_sub(
            place.segment_vm_addr,
        ),
    }
}

proof fn lemma_direct_fault(
    binds: Seq<DirectBind>,
    places: Map<u32, BindAtomPlacement>,
    records: Seq<ImportModel>,
    n: int,
)
    requires
        0 <= n <= binds.len(),
        direct_binds(binds.take(n), places, records) is Err,
    ensures
        direct_binds(binds, places, records) == direct_binds(binds.take(n), places, records),
    decreases binds.len() - n,
{
    if n < binds.len() {
        assert(binds.take(n + 1).drop_last() =~= binds.take(n));
        lemma_direct_fault(binds, places, records, n + 1);
    } else {
        assert(binds.take(n) =~= binds);
    }
}

fn push_direct_binds(
    out: &mut Vec<BindRecordSpec>,
    binds: &Vec<DirectBind>,
    index: &BindLayoutIndex,
    lookup: &ImportLookup<'_>,
) -> (r: Result<(), WriteError>)
    requires
        lookup.wf(),
    ensures
        match (r, direct_binds(binds@, index.atoms@, lookup@)) {
            (Ok(_), Ok(more)) => dyld_info::binds_view(final(out)@) == dyld_info::binds_view(
                old(out)@,
            ) + more,
            (Err(e), Err(f)) => e@ == f,
            _ => false,
        },
{
    let ghost before = dyld_info::binds_view(out@);
    assert(before =~= before + Seq::<BindModel>::empty());
    let mut i: usize = 0;
    while i < binds.len()
        invariant
            i <= binds@.len(),
            lookup.wf(),
            match direct_binds(binds@.take(i as int), index.atoms@, lookup@) {
                Ok(more) => dyld_info::binds_view(out@) == before + more,
                Err(_) => false,
            },
        decreases binds@.len() - i,
    {
        let bind = binds[i];
        assert(binds@.take(i + 1).drop_last() =~= binds@.take(i as int));
        let import = match lookup.get(bind.symbol) {
            Some(import) => import,
            None => {
                proof {
                    lemma_direct_fault(binds@, index.atoms@, lookup@, i + 1);
                }
                return Err(WriteError::ImportSymbolMissing(bind.symbol));
            },
        };
        let place = match index.atoms.get(&bind.atom.0) {
            Some(place) => *place,
            None => {
                proof {
                    lemma_direct_fault(binds@, index.atoms@, lookup@, i + 1);
                }
                return Err(WriteError::DirectBindAtomMissing(bind.atom));
            },
        };
        if !place.is_thread_vars {
            let ghost prev = out@;
            let ghost rest = direct_binds(binds@.take(i as int), index.atoms@, lookup@)->Ok_0;
            let site = RebaseSite {
                segment_index: place.segment_index,
                segment_offset: place.addr.wrapping_add(bind.atom_offset as u64).wrapping_sub(
                    place.segment_vm_addr,
                ),
            };
            let record = bind_record(import, site, bind.addend);
            out.push(record);
            proof {
                assert(dyld_info::binds_view(out@) =~= dyld_info::binds_view(prev).push(record@));
                assert(dyld_info::binds_view(out@) =~= before + rest.push(record@));
            }
        }
        i += 1;
    }
    assert(binds@.take(i as int) =~= binds@);
    Ok(())
}

/// The lazy bind stream, and where in it each symbol's record starts.
#[verifier::ext_equal]
pub struct LazyModel {
    pub stream: Seq<u8>,
    pub offsets: Map<u32, u32>,
}

/// The record of the `i`th lazy pointer.
pub open spec fn lazy_part(table: RebaseSite, i: int, import: ImportModel) -> Seq<u8> {
    let site = rebase::slot(table, i);
    dyld_info::lazy_record(
        site.segment_index,
        site.segment_offset,
        import.ordinal,
        import.name,
        import.weak_import,
    )
}

/// The records of the lazy pointers, one behind the other.
pub open spec fn lazy_binds(
    table: RebaseSite,
    entries: Seq<SlotEntry>,
    records: Seq<ImportModel>,
) -> Result<LazyModel, WriteFault>
    decreases entries.len(),
{
    if entries.len() == 0 {
        Ok(LazyModel { stream: seq![], offsets: Map::empty() })
    } else {
        let id = entries.last().symbol;
        match lazy_binds(table, entries.drop_last(), records) {
            Err(e) => Err(e),
            Ok(rest) => match imports::import_of(records, id) {
                None => Err(WriteFault::ImportSymbolMissing(id)),
                Some(import) => Ok(
                    LazyModel {
                        stream: rest.stream + lazy_part(table, entries.len() - 1, import),
                        offsets: rest.offsets.insert(id.0, rest.stream.len() as u32),
                    },
                ),
            },
        }
    }
}

proof fn lemma_lazy_fault(
    table: RebaseSite,
    entries: Seq<SlotEntry>,
    records: Seq<ImportModel>,
    n: int,
)
    requires
        0 <= n <= entries.len(),
        lazy_binds(table, entries.take(n), records) is Err,
    ensures
        lazy_binds(table, entries, records) == lazy_binds(table, entries.take(n), records),
    decreases entries.len() - n,
{
    if n < entries.len() {
        assert(entries.take(n + 1).drop_last() =~= entries.take(n));
        lemma_lazy_fault(table, entries, records, n + 1);
    } else {
        assert(entries.take(n) =~= entries);
    }
}

/// The lazy binds of an image.
pub open spec fn lazy_stream(layout: Layout, plan: SyntheticPlan, records: Seq<ImportModel>) -> Result<
    LazyModel,
    WriteFault,
> {
    if plan.lazy_pointers.entries@.len() == 0 {
        Ok(LazyModel { stream: seq![], offsets: Map::empty() })
    } else {
        match rebase::table_place(layout, "__DATA"@, "__la_symbol_ptr"@) {
            Err(e) => Err(e),
            Ok(table) => lazy_binds(table, plan.lazy_pointers.entries@, records),
        }
    }
}

fn build_lazy_binds(layout: &Layout, plan: &SyntheticPlan, lookup: &ImportLookup<'_>) -> (r: Result<
    (Vec<u8>, HashMap<u32, u32>),
    WriteError,
>)
    requires
        lookup.wf(),
    ensures
        match (r, lazy_stream(*layout, *plan, lookup@)) {
            (Ok((stream, offsets)), Ok(m)) => stream@ == m.stream && offsets@ == m.offsets,
            (Err(e), Err(f)) => e@ == f,
            _ => false,
        },
{
    let mut out: Vec<u8> = Vec::new();
    let mut offsets: HashMap<u32, u32> = HashMap::new();
    let entries = &plan.lazy_pointers.entries;
    if entries.len() == 0 {
        return Ok((out, offsets));
    }
    let table = match find_table(layout, "__DATA", "__la_symbol_ptr") {
        Ok(table) => table,
        Err(e) => {
            return Err(e);
        },
    };
    let mut i: usize = 0;
    while i < entries.len()
        invariant
            i <= entries@.len(),
            entries@ == plan.lazy_pointers.entries@,
            entries@.len() > 0,
            rebase::table_place(*layout, "__DATA"@, "__la_symbol_ptr"@) == Ok::<_, WriteFault>(
                table,
            ),
            lookup.wf(),
            match lazy_binds(table, entries@.take(i as int), lookup@) {
                Ok(m) => out@ == m.stream && offsets@ == m.offsets,
                Err(_) => false,
            },
        decreases entries@.len() - i,
    {
        let id = entries[i].symbol;
        assert(entries@.take(i + 1).drop_last() =~= entries@.take(i as int));
        let import = match lookup.get(id) {
            Some(import) => import,
            None => {
                proof {
                    lemma_lazy_fault(table, entries@, lookup@, i + 1);
                }
                return Err(WriteError::ImportSymbolMissing(id));
            },
        };
        offsets.insert(id.0, out.len() as u32);
        emit_lazy_bind_record(
            &mut out,
            table.segment_index,
            table.segment_offset.wrapping_add((i as u64).wrapping_mul(8)),
            import.ordinal,
            import.name.as_str(),
            import.weak_import,
        );
        i += 1;
    }
    assert(entries@.take(i as int) =~= entries@);
    Ok((out, offsets))
}

/// The bind streams of an image.
#[derive(Debug)]
pub struct BindStreams {
    pub bind: Vec<u8>,
    pub weak_bind: Vec<u8>,
    pub lazy_bind: Vec<u8>,
    /// Where in `lazy_bind` each symbol's record starts.
    pub lazy_offsets: HashMap<u32, u32>,
}

/// `BindStreams` as mathematical values.
#[verifier::ext_equal]
pub struct BindStreamsModel {
    pub bind: Seq<u8>,
    pub lazy: LazyModel,
}

/// What dyld binds at once: the thread-local descriptors, then the pointer table, then
/// the pointers in data.
pub open spec fn eager_binds(layout: Layout, plan: SyntheticPlan, records: Seq<ImportModel>) -> Result<
    Seq<BindModel>,
    WriteFault,
> {
    match tlv_binds(layout, plan, records) {
        Err(e) => Err(e),
        Ok(tlv) => match got_binds(layout, plan, records) {
            Err(e) => Err(e),
            Ok(got) => match direct_binds(
                plan.direct_binds@,
                placements(layout.segments@, layout.sections@),
                records,
            ) {
                Err(e) => Err(e),
                Ok(direct) => Ok(tlv + got + direct),
            },
        },
    }
}

/// The bind streams of an image; nothing is bound weakly.
pub open spec fn bind_streams(layout: Layout, plan: SyntheticPlan, records: Seq<ImportModel>) -> Result<
    BindStreamsModel,
    WriteFault,
> {
    if layout.segments@.len() > 256 {
        Err(WriteFault::OffsetTooLarge("segment index"@))
    } else {
        match eager_binds(layout, plan, records) {
            Err(e) => Err(e),
            Ok(binds) => match lazy_stream(layout, plan, records) {
                Err(e) => Err(e),
                Ok(lazy) => Ok(BindStreamsModel { bind: dyld_info::bind_stream(binds), lazy }),
            },
        }
    }
}

pub fn build_bind_streams(
    layout: &Layout,
    synthetic_plan: &SyntheticPlan,
    imports: &ImportLookup<'_>,
) -> (r: Result<BindStreams, WriteError>)
    requires
        imports.wf(),
    ensures
        match (r, bind_streams(*layout, *synthetic_plan, imports@)) {
            (Ok(s), Ok(m)) => s.bind@ == m.bind && s.weak_bind@.len() == 0 && s.lazy_bind@
                == m.lazy.stream && s.lazy_offsets@ == m.lazy.offsets,
            (Err(e), Err(f)) => e@ == f,
            _ => false,
        },
{
    let index = match BindLayoutIndex::build(layout) {
        Ok(index) => index,
        Err(e) => {
            return Err(e);
        },
    };
    let mut specs: Vec<BindRecordSpec> = Vec::new();
    assert(dyld_info::binds_view(specs@) =~= seq![]);
    if let Err(e) = push_tlv_binds(&mut specs, layout, synthetic_plan, imports) {
        return Err(e);
    }
    let ghost tlv = tlv_binds(*layout, *synthetic_plan, imports@)->Ok_0;
    assert(dyld_info::binds_view(specs@) =~= tlv);
    if let Err(e) = push_got_binds(&mut specs, layout, synthetic_plan, imports) {
        return Err(e);
    }
    if let Err(e) = push_direct_binds(&mut specs, &synthetic_plan.direct_binds, &index, imports) {
        return Err(e);
    }
    let (lazy_bind, lazy_offsets) = match build_lazy_binds(layout, synthetic_plan, imports) {
        Ok(lazy) => lazy,
        Err(e) => {
            return Err(e);
        },
    };
    Ok(
        BindStreams {
            bind: emit_bind_records(&specs),
            weak_bind: Vec::new(),
            lazy_bind,
            lazy_offsets,
        },
    )
}

/// A symbol's lazy bind offset leads to its record: that of its last lazy pointer.
pub proof fn law_lazy_offset_leads_to_record(
    table: RebaseSite,
    entries: Seq<SlotEntry>,
    records: Seq<ImportModel>,
    i: int,
)
    requires
        lazy_binds(table, entries, records) is Ok,
        lazy_binds(table, entries, records)->Ok_0.stream.len() <= u32::MAX,
        0 <= i < entries.len(),
        forall|k: int| i < k < entries.len() ==> (#[trigger] entries[k]).symbol
            != entries[i].symbol,
    ensures
        ({
            let m = lazy_binds(table, entries, records)->Ok_0;
            let id = entries[i].symbol;
            let part = lazy_part(table, i, imports::import_of(records, id)->0);
            &&& m.offsets.contains_key(id.0)
            &&& m.offsets[id.0] + part.len() <= m.stream.len()
            &&& m.stream.subrange(
                m.offsets[id.0] as int,
                m.offsets[id.0] + part.len(),
            ) == part
        }),
    decreases entries.len(),
{
    let m = lazy_binds(table, entries, records)->Ok_0;
    let rest = lazy_binds(table, entries.drop_last(), records)->Ok_0;
    let id = entries[i].symbol;
    let part = lazy_part(table, i, imports::import_of(records, id)->0);
    if i < entries.len() - 1 {
        let fewer = entries.drop_last();
        assert(fewer[i] == entries[i]);
        assert forall|k: int| i < k < fewer.len() implies (#[trigger] fewer[k]).symbol
            != fewer[i].symbol by {
            assert(fewer[k] == entries[k]);
        }
        assert(entries.last() == entries[entries.len() - 1]);
        assert(entries.last().symbol.0 != id.0);
        law_lazy_offset_leads_to_record(table, fewer, records, i);
        let at = rest.offsets[id.0] as int;
        assert(m.stream.subrange(at, at + part.len()) =~= rest.stream.subrange(
            at,
            at + part.len(),
        ));
    } else {
        let at = rest.stream.len() as int;
        assert(m.stream.subrange(at, at + part.len()) =~= part);
    }
}

} // verus!
