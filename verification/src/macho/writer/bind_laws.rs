//! Which pointers dyld binds, and to what.

use vstd::prelude::*;
use crate::dyld_binds;
use crate::dyld_binds::Bound;
use crate::dyld_info::{BindModel, RebaseSite};
use crate::layout;
use crate::layout::Layout;
use crate::macho::writer::bind;
use crate::macho::writer::bind::BindAtomPlacement;
use crate::macho::writer::imports;
use crate::macho::writer::imports::ImportModel;
use crate::macho::writer::rebase;
use crate::reloc::arm64::places;
use crate::resolve::SymbolId;
use crate::section::{OutputAtom, OutputSection, OutputSegment};
use crate::synth::{DirectBind, SlotEntry, SyntheticPlan};
use crate::text;

verus! {

/// The segment `n` is the only one of that name.
pub open spec fn only_named(segments: Seq<OutputSegment>, n: int, name: Seq<char>) -> bool {
    &&& 0 <= n < segments.len()
    &&& segments[n].name@ == name
    &&& forall|m: int| 0 <= m < segments.len() && m != n ==> (#[trigger] segments[m]).name@ != name
}

/// The import `r` is the only one for that symbol.
pub open spec fn only_import(records: Seq<ImportModel>, r: int, id: SymbolId) -> bool {
    &&& 0 <= r < records.len()
    &&& records[r].symbol == id
    &&& forall|q: int| 0 <= q < records.len() && q != r ==> (#[trigger] records[q]).symbol != id
}

/// Names of imports end where they end.
pub open spec fn names_end(records: Seq<ImportModel>) -> bool {
    forall|r: int|
        0 <= r < records.len() ==> !text::utf8((#[trigger] records[r]).name).contains(0u8)
}

/// The pointer is bound to the import with this addend, at this address.
pub open spec fn binds(
    segments: Seq<OutputSegment>,
    b: Bound,
    n: int,
    address: int,
    import: ImportModel,
    addend: int,
) -> bool {
    &&& b.name == text::utf8(import.name)
    &&& b.ordinal == import.ordinal
    &&& b.weak_import == import.weak_import
    &&& b.addend == addend
    &&& b.segment_index == n
    &&& (segments[n].vm_addr + b.segment_offset) % 0x1_0000_0000_0000_0000 == address
        % 0x1_0000_0000_0000_0000
}

/// The pointers that dyld binds at once when it starts the image.
pub open spec fn bound_at_start(
    layout: Layout,
    plan: SyntheticPlan,
    records: Seq<ImportModel>,
    st: Bound,
) -> Seq<Bound> {
    dyld_binds::bound((bind::bind_streams(layout, plan, records)->Ok_0).bind, st)
}

proof fn lemma_import(records: Seq<ImportModel>, id: SymbolId)
    ensures
        match imports::import_of(records, id) {
            Some(import) => exists|r: int|
                0 <= r < records.len() && #[trigger] records[r] == import && import.symbol == id,
            None => forall|r: int| 0 <= r < records.len() ==> (#[trigger] records[r]).symbol != id,
        },
    decreases records.len(),
{
    if records.len() > 0 {
        let front = records.drop_last();
        lemma_import(front, id);
        if records.last().symbol == id {
            assert(records[records.len() - 1] == records.last());
        } else {
            match imports::import_of(front, id) {
                Some(import) => {
                    let r = choose|r: int|
                        0 <= r < front.len() && #[trigger] front[r] == import && import.symbol
                            == id;
                    assert(records[r] == import);
                },
                None => {
                    assert forall|r: int| 0 <= r < records.len() implies (
                    #[trigger] records[r]).symbol != id by {
                        if r < front.len() {
                            assert(front[r] == records[r]);
                        }
                    }
                },
            }
        }
    }
}

pub proof fn lemma_only_import(records: Seq<ImportModel>, r: int, id: SymbolId)
    requires
        only_import(records, r, id),
    ensures
        imports::import_of(records, id) == Some(records[r]),
{
    lemma_import(records, id);
    assert(records[r].symbol == id);
}

proof fn lemma_last_segment(segments: Seq<OutputSegment>, name: Seq<char>)
    ensures
        match bind::last_segment(segments, name) {
            Some(n) => 0 <= n < segments.len() && segments[n].name@ == name,
            None => forall|m: int| 0 <= m < segments.len() ==> (#[trigger] segments[m]).name@
                != name,
        },
    decreases segments.len(),
{
    if segments.len() > 0 {
        lemma_last_segment(segments.drop_last(), name);
        assert forall|m: int| 0 <= m < segments.len() - 1 implies segments.drop_last()[m]
            == #[trigger] segments[m] by {}
    }
}

proof fn lemma_only_named(segments: Seq<OutputSegment>, n: int, name: Seq<char>)
    requires
        only_named(segments, n, name),
    ensures
        bind::last_segment(segments, name) == Some(n),
        layout::segment_at(segments, name) == Some(n),
{
    lemma_last_segment(segments, name);
    layout::lemma_segment_at(segments, name);
    assert(segments[n].name@ == name);
}

proof fn lemma_placed_absent(
    m: Map<u32, BindAtomPlacement>,
    base: BindAtomPlacement,
    atoms: Seq<OutputAtom>,
    a: u32,
)
    requires
        forall|l: int| 0 <= l < atoms.len() ==> (#[trigger] atoms[l]).atom.0 != a,
    ensures
        bind::with_placed(m, base, atoms).contains_key(a) == m.contains_key(a),
        m.contains_key(a) ==> bind::with_placed(m, base, atoms)[a] == m[a],
    decreases atoms.len(),
{
    if atoms.len() > 0 {
        assert(atoms[atoms.len() - 1].atom.0 != a);
        let rest = atoms.drop_last();
        assert forall|l: int| 0 <= l < rest.len() implies (#[trigger] rest[l]).atom.0 != a by {
            assert(rest[l] == atoms[l]);
        }
        lemma_placed_absent(m, base, rest, a);
    }
}

proof fn lemma_placed_present(
    m: Map<u32, BindAtomPlacement>,
    base: BindAtomPlacement,
    atoms: Seq<OutputAtom>,
    k: int,
    a: u32,
)
    requires
        0 <= k < atoms.len(),
        atoms[k].atom.0 == a,
        forall|l: int| 0 <= l < atoms.len() && (#[trigger] atoms[l]).atom.0 == a ==> l == k,
    ensures
        bind::with_placed(m, base, atoms).contains_key(a),
        bind::with_placed(m, base, atoms)[a] == (BindAtomPlacement {
            addr: base.addr.wrapping_add(atoms[k].offset),
            ..base
        }),
    decreases atoms.len(),
{
    if k < atoms.len() - 1 {
        assert(atoms[atoms.len() - 1].atom.0 != a);
        let rest = atoms.drop_last();
        assert(rest[k] == atoms[k]);
        assert forall|l: int| 0 <= l < rest.len() && (#[trigger] rest[l]).atom.0 == a implies l
            == k by {
            assert(rest[l] == atoms[l]);
        }
        lemma_placed_present(m, base, rest, k, a);
    }
}

proof fn lemma_placement(
    segments: Seq<OutputSegment>,
    sections: Seq<OutputSection>,
    i: int,
    k: int,
    a: u32,
    n: int,
)
    requires
        places::stands_at(sections, i, k, a),
        bind::last_segment(segments, sections[i].segment@) == Some(n),
    ensures
        bind::placements(segments, sections).contains_key(a),
        bind::placements(segments, sections)[a] == (BindAtomPlacement {
            addr: sections[i].addr.wrapping_add(sections[i].atoms@[k].offset),
            segment_index: n as u8,
            segment_vm_addr: segments[n].vm_addr,
            is_thread_vars: sections[i].segment@ == "__DATA"@ && sections[i].name@
                == "__thread_vars"@,
        }),
    decreases sections.len(),
{
    let last = sections.len() - 1;
    let rest = sections.drop_last();
    let s = sections.last();
    let m = bind::placements(segments, rest);
    if i < last {
        places::lemma_fewer(sections, i, k, a);
        assert(rest[i] == sections[i]);
        lemma_placement(segments, rest, i, k, a, n);
        assert forall|l: int| 0 <= l < s.atoms@.len() implies (#[trigger] s.atoms@[l]).atom.0
            != a by {
            assert(sections[last].atoms@[l] == s.atoms@[l]);
        }
        match bind::last_segment(segments, s.segment@) {
            None => {},
            Some(q) => {
                lemma_placed_absent(
                    m,
                    BindAtomPlacement {
                        addr: s.addr,
                        segment_index: q as u8,
                        segment_vm_addr: segments[q].vm_addr,
                        is_thread_vars: layout::is_section(s, "__DATA"@, "__thread_vars"@),
                    },
                    s.atoms@,
                    a,
                );
            },
        }
    } else {
        assert forall|l: int|
            0 <= l < s.atoms@.len() && (#[trigger] s.atoms@[l]).atom.0 == a implies l == k by {
            assert(sections[last].atoms@[l] == s.atoms@[l]);
        }
        lemma_placed_present(
            m,
            BindAtomPlacement {
                addr: s.addr,
                segment_index: n as u8,
                segment_vm_addr: segments[n].vm_addr,
                is_thread_vars: layout::is_section(s, "__DATA"@, "__thread_vars"@),
            },
            s.atoms@,
            k,
            a,
        );
    }
}

/// Every placement names one of the segments.
proof fn lemma_placements_small(segments: Seq<OutputSegment>, sections: Seq<OutputSection>)
    requires
        segments.len() <= 16,
    ensures
        forall|a: u32| #[trigger]
            bind::placements(segments, sections).contains_key(a) ==> bind::placements(
                segments,
                sections,
            )[a].segment_index < 16,
    decreases sections.len(),
{
    if sections.len() > 0 {
        lemma_placements_small(segments, sections.drop_last());
        let s = sections.last();
        lemma_last_segment(segments, s.segment@);
        match bind::last_segment(segments, s.segment@) {
            None => {
                assert(bind::placements(segments, sections) == bind::placements(
                    segments,
                    sections.drop_last(),
                ));
            },
            Some(q) => {
                lemma_placed_small(
                    bind::placements(segments, sections.drop_last()),
                    BindAtomPlacement {
                        addr: s.addr,
                        segment_index: q as u8,
                        segment_vm_addr: segments[q].vm_addr,
                        is_thread_vars: layout::is_section(s, "__DATA"@, "__thread_vars"@),
                    },
                    s.atoms@,
                );
            },
        }
    }
}

proof fn lemma_placed_small(
    m: Map<u32, BindAtomPlacement>,
    base: BindAtomPlacement,
    atoms: Seq<OutputAtom>,
)
    requires
        base.segment_index < 16,
        forall|a: u32| #[trigger] m.contains_key(a) ==> m[a].segment_index < 16,
    ensures
        forall|a: u32| #[trigger]
            bind::with_placed(m, base, atoms).contains_key(a) ==> bind::with_placed(
                m,
                base,
                atoms,
            )[a].segment_index < 16,
    decreases atoms.len(),
{
    if atoms.len() > 0 {
        let rest = bind::with_placed(m, base, atoms.drop_last());
        let all = bind::with_placed(m, base, atoms);
        lemma_placed_small(m, base, atoms.drop_last());
        assert forall|a: u32| #[trigger] all.contains_key(a) implies all[a].segment_index
            < 16 by {
            if a != atoms.last().atom.0 {
                assert(rest.contains_key(a));
            }
        }
    }
}

/// Every record can be written and read.
spec fn all_writable(s: Seq<BindModel>) -> bool {
    forall|i: int| 0 <= i < s.len() ==> dyld_binds::writable(#[trigger] s[i])
}

proof fn lemma_direct_writable(
    list: Seq<DirectBind>,
    where_: Map<u32, BindAtomPlacement>,
    records: Seq<ImportModel>,
)
    requires
        bind::direct_binds(list, where_, records) is Ok,
        names_end(records),
        forall|a: u32| #[trigger] where_.contains_key(a) ==> where_[a].segment_index < 16,
    ensures
        all_writable(bind::direct_binds(list, where_, records)->Ok_0),
    decreases list.len(),
{
    if list.len() > 0 {
        lemma_direct_writable(list.drop_last(), where_, records);
        lemma_import(records, list.last().symbol);
    }
}

proof fn lemma_slots_writable(place: RebaseSite, entries: Seq<SlotEntry>, records: Seq<ImportModel>)
    requires
        place.segment_index < 16,
        names_end(records),
    ensures
        all_writable(bind::slot_binds(place, entries, records)),
    decreases entries.len(),
{
    if entries.len() > 0 {
        lemma_slots_writable(place, entries.drop_last(), records);
        lemma_import(records, entries.last().symbol);
    }
}

proof fn lemma_descriptors_writable(atoms: Seq<OutputAtom>, section: RebaseSite, import: ImportModel)
    requires
        section.segment_index < 16,
        !text::utf8(import.name).contains(0u8),
    ensures
        all_writable(bind::all_descriptor_binds(atoms, section, import)),
    decreases atoms.len(),
{
    if atoms.len() > 0 {
        lemma_descriptors_writable(atoms.drop_last(), section, import);
    }
}

/// What is bound at the start is what was asked for.
proof fn lemma_bound(layout: Layout, plan: SyntheticPlan, records: Seq<ImportModel>, st: Bound)
    requires
        bind::bind_streams(layout, plan, records) is Ok,
        layout.segments@.len() <= 16,
        names_end(records),
        st.addend == 0,
    ensures
        ({
            let eager = bind::eager_binds(layout, plan, records)->Ok_0;
            let out = bound_at_start(layout, plan, records, st);
            &&& bind::eager_binds(layout, plan, records) is Ok
            &&& out.len() == eager.len()
            &&& forall|i: int|
                0 <= i < eager.len() ==> #[trigger] out[i] == dyld_binds::wanted(eager[i])
        }),
{
    let eager = bind::eager_binds(layout, plan, records)->Ok_0;
    lemma_placements_small(layout.segments@, layout.sections@);
    lemma_direct_writable(
        plan.direct_binds@,
        bind::placements(layout.segments@, layout.sections@),
        records,
    );
    if plan.got.entries@.len() > 0 {
        let place = rebase::table_place(layout, "__DATA_CONST"@, "__got"@)->Ok_0;
        layout::lemma_segment_at(layout.segments@, "__DATA_CONST"@);
        lemma_slots_writable(place, plan.got.entries@, records);
    }
    if plan.tlv_bootstrap_symbol is Some {
        let id = plan.tlv_bootstrap_symbol->0;
        layout::lemma_segment_at(layout.segments@, "__DATA"@);
        lemma_import(records, id);
        if layout::section_at(layout.sections@, "__DATA"@, "__thread_vars"@) is Some {
            let i = layout::section_at(layout.sections@, "__DATA"@, "__thread_vars"@)->0;
            let n = layout::segment_at(layout.segments@, "__DATA"@)->0;
            lemma_descriptors_writable(
                layout.sections@[i].atoms@,
                RebaseSite {
                    segment_index: n as u8,
                    segment_offset: layout.sections@[i].addr.wrapping_sub(
                        layout.segments@[n].vm_addr,
                    ),
                },
                imports::import_of(records, id)->0,
            );
        }
    }
    assert(all_writable(bind::tlv_binds(layout, plan, records)->Ok_0));
    assert(all_writable(bind::got_binds(layout, plan, records)->Ok_0));
    assert(all_writable(eager));
    dyld_binds::law_bind_stream_binds_records(eager, st);
}

proof fn lemma_direct(
    list: Seq<DirectBind>,
    where_: Map<u32, BindAtomPlacement>,
    records: Seq<ImportModel>,
    q: int,
)
    requires
        bind::direct_binds(list, where_, records) is Ok,
        0 <= q < list.len(),
        where_.contains_key(list[q].atom.0),
        !where_[list[q].atom.0].is_thread_vars,
        imports::import_of(records, list[q].symbol) is Some,
    ensures
        (bind::direct_binds(list, where_, records)->Ok_0).contains(
            bind::bind_at(
                imports::import_of(records, list[q].symbol)->0,
                bind::direct_site(where_[list[q].atom.0], list[q]),
                list[q].addend,
            ),
        ),
    decreases list.len(),
{
    let out = bind::direct_binds(list, where_, records)->Ok_0;
    let front = list.drop_last();
    let rest = bind::direct_binds(front, where_, records)->Ok_0;
    let record = bind::bind_at(
        imports::import_of(records, list[q].symbol)->0,
        bind::direct_site(where_[list[q].atom.0], list[q]),
        list[q].addend,
    );
    if q < front.len() {
        assert(front[q] == list[q]);
        lemma_direct(front, where_, records, q);
        let j = choose|j: int| 0 <= j < rest.len() && rest[j] == record;
        assert(out[j] == record);
    } else {
        assert(out[out.len() - 1] == record);
    }
}

/// Each pointer of the data that the plan binds directly, outside the descriptors of
/// thread-local variables, is bound to its import: at the address that its atom has in
/// the layout plus its offset in the atom.
pub proof fn law_direct_bind_at_its_slot(
    layout: Layout,
    plan: SyntheticPlan,
    records: Seq<ImportModel>,
    st: Bound,
    q: int,
    i: int,
    k: int,
    n: int,
    r: int,
)
    requires
        bind::bind_streams(layout, plan, records) is Ok,
        layout.segments@.len() <= 16,
        names_end(records),
        st.addend == 0,
        0 <= q < plan.direct_binds@.len(),
        places::stands_at(layout.sections@, i, k, plan.direct_binds@[q].atom.0),
        !(layout.sections@[i].segment@ == "__DATA"@ && layout.sections@[i].name@
            == "__thread_vars"@),
        only_named(layout.segments@, n, layout.sections@[i].segment@),
        only_import(records, r, plan.direct_binds@[q].symbol),
    ensures
        exists|j: int|
            0 <= j < bound_at_start(layout, plan, records, st).len() && binds(
                layout.segments@,
                #[trigger] bound_at_start(layout, plan, records, st)[j],
                n,
                layout.sections@[i].addr + layout.sections@[i].atoms@[k].offset
                    + plan.direct_binds@[q].atom_offset,
                records[r],
                plan.direct_binds@[q].addend as int,
            ),
{
    let b = plan.direct_binds@[q];
    let out = bound_at_start(layout, plan, records, st);
    let where_ = bind::placements(layout.segments@, layout.sections@);
    lemma_bound(layout, plan, records, st);
    lemma_only_named(layout.segments@, n, layout.sections@[i].segment@);
    lemma_only_import(records, r, b.symbol);
    lemma_placement(layout.segments@, layout.sections@, i, k, b.atom.0, n);
    lemma_direct(plan.direct_binds@, where_, records, q);
    let direct = bind::direct_binds(plan.direct_binds@, where_, records)->Ok_0;
    let record = bind::bind_at(records[r], bind::direct_site(where_[b.atom.0], b), b.addend);
    let d = choose|d: int| 0 <= d < direct.len() && direct[d] == record;
    let tlv = bind::tlv_binds(layout, plan, records)->Ok_0;
    let got = bind::got_binds(layout, plan, records)->Ok_0;
    let j = tlv.len() + got.len() + d;
    let eager = bind::eager_binds(layout, plan, records)->Ok_0;
    assert(eager[j] == record);
    assert(out[j] == dyld_binds::wanted(record));
    lemma_offset(
        layout.segments@[n].vm_addr,
        layout.sections@[i].addr,
        layout.sections@[i].atoms@[k].offset,
        b.atom_offset as u64,
    );
}

proof fn lemma_offset(base: u64, section: u64, atom: u64, offset: u64)
    ensures
        (base + section.wrapping_add(atom).wrapping_add(offset).wrapping_sub(base))
            % 0x1_0000_0000_0000_0000 == (section + atom + offset) % 0x1_0000_0000_0000_0000,
        (base + section.wrapping_sub(base).wrapping_add(atom).wrapping_add(offset))
            % 0x1_0000_0000_0000_0000 == (section + atom + offset) % 0x1_0000_0000_0000_0000,
{
}

/// The two pointers are those of the two imports, in one segment, this far apart.
pub open spec fn as_far_apart(
    a: Bound,
    b: Bound,
    first: ImportModel,
    second: ImportModel,
    distance: int,
) -> bool {
    &&& a.name == text::utf8(first.name)
    &&& b.name == text::utf8(second.name)
    &&& a.segment_index == b.segment_index
    &&& (a.segment_offset - b.segment_offset) % 0x1_0000_0000_0000_0000 == distance
        % 0x1_0000_0000_0000_0000
}

/// Two pointers of one atom are bound as far apart as they stand in the atom.
pub proof fn law_direct_binds_keep_their_distance(
    layout: Layout,
    plan: SyntheticPlan,
    records: Seq<ImportModel>,
    st: Bound,
    q1: int,
    q2: int,
    i: int,
    k: int,
    n: int,
    r1: int,
    r2: int,
)
    requires
        bind::bind_streams(layout, plan, records) is Ok,
        layout.segments@.len() <= 16,
        names_end(records),
        st.addend == 0,
        0 <= q1 < plan.direct_binds@.len(),
        0 <= q2 < plan.direct_binds@.len(),
        plan.direct_binds@[q1].atom == plan.direct_binds@[q2].atom,
        places::stands_at(layout.sections@, i, k, plan.direct_binds@[q1].atom.0),
        !(layout.sections@[i].segment@ == "__DATA"@ && layout.sections@[i].name@
            == "__thread_vars"@),
        only_named(layout.segments@, n, layout.sections@[i].segment@),
        only_import(records, r1, plan.direct_binds@[q1].symbol),
        only_import(records, r2, plan.direct_binds@[q2].symbol),
    ensures
        exists|j1: int, j2: int|
            0 <= j1 < bound_at_start(layout, plan, records, st).len() && 0 <= j2 < bound_at_start(
                layout,
                plan,
                records,
                st,
            ).len() && as_far_apart(
                #[trigger] bound_at_start(layout, plan, records, st)[j1],
                #[trigger] bound_at_start(layout, plan, records, st)[j2],
                records[r1],
                records[r2],
                plan.direct_binds@[q1].atom_offset - plan.direct_binds@[q2].atom_offset,
            ),
{
    law_direct_bind_at_its_slot(layout, plan, records, st, q1, i, k, n, r1);
    law_direct_bind_at_its_slot(layout, plan, records, st, q2, i, k, n, r2);
    let out = bound_at_start(layout, plan, records, st);
    let base = layout.sections@[i].addr + layout.sections@[i].atoms@[k].offset;
    let o1 = plan.direct_binds@[q1].atom_offset as int;
    let o2 = plan.direct_binds@[q2].atom_offset as int;
    let j1 = choose|j: int|
        0 <= j < out.len() && binds(
            layout.segments@,
            #[trigger] out[j],
            n,
            base + o1,
            records[r1],
            plan.direct_binds@[q1].addend as int,
        );
    let j2 = choose|j: int|
        0 <= j < out.len() && binds(
            layout.segments@,
            #[trigger] out[j],
            n,
            base + o2,
            records[r2],
            plan.direct_binds@[q2].addend as int,
        );
    lemma_distance(
        layout.segments@[n].vm_addr as int,
        out[j1].segment_offset as int,
        out[j2].segment_offset as int,
        base,
        o1,
        o2,
    );
}

proof fn lemma_distance(v: int, s1: int, s2: int, base: int, o1: int, o2: int)
    requires
        (v + s1) % 0x1_0000_0000_0000_0000 == (base + o1) % 0x1_0000_0000_0000_0000,
        (v + s2) % 0x1_0000_0000_0000_0000 == (base + o2) % 0x1_0000_0000_0000_0000,
    ensures
        (s1 - s2) % 0x1_0000_0000_0000_0000 == (o1 - o2) % 0x1_0000_0000_0000_0000,
{
    vstd::arithmetic::div_mod::lemma_sub_mod_noop(v + s1, v + s2, 0x1_0000_0000_0000_0000);
    vstd::arithmetic::div_mod::lemma_sub_mod_noop(base + o1, base + o2, 0x1_0000_0000_0000_0000);
}

proof fn lemma_slot_listed(
    place: RebaseSite,
    entries: Seq<SlotEntry>,
    records: Seq<ImportModel>,
    e: int,
)
    requires
        0 <= e < entries.len(),
        imports::import_of(records, entries[e].symbol) is Some,
    ensures
        bind::slot_binds(place, entries, records).contains(
            bind::bind_at(
                imports::import_of(records, entries[e].symbol)->0,
                rebase::slot(place, e),
                0,
            ),
        ),
    decreases entries.len(),
{
    let out = bind::slot_binds(place, entries, records);
    let front = entries.drop_last();
    let rest = bind::slot_binds(place, front, records);
    let record = bind::bind_at(
        imports::import_of(records, entries[e].symbol)->0,
        rebase::slot(place, e),
        0,
    );
    if e < front.len() {
        assert(front[e] == entries[e]);
        lemma_slot_listed(place, front, records, e);
        let j = choose|j: int| 0 <= j < rest.len() && rest[j] == record;
        assert(out[j] == record);
    } else {
        assert(out[out.len() - 1] == record);
    }
}

/// Each slot of the pointer table whose symbol is imported is bound to the import.
pub proof fn law_import_slot_is_bound(
    layout: Layout,
    plan: SyntheticPlan,
    records: Seq<ImportModel>,
    st: Bound,
    e: int,
    i: int,
    n: int,
    r: int,
)
    requires
        bind::bind_streams(layout, plan, records) is Ok,
        layout.segments@.len() <= 16,
        names_end(records),
        st.addend == 0,
        0 <= e < plan.got.entries@.len(),
        e < 0x1000_0000_0000_0000,
        only_named(layout.segments@, n, "__DATA_CONST"@),
        0 <= i < layout.sections@.len(),
        layout.sections@[i].segment@ == "__DATA_CONST"@,
        layout.sections@[i].name@ == "__got"@,
        forall|s: int|
            0 <= s < i ==> !((#[trigger] layout.sections@[s]).segment@ == "__DATA_CONST"@
                && layout.sections@[s].name@ == "__got"@),
        only_import(records, r, plan.got.entries@[e].symbol),
    ensures
        exists|j: int|
            0 <= j < bound_at_start(layout, plan, records, st).len() && binds(
                layout.segments@,
                #[trigger] bound_at_start(layout, plan, records, st)[j],
                n,
                layout.sections@[i].addr + 8 * e,
                records[r],
                0,
            ),
{
    let out = bound_at_start(layout, plan, records, st);
    let entries = plan.got.entries@;
    lemma_bound(layout, plan, records, st);
    lemma_only_named(layout.segments@, n, "__DATA_CONST"@);
    lemma_only_import(records, r, entries[e].symbol);
    layout::lemma_section_at(layout.sections@, "__DATA_CONST"@, "__got"@);
    assert(layout::is_section(layout.sections@[i], "__DATA_CONST"@, "__got"@));
    assert(layout::section_at(layout.sections@, "__DATA_CONST"@, "__got"@) == Some(i));
    let place = rebase::table_place(layout, "__DATA_CONST"@, "__got"@)->Ok_0;
    lemma_slot_listed(place, entries, records, e);
    let got = bind::got_binds(layout, plan, records)->Ok_0;
    let record = bind::bind_at(records[r], rebase::slot(place, e), 0);
    let d = choose|d: int| 0 <= d < got.len() && got[d] == record;
    let tlv = bind::tlv_binds(layout, plan, records)->Ok_0;
    let eager = bind::eager_binds(layout, plan, records)->Ok_0;
    let j = tlv.len() + d;
    assert(eager[j] == record);
    assert(out[j] == dyld_binds::wanted(record));
    assert((e as u64).wrapping_mul(8) == 8 * e);
    lemma_offset(layout.segments@[n].vm_addr, layout.sections@[i].addr, 0, (8 * e) as u64);
}

proof fn lemma_descriptor_listed(
    atoms: Seq<OutputAtom>,
    section: RebaseSite,
    import: ImportModel,
    k: int,
    d: int,
)
    requires
        0 <= k < atoms.len(),
        0 <= d,
        24 * d < atoms[k].size,
    ensures
        bind::all_descriptor_binds(atoms, section, import).contains(
            bind::bind_at(
                import,
                RebaseSite {
                    segment_offset: section.segment_offset.wrapping_add(
                        atoms[k].offset,
                    ).wrapping_add((24 * d) as u64),
                    ..section
                },
                0,
            ),
        ),
    decreases atoms.len(),
{
    let out = bind::all_descriptor_binds(atoms, section, import);
    let front = atoms.drop_last();
    let rest = bind::all_descriptor_binds(front, section, import);
    let more = bind::descriptor_binds(atoms.last(), section, import);
    let record = bind::bind_at(
        import,
        RebaseSite {
            segment_offset: section.segment_offset.wrapping_add(atoms[k].offset).wrapping_add(
                (24 * d) as u64,
            ),
            ..section
        },
        0,
    );
    if k < front.len() {
        assert(front[k] == atoms[k]);
        lemma_descriptor_listed(front, section, import, k, d);
        let j = choose|j: int| 0 <= j < rest.len() && rest[j] == record;
        assert(out[j] == record);
    } else {
        assert(more[d] == record);
        assert(out[rest.len() + d] == record);
    }
}

/// The first word of each descriptor of a thread-local variable is bound to the function
/// that sets the variable up.
pub proof fn law_descriptor_is_bound(
    layout: Layout,
    plan: SyntheticPlan,
    records: Seq<ImportModel>,
    st: Bound,
    i: int,
    k: int,
    d: int,
    n: int,
    r: int,
)
    requires
        bind::bind_streams(layout, plan, records) is Ok,
        layout.segments@.len() <= 16,
        names_end(records),
        st.addend == 0,
        plan.tlv_bootstrap_symbol is Some,
        only_import(records, r, plan.tlv_bootstrap_symbol->0),
        only_named(layout.segments@, n, "__DATA"@),
        0 <= i < layout.sections@.len(),
        layout.sections@[i].segment@ == "__DATA"@,
        layout.sections@[i].name@ == "__thread_vars"@,
        forall|s: int|
            0 <= s < i ==> !((#[trigger] layout.sections@[s]).segment@ == "__DATA"@
                && layout.sections@[s].name@ == "__thread_vars"@),
        0 <= k < layout.sections@[i].atoms@.len(),
        0 <= d,
        24 * d < layout.sections@[i].atoms@[k].size,
    ensures
        exists|j: int|
            0 <= j < bound_at_start(layout, plan, records, st).len() && binds(
                layout.segments@,
                #[trigger] bound_at_start(layout, plan, records, st)[j],
                n,
                layout.sections@[i].addr + layout.sections@[i].atoms@[k].offset + 24 * d,
                records[r],
                0,
            ),
{
    let out = bound_at_start(layout, plan, records, st);
    let id = plan.tlv_bootstrap_symbol->0;
    lemma_bound(layout, plan, records, st);
    lemma_only_named(layout.segments@, n, "__DATA"@);
    lemma_only_import(records, r, id);
    layout::lemma_section_at(layout.sections@, "__DATA"@, "__thread_vars"@);
    assert(layout::is_section(layout.sections@[i], "__DATA"@, "__thread_vars"@));
    assert(layout::section_at(layout.sections@, "__DATA"@, "__thread_vars"@) == Some(i));
    let base = layout.segments@[n].vm_addr;
    let section = RebaseSite {
        segment_index: n as u8,
        segment_offset: layout.sections@[i].addr.wrapping_sub(base),
    };
    let atoms = layout.sections@[i].atoms@;
    lemma_descriptor_listed(atoms, section, records[r], k, d);
    let record = bind::bind_at(
        records[r],
        RebaseSite {
            segment_offset: section.segment_offset.wrapping_add(atoms[k].offset).wrapping_add(
                (24 * d) as u64,
            ),
            ..section
        },
        0,
    );
    let tlv = bind::tlv_binds(layout, plan, records)->Ok_0;
    assert(tlv == bind::all_descriptor_binds(atoms, section, records[r]));
    let j = choose|j: int| 0 <= j < tlv.len() && tlv[j] == record;
    let eager = bind::eager_binds(layout, plan, records)->Ok_0;
    assert(eager[j] == record);
    assert(out[j] == dyld_binds::wanted(record));
    lemma_offset(base, layout.sections@[i].addr, atoms[k].offset, (24 * d) as u64);
}

} // verus!
