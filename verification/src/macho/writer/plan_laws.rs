//! Which symbols an image imports, and how its tables find them.

use vstd::prelude::*;
use crate::bytes;
use crate::dyld_binds;
use crate::dyld_binds::Bound;
use crate::layout;
use crate::layout::Layout;
use crate::macho::writer::bind;
use crate::macho::writer::bind_laws;
use crate::macho::writer::imports;
use crate::macho::writer::imports::{ById, ImportModel};
use crate::macho::writer::plan;
use crate::macho::writer::rebase;
use crate::resolve::table;
use crate::resolve::SymbolId;
use crate::section::OutputSection;
use crate::sorting;
use crate::synth::{SlotEntry, SyntheticPlan};

verus! {

/// The plan has a stub, a slot, a pointer or a bind for the symbol.
pub open spec fn mentions(p: SyntheticPlan, id: SymbolId) -> bool {
    ||| exists|e: int| 0 <= e < p.stubs.entries@.len() && #[trigger] p.stubs.entries@[e].symbol == id
    ||| exists|e: int| 0 <= e < p.got.entries@.len() && #[trigger] p.got.entries@[e].symbol == id
    ||| exists|e: int|
        0 <= e < p.thread_pointers.entries@.len() && #[trigger] p.thread_pointers.entries@[e].symbol
            == id
    ||| exists|e: int|
        0 <= e < p.lazy_pointers.entries@.len() && #[trigger] p.lazy_pointers.entries@[e].symbol
            == id
    ||| exists|e: int|
        0 <= e < p.direct_binds@.len() && #[trigger] p.direct_binds@[e].symbol == id
    ||| p.tlv_bootstrap_symbol == Some(id)
}

proof fn lemma_concat(a: Seq<SymbolId>, b: Seq<SymbolId>, id: SymbolId)
    ensures
        (a + b).contains(id) <==> a.contains(id) || b.contains(id),
{
    if a.contains(id) {
        let j = choose|j: int| 0 <= j < a.len() && a[j] == id;
        assert((a + b)[j] == id);
    }
    if b.contains(id) {
        let j = choose|j: int| 0 <= j < b.len() && b[j] == id;
        assert((a + b)[a.len() + j] == id);
    }
    if (a + b).contains(id) {
        let j = choose|j: int| 0 <= j < (a + b).len() && (a + b)[j] == id;
        if j < a.len() {
            assert(a[j] == id);
        } else {
            assert(b[j - a.len()] == id);
        }
    }
}

proof fn lemma_slots(entries: Seq<SlotEntry>, id: SymbolId)
    ensures
        imports::slot_symbols(entries).contains(id) <==> exists|e: int|
            0 <= e < entries.len() && #[trigger] entries[e].symbol == id,
{
    let s = imports::slot_symbols(entries);
    if s.contains(id) {
        let e = choose|e: int| 0 <= e < s.len() && s[e] == id;
        assert(entries[e].symbol == id);
    }
    if exists|e: int| 0 <= e < entries.len() && #[trigger] entries[e].symbol == id {
        let e = choose|e: int| 0 <= e < entries.len() && #[trigger] entries[e].symbol == id;
        assert(s[e] == id);
    }
}

proof fn lemma_mentioned(p: SyntheticPlan, id: SymbolId)
    ensures
        imports::mentioned(p).contains(id) <==> mentions(p, id),
{
    let a = imports::slot_symbols(p.stubs.entries@);
    let b = imports::slot_symbols(p.got.entries@);
    let c = imports::slot_symbols(p.thread_pointers.entries@);
    let d = imports::slot_symbols(p.lazy_pointers.entries@);
    let e = imports::bind_symbols(p.direct_binds@);
    let f: Seq<SymbolId> = match p.tlv_bootstrap_symbol {
        Some(id) => seq![id],
        None => seq![],
    };
    lemma_slots(p.stubs.entries@, id);
    lemma_slots(p.got.entries@, id);
    lemma_slots(p.thread_pointers.entries@, id);
    lemma_slots(p.lazy_pointers.entries@, id);
    lemma_concat(a, b, id);
    lemma_concat(a + b, c, id);
    lemma_concat(a + b + c, d, id);
    lemma_concat(a + b + c + d, e, id);
    lemma_concat(a + b + c + d + e, f, id);
    if e.contains(id) {
        let x = choose|x: int| 0 <= x < e.len() && e[x] == id;
        assert(p.direct_binds@[x].symbol == id);
    }
    if exists|x: int| 0 <= x < p.direct_binds@.len() && #[trigger] p.direct_binds@[x].symbol == id {
        let x = choose|x: int|
            0 <= x < p.direct_binds@.len() && #[trigger] p.direct_binds@[x].symbol == id;
        assert(e[x] == id);
    }
    if p.tlv_bootstrap_symbol == Some(id) {
        assert(f[0] == id);
    }
}

proof fn lemma_imported(t: table::TableState, ids: Seq<SymbolId>)
    ensures
        forall|r: ImportModel| #[trigger]
            imports::imported(t, ids).contains(r) ==> ids.contains(r.symbol) && is_import(t, r),
        forall|id: SymbolId| #[trigger]
            ids.contains(id) && t.at(id) is DylibImport ==> exists|r: int|
                0 <= r < imports::imported(t, ids).len() && (#[trigger] imports::imported(
                    t,
                    ids,
                )[r]).symbol == id,
    decreases ids.len(),
{
    let out = imports::imported(t, ids);
    if ids.len() > 0 {
        let front = ids.drop_last();
        let rest = imports::imported(t, front);
        lemma_imported(t, front);
        assert(ids[ids.len() - 1] == ids.last());
        assert forall|r: ImportModel| #[trigger] out.contains(r) implies ids.contains(r.symbol)
            && is_import(t, r) by {
            let j = choose|j: int| 0 <= j < out.len() && out[j] == r;
            if j < rest.len() {
                assert(rest[j] == r);
                assert(rest.contains(r));
                let x = choose|x: int| 0 <= x < front.len() && front[x] == r.symbol;
                assert(ids[x] == r.symbol);
            }
        }
        assert forall|id: SymbolId| #[trigger] ids.contains(id) && t.at(id) is DylibImport implies
            exists|r: int| 0 <= r < out.len() && (#[trigger] out[r]).symbol == id by {
            let x = choose|x: int| 0 <= x < ids.len() && ids[x] == id;
            if x < front.len() {
                assert(front[x] == id);
                assert(front.contains(id));
                let r = choose|r: int| 0 <= r < rest.len() && (#[trigger] rest[r]).symbol == id;
                assert(out[r].symbol == id);
            } else {
                assert(out[out.len() - 1].symbol == id);
            }
        }
    }
}

/// The record says of its symbol what the symbol table says.
pub open spec fn is_import(t: table::TableState, r: ImportModel) -> bool {
    let symbol = t.at(r.symbol);
    &&& symbol is DylibImport
    &&& r.name == t.names[symbol->DylibImport_name.0 as int]
    &&& r.ordinal == symbol->ordinal
    &&& r.weak_import == symbol->weak_import
}

/// An image imports exactly what its plan mentions and a dylib provides, each under its
/// name, from its dylib, and as weakly as the symbol table has it.
pub proof fn law_imports_are_what_is_used(t: table::TableState, p: SyntheticPlan, id: SymbolId)
    ensures
        (exists|r: int|
            0 <= r < imports::imports(t, p).len() && (#[trigger] imports::imports(t, p)[r]).symbol
                == id) <==> mentions(p, id) && t.at(id) is DylibImport,
        forall|r: int|
            0 <= r < imports::imports(t, p).len() ==> is_import(
                t,
                #[trigger] imports::imports(t, p)[r],
            ),
{
    let ids = sorting::distinct::<SymbolId, ById>(imports::mentioned(p));
    let found = imports::imported(t, ids);
    let out = imports::imports(t, p);
    lemma_mentioned(p, id);
    assert forall|a: SymbolId, b: SymbolId|
        !<ById as sorting::Order<SymbolId>>::less(a, b) && !(
        #[trigger] <ById as sorting::Order<SymbolId>>::less(b, a)) implies a == b by {}
    sorting::law_distinct_keeps_all::<SymbolId, ById>(imports::mentioned(p));
    assert(ids.contains(id) <==> imports::mentioned(p).contains(id));
    lemma_imported(t, ids);
    sorting::lemma_sorted_by_keeps(found, imports::name_order());
    assert forall|r: int| 0 <= r < out.len() implies is_import(t, #[trigger] out[r]) by {
        assert(found.contains(out[r]));
    }
    if exists|r: int| 0 <= r < out.len() && (#[trigger] out[r]).symbol == id {
        let r = choose|r: int| 0 <= r < out.len() && (#[trigger] out[r]).symbol == id;
        assert(found.contains(out[r]));
        assert(ids.contains(out[r].symbol));
        assert(is_import(t, out[r]));
    }
    if mentions(p, id) && t.at(id) is DylibImport {
        assert(ids.contains(id));
        let r = choose|r: int| 0 <= r < found.len() && (#[trigger] found[r]).symbol == id;
        assert(found.contains(found[r]));
        assert(out.contains(found[r]));
        let j = choose|j: int| 0 <= j < out.len() && out[j] == found[r];
        assert(out[j].symbol == id);
    }
}

proof fn lemma_words(s: Seq<u32>, i: int)
    requires
        0 <= i < s.len(),
    ensures
        plan::words(s).len() == 4 * s.len(),
        plan::words(s).subrange(4 * i, 4 * i + 4) == bytes::le32_bytes(s[i]),
    decreases s.len(),
{
    let front = s.drop_last();
    if i < front.len() {
        lemma_words(front, i);
        assert(front[i] == s[i]);
        assert(plan::words(s).subrange(4 * i, 4 * i + 4) =~= plan::words(front).subrange(
            4 * i,
            4 * i + 4,
        ));
    } else {
        lemma_words_len(front);
        assert(plan::words(s).subrange(4 * i, 4 * i + 4) =~= bytes::le32_bytes(s[i]));
    }
}

proof fn lemma_words_len(s: Seq<u32>)
    ensures
        plan::words(s).len() == 4 * s.len(),
    decreases s.len(),
{
    if s.len() > 0 {
        lemma_words_len(s.drop_last());
    }
}

/// The entry of the indirect symbol table that belongs to a slot: the index of the slot's
/// symbol where a dylib provides it, else the mark of a local one.
pub open spec fn belongs(
    word: u32,
    id: SymbolId,
    records: Seq<ImportModel>,
    indices: Map<u32, u32>,
) -> bool {
    let used = indices.contains_key(id.0) && exists|r: int|
        0 <= r < records.len() && (#[trigger] records[r]).symbol == id;
    &&& used ==> word == indices[id.0]
    &&& !used ==> word == 0x8000_0000
}

proof fn lemma_import_of(records: Seq<ImportModel>, id: SymbolId)
    ensures
        imports::import_of(records, id) is Some <==> exists|r: int|
            0 <= r < records.len() && (#[trigger] records[r]).symbol == id,
    decreases records.len(),
{
    if records.len() > 0 {
        let front = records.drop_last();
        lemma_import_of(front, id);
        if exists|r: int| 0 <= r < records.len() && (#[trigger] records[r]).symbol == id {
            let r = choose|r: int| 0 <= r < records.len() && (#[trigger] records[r]).symbol == id;
            if r < front.len() {
                assert(front[r].symbol == id);
            }
        }
        if records.last().symbol == id {
            assert(records[records.len() - 1].symbol == id);
        } else if imports::import_of(front, id) is Some {
            let r = choose|r: int| 0 <= r < front.len() && (#[trigger] front[r]).symbol == id;
            assert(records[r].symbol == id);
        }
    }
}

proof fn lemma_entry(
    p: SyntheticPlan,
    records: Seq<ImportModel>,
    indices: Map<u32, u32>,
    i: int,
    id: SymbolId,
)
    requires
        0 <= i < plan::indirect_symbols(p, records, indices).len(),
        plan::indirect_symbols(p, records, indices)[i] == plan::indirect_index(
            id,
            records,
            indices,
        ),
    ensures
        belongs(
            bytes::le32(plan::words(plan::indirect_symbols(p, records, indices)), 4 * i),
            id,
            records,
            indices,
        ),
{
    let all = plan::indirect_symbols(p, records, indices);
    lemma_words(all, i);
    bytes::lemma_le32_of_bytes(plan::words(all), 4 * i, all[i]);
    lemma_import_of(records, id);
}

/// The indirect symbol table has an entry for each stub, each slot of the pointer table and
/// each lazy pointer: the section's first one is where its header says, and each belongs to
/// the symbol of its stub, slot or pointer.
pub proof fn law_indirect_entries_belong(
    layout: Layout,
    p: SyntheticPlan,
    records: Seq<ImportModel>,
    indices: Map<u32, u32>,
    section: OutputSection,
    e: int,
)
    requires
        0 <= e,
        p.stubs.entries@.len() + p.got.entries@.len() + p.lazy_pointers.entries@.len() <= u32::MAX,
    ensures
        ({
            let words = plan::words(plan::indirect_symbols(p, records, indices));
            let start = plan::with_start(plan::indirect_starts(p), section).reserved1;
            &&& section.segment@ == "__TEXT"@ && section.name@ == "__stubs"@ && e
                < p.stubs.entries@.len() ==> belongs(
                bytes::le32(words, 4 * (start + e)),
                p.stubs.entries@[e].symbol,
                records,
                indices,
            )
            &&& section.segment@ == "__DATA_CONST"@ && section.name@ == "__got"@ && e
                < p.got.entries@.len() ==> belongs(
                bytes::le32(words, 4 * (start + e)),
                p.got.entries@[e].symbol,
                records,
                indices,
            )
            &&& section.segment@ == "__DATA"@ && section.name@ == "__la_symbol_ptr"@ && e
                < p.lazy_pointers.entries@.len() ==> belongs(
                bytes::le32(words, 4 * (start + e)),
                p.lazy_pointers.entries@[e].symbol,
                records,
                indices,
            )
        }),
{
    reveal_strlit("__TEXT");
    reveal_strlit("__DATA");
    reveal_strlit("__DATA_CONST");
    assert("__TEXT"@.len() == 6);
    assert("__DATA"@.len() == 6);
    assert("__DATA_CONST"@.len() == 12);
    assert("__TEXT"@[2] == 'T');
    assert("__DATA"@[2] == 'D');
    let a = p.stubs.entries@.len();
    let b = p.got.entries@.len();
    let all = plan::indirect_symbols(p, records, indices);
    if section.segment@ == "__TEXT"@ && section.name@ == "__stubs"@ && e < a {
        assert(all[e] == plan::indirect_index(p.stubs.entries@[e].symbol, records, indices));
        lemma_entry(p, records, indices, e, p.stubs.entries@[e].symbol);
    }
    if section.segment@ == "__DATA_CONST"@ && section.name@ == "__got"@ && e < b {
        assert(all[a + e] == plan::indirect_index(p.got.entries@[e].symbol, records, indices));
        lemma_entry(p, records, indices, a + e, p.got.entries@[e].symbol);
    }
    if section.segment@ == "__DATA"@ && section.name@ == "__la_symbol_ptr"@ && e
        < p.lazy_pointers.entries@.len() {
        assert(all[a + b + e] == plan::indirect_index(
            p.lazy_pointers.entries@[e].symbol,
            records,
            indices,
        ));
        lemma_entry(p, records, indices, a + b + e, p.lazy_pointers.entries@[e].symbol);
    }
}

/// On first use of a lazy pointer dyld reads its symbol's record, from the place that the
/// stub helper hands over, and binds that pointer to the import.
pub proof fn law_lazy_record_binds_its_pointer(
    layout: Layout,
    p: SyntheticPlan,
    records: Seq<ImportModel>,
    st: Bound,
    e: int,
    i: int,
    n: int,
    r: int,
)
    requires
        bind::lazy_stream(layout, p, records) is Ok,
        (bind::lazy_stream(layout, p, records)->Ok_0).stream.len() <= u32::MAX,
        layout.segments@.len() <= 16,
        bind_laws::names_end(records),
        st.addend == 0,
        0 <= e < p.lazy_pointers.entries@.len(),
        e < 0x1000_0000_0000_0000,
        forall|k: int|
            e < k < p.lazy_pointers.entries@.len() ==> (
            #[trigger] p.lazy_pointers.entries@[k]).symbol != p.lazy_pointers.entries@[e].symbol,
        bind_laws::only_named(layout.segments@, n, "__DATA"@),
        0 <= i < layout.sections@.len(),
        layout.sections@[i].segment@ == "__DATA"@,
        layout.sections@[i].name@ == "__la_symbol_ptr"@,
        forall|s: int|
            0 <= s < i ==> !((#[trigger] layout.sections@[s]).segment@ == "__DATA"@
                && layout.sections@[s].name@ == "__la_symbol_ptr"@),
        bind_laws::only_import(records, r, p.lazy_pointers.entries@[e].symbol),
    ensures
        ({
            let lazy = bind::lazy_stream(layout, p, records)->Ok_0;
            let id = p.lazy_pointers.entries@[e].symbol.0;
            let out = dyld_binds::bound(lazy.stream.skip(lazy.offsets[id] as int), st);
            &&& lazy.offsets.contains_key(id)
            &&& lazy.offsets[id] <= lazy.stream.len()
            &&& out.len() == 1
            &&& bind_laws::binds(
                layout.segments@,
                out[0],
                n,
                layout.sections@[i].addr + 8 * e,
                records[r],
                0,
            )
        }),
{
    let entries = p.lazy_pointers.entries@;
    let id = entries[e].symbol;
    layout::lemma_segment_at(layout.segments@, "__DATA"@);
    layout::lemma_section_at(layout.sections@, "__DATA"@, "__la_symbol_ptr"@);
    assert(layout::is_section(layout.sections@[i], "__DATA"@, "__la_symbol_ptr"@));
    assert(layout::section_at(layout.sections@, "__DATA"@, "__la_symbol_ptr"@) == Some(i));
    assert(layout::segment_at(layout.segments@, "__DATA"@) == Some(n));
    let place = rebase::table_place(layout, "__DATA"@, "__la_symbol_ptr"@)->Ok_0;
    bind_laws::lemma_only_import(records, r, id);
    bind::law_lazy_offset_leads_to_record(place, entries, records, e);
    let lazy = bind::lazy_stream(layout, p, records)->Ok_0;
    let part = bind::lazy_part(place, e, records[r]);
    let at = lazy.offsets[id.0] as int;
    let tail = lazy.stream.skip(at);
    let rest = tail.skip(part.len() as int);
    assert(tail =~= part + rest) by {
        assert(lazy.stream.subrange(at, at + part.len()) == part);
        assert(tail.take(part.len() as int) =~= part);
    }
    let site = rebase::slot(place, e);
    dyld_binds::law_lazy_record_binds_one(
        site.segment_index,
        site.segment_offset,
        records[r].ordinal,
        records[r].name,
        records[r].weak_import,
        rest,
        st,
    );
    assert((e as u64).wrapping_mul(8) == 8 * e);
    lemma_slot(layout.segments@[n].vm_addr, layout.sections@[i].addr, (8 * e) as u64);
}

proof fn lemma_slot(base: u64, section: u64, offset: u64)
    ensures
        (base + section.wrapping_sub(base).wrapping_add(offset)) % 0x1_0000_0000_0000_0000 == (
        section + offset) % 0x1_0000_0000_0000_0000,
{
}

} // verus!
