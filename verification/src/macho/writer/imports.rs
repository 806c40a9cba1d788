//! The symbols that an image takes from dylibs.

use std::collections::HashMap;
use vstd::prelude::*;
use crate::resolve::suggest;
use crate::resolve::table;
use crate::resolve::{Symbol, SymbolId, SymbolTable};
use crate::sorting;
use crate::sorting::{sort_distinct, stable_sort, Order};
use crate::synth::{DirectBind, SlotEntry, SyntheticPlan};
use crate::text;
use crate::text::is_text_less;

verus! {

broadcast use vstd::std_specs::hash::group_hash_axioms;

/// A symbol that a dylib provides.
#[derive(Debug, Clone)]
pub struct ImportSymbolRecord {
    pub symbol: SymbolId,
    pub name: String,
    pub ordinal: u16,
    pub weak_import: bool,
}

/// An `ImportSymbolRecord` with its name as a character sequence.
#[verifier::ext_equal]
pub struct ImportModel {
    pub symbol: SymbolId,
    pub name: Seq<char>,
    pub ordinal: u16,
    pub weak_import: bool,
}

impl View for ImportSymbolRecord {
    type V = ImportModel;

    open spec fn view(&self) -> ImportModel {
        ImportModel {
            symbol: self.symbol,
            name: self.name@,
            ordinal: self.ordinal,
            weak_import: self.weak_import,
        }
    }
}

pub open spec fn imports_view(records: Seq<ImportSymbolRecord>) -> Seq<ImportModel> {
    records.map_values(|r: ImportSymbolRecord| r@)
}

/// Symbols by their ids.
pub struct ById;

impl Order<SymbolId> for ById {
    open spec fn less(a: SymbolId, b: SymbolId) -> bool {
        a.0 < b.0
    }

    fn is_less(a: &SymbolId, b: &SymbolId) -> (r: bool) {
        a.0 < b.0
    }

    proof fn law_asymmetric(a: SymbolId, b: SymbolId) {
    }

    proof fn law_transitive(a: SymbolId, b: SymbolId, c: SymbolId) {
    }
}

/// Imports by their names.
pub struct ByName;

impl Order<ImportSymbolRecord> for ByName {
    open spec fn less(a: ImportSymbolRecord, b: ImportSymbolRecord) -> bool {
        text::text_less(a.name@, b.name@)
    }

    fn is_less(a: &ImportSymbolRecord, b: &ImportSymbolRecord) -> (r: bool) {
        is_text_less(a.name.as_str(), b.name.as_str())
    }

    proof fn law_asymmetric(a: ImportSymbolRecord, b: ImportSymbolRecord) {
        text::lemma_bytes_less_asymmetric(text::utf8(a.name@), text::utf8(b.name@));
    }

    proof fn law_transitive(a: ImportSymbolRecord, b: ImportSymbolRecord, c: ImportSymbolRecord) {
        text::lemma_bytes_less_transitive(
            text::utf8(a.name@),
            text::utf8(b.name@),
            text::utf8(c.name@),
        );
    }
}

pub open spec fn name_order() -> spec_fn(ImportModel, ImportModel) -> bool {
    |a: ImportModel, b: ImportModel| text::text_less(a.name, b.name)
}

/// The symbols of a table's slots.
pub open spec fn slot_symbols(entries: Seq<SlotEntry>) -> Seq<SymbolId> {
    entries.map_values(|e: SlotEntry| e.symbol)
}

pub open spec fn bind_symbols(binds: Seq<DirectBind>) -> Seq<SymbolId> {
    binds.map_values(|b: DirectBind| b.symbol)
}

/// Every symbol that the plan mentions, in the order of its tables.
pub open spec fn mentioned(plan: SyntheticPlan) -> Seq<SymbolId> {
    slot_symbols(plan.stubs.entries@) + slot_symbols(plan.got.entries@) + slot_symbols(
        plan.thread_pointers.entries@,
    ) + slot_symbols(plan.lazy_pointers.entries@) + bind_symbols(plan.direct_binds@)
        + match plan.tlv_bootstrap_symbol {
        Some(id) => seq![id],
        None => seq![],
    }
}

/// Those of the symbols that dylibs provide.
pub open spec fn imported(t: table::TableState, ids: Seq<SymbolId>) -> Seq<ImportModel>
    decreases ids.len(),
{
    if ids.len() == 0 {
        seq![]
    } else {
        let rest = imported(t, ids.drop_last());
        match t.at(ids.last()) {
            Symbol::DylibImport { name, ordinal, weak_import, .. } => rest.push(
                ImportModel {
                    symbol: ids.last(),
                    name: t.names[name.0 as int],
                    ordinal,
                    weak_import,
                },
            ),
            _ => rest,
        }
    }
}

/// The imports of an image, by name; those of one name by their ids.
pub open spec fn imports(t: table::TableState, plan: SyntheticPlan) -> Seq<ImportModel> {
    sorting::sorted_by(
        imported(t, sorting::distinct::<SymbolId, ById>(mentioned(plan))),
        name_order(),
    )
}

/// Every symbol that the plan mentions is in the table.
pub open spec fn plan_known(plan: SyntheticPlan, count: nat) -> bool {
    forall|i: int| 0 <= i < mentioned(plan).len() ==> (#[trigger] mentioned(plan)[i]).0 < count
}

fn push_slots(ids: &mut Vec<SymbolId>, entries: &Vec<SlotEntry>)
    ensures
        final(ids)@ == old(ids)@ + slot_symbols(entries@),
{
    let ghost before = ids@;
    let mut i: usize = 0;
    assert(ids@ =~= before + slot_symbols(entries@.take(0)));
    while i < entries.len()
        invariant
            i <= entries@.len(),
            ids@ == before + slot_symbols(entries@.take(i as int)),
        decreases entries@.len() - i,
    {
        ids.push(entries[i].symbol);
        assert(ids@ =~= before + slot_symbols(entries@.take(i + 1)));
        i += 1;
    }
    assert(entries@.take(i as int) =~= entries@);
}

fn push_binds(ids: &mut Vec<SymbolId>, binds: &Vec<DirectBind>)
    ensures
        final(ids)@ == old(ids)@ + bind_symbols(binds@),
{
    let ghost before = ids@;
    let mut i: usize = 0;
    assert(ids@ =~= before + bind_symbols(binds@.take(0)));
    while i < binds.len()
        invariant
            i <= binds@.len(),
            ids@ == before + bind_symbols(binds@.take(i as int)),
        decreases binds@.len() - i,
    {
        ids.push(binds[i].symbol);
        assert(ids@ =~= before + bind_symbols(binds@.take(i + 1)));
        i += 1;
    }
    assert(binds@.take(i as int) =~= binds@);
}

fn mentioned_symbols(plan: &SyntheticPlan) -> (r: Vec<SymbolId>)
    ensures
        r@ == mentioned(*plan),
{
    let mut ids: Vec<SymbolId> = Vec::new();
    push_slots(&mut ids, &plan.stubs.entries);
    push_slots(&mut ids, &plan.got.entries);
    push_slots(&mut ids, &plan.thread_pointers.entries);
    push_slots(&mut ids, &plan.lazy_pointers.entries);
    push_binds(&mut ids, &plan.direct_binds);
    if let Some(id) = plan.tlv_bootstrap_symbol {
        ids.push(id);
    }
    assert(ids@ =~= mentioned(*plan));
    ids
}

proof fn lemma_distinct_known(ids: Seq<SymbolId>, count: nat)
    requires
        forall|i: int| 0 <= i < ids.len() ==> (#[trigger] ids[i]).0 < count,
    ensures
        forall|i: int|
            0 <= i < sorting::distinct::<SymbolId, ById>(ids).len() ==> (
            #[trigger] sorting::distinct::<SymbolId, ById>(ids)[i]).0 < count,
{
    sorting::lemma_distinct_contained::<SymbolId, ById>(ids);
    let d = sorting::distinct::<SymbolId, ById>(ids);
    assert forall|i: int| 0 <= i < d.len() implies (#[trigger] d[i]).0 < count by {
        assert(ids.contains(d[i]));
        let k = choose|k: int| 0 <= k < ids.len() && ids[k] == d[i];
        assert(ids[k].0 < count);
    }
}

pub fn collect_imports(sym_table: &SymbolTable, synthetic_plan: &SyntheticPlan) -> (r: Vec<
    ImportSymbolRecord,
>)
    requires
        suggest::names_known(sym_table@),
        plan_known(*synthetic_plan, sym_table@.symbols.len()),
    ensures
        imports_view(r@) == imports(sym_table@, *synthetic_plan),
{
    let ghost all = mentioned(*synthetic_plan);
    let ids = sort_distinct::<SymbolId, ById>(mentioned_symbols(synthetic_plan));
    proof {
        lemma_distinct_known(all, sym_table@.symbols.len());
    }
    let mut out: Vec<ImportSymbolRecord> = Vec::new();
    let mut i: usize = 0;
    assert(imports_view(out@) =~= seq![]);
    while i < ids.len()
        invariant
            i <= ids@.len(),
            suggest::names_known(sym_table@),
            forall|k: int| 0 <= k < ids@.len() ==> (#[trigger] ids@[k]).0 < sym_table@.symbols.len(),
            imports_view(out@) == imported(sym_table@, ids@.take(i as int)),
        decreases ids@.len() - i,
    {
        let id = ids[i];
        let ghost before = out@;
        proof {
            assert(ids@.take(i + 1).drop_last() =~= ids@.take(i as int));
            assert(ids@[i as int].0 < sym_table@.symbols.len());
        }
        if let Symbol::DylibImport { name, ordinal, weak_import, .. } = sym_table.get(id) {
            assert(sym_table@.symbols[id.0 as int].spec_name() == *name);
            let record = ImportSymbolRecord {
                symbol: id,
                name: sym_table.name_str(*name).to_owned(),
                ordinal: *ordinal,
                weak_import: *weak_import,
            };
            out.push(record);
            assert(imports_view(out@) =~= imports_view(before).push(record@));
        }
        i += 1;
    }
    assert(ids@.take(i as int) =~= ids@);
    proof {
        let f = |r: ImportSymbolRecord| r@;
        sorting::lemma_sort_map::<ImportSymbolRecord, ImportModel, ByName>(out@, f, name_order());
    }
    stable_sort::<ImportSymbolRecord, ByName>(&mut out);
    out
}

/// The import of this symbol.
pub open spec fn import_of(records: Seq<ImportModel>, id: SymbolId) -> Option<ImportModel>
    decreases records.len(),
{
    if records.len() == 0 {
        None
    } else if records.last().symbol == id {
        Some(records.last())
    } else {
        import_of(records.drop_last(), id)
    }
}

/// Imports found by their symbols.
pub struct ImportLookup<'a> {
    records: &'a Vec<ImportSymbolRecord>,
    places: HashMap<u32, usize>,
}

impl<'a> View for ImportLookup<'a> {
    type V = Seq<ImportModel>;

    closed spec fn view(&self) -> Seq<ImportModel> {
        imports_view(self.records@)
    }
}

impl<'a> ImportLookup<'a> {
    pub closed spec fn wf(self) -> bool {
        forall|id: u32|
            #![trigger self.places@.contains_key(id)]
            if self.places@.contains_key(id) {
                self.places@[id] < self.records@.len() && import_of(self@, SymbolId(id)) == Some(
                    self.records@[self.places@[id] as int]@,
                )
            } else {
                import_of(self@, SymbolId(id)) is None
            }
    }

    pub fn new(records: &'a Vec<ImportSymbolRecord>) -> (r: ImportLookup<'a>)
        ensures
            r.wf(),
            r@ == imports_view(records@),
    {
        let ghost all = imports_view(records@);
        let mut places: HashMap<u32, usize> = HashMap::new();
        let mut i: usize = 0;
        while i < records.len()
            invariant
                i <= records@.len(),
                all == imports_view(records@),
                forall|id: u32|
                    #![trigger places@.contains_key(id)]
                    if places@.contains_key(id) {
                        places@[id] < i && import_of(all.take(i as int), SymbolId(id)) == Some(
                            records@[places@[id] as int]@,
                        )
                    } else {
                        import_of(all.take(i as int), SymbolId(id)) is None
                    },
            decreases records@.len() - i,
        {
            proof {
                assert(all.take(i + 1).drop_last() =~= all.take(i as int));
                assert(all.take(i + 1).last() == records@[i as int]@);
            }
            places.insert(records[i].symbol.0, i);
            i += 1;
        }
        assert(all.take(i as int) =~= all);
        ImportLookup { records, places }
    }

    pub fn get(&self, id: SymbolId) -> (r: Option<&'a ImportSymbolRecord>)
        requires
            self.wf(),
        ensures
            match r {
                Some(record) => import_of(self@, id) == Some(record@),
                None => import_of(self@, id) is None,
            },
    {
        assert(SymbolId(id.0) == id);
        assert(self.places@.contains_key(id.0) == (import_of(self@, SymbolId(id.0)) is Some));
        match self.places.get(&id.0) {
            Some(i) => Some(&self.records[*i]),
            None => None,
        }
    }
}

} // verus!
