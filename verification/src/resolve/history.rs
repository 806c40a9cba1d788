//! What every run of operations on a symbol table keeps.

use vstd::prelude::*;
use crate::resolve::names::{AtomId, SymbolId};
use crate::resolve::table;
use crate::resolve::table::{Symbol, TableState};
use crate::resolve::unresolved;
use crate::resolve::unresolved::UndefinedTreatment;

verus! {

/// One call that changes a table.
#[verifier::ext_equal]
pub enum Step {
    Intern(Seq<char>),
    Insert(Symbol),
    Bind { id: SymbolId, atom: AtomId, value: u64 },
    Classify(UndefinedTreatment),
}

/// The table after a call.
pub open spec fn stepped(t: TableState, step: Step) -> TableState {
    match step {
        Step::Intern(name) => t.after_intern(name),
        Step::Insert(sym) => t.after_insert(sym),
        Step::Bind { id, atom, value } => t.after_bind(id, atom, value),
        Step::Classify(treatment) => unresolved::classified(t, t.symbols.len(), treatment).table,
    }
}

/// The table after a run of calls on a new one.
pub open spec fn built(steps: Seq<Step>) -> TableState
    decreases steps.len(),
{
    if steps.len() == 0 {
        TableState::empty()
    } else {
        stepped(built(steps.drop_last()), steps.last())
    }
}

/// Every call was in order: a place is given to a slot that exists, and ids do not run
/// out.
pub open spec fn in_order(steps: Seq<Step>) -> bool
    decreases steps.len(),
{
    steps.len() > 0 ==> {
        let t = built(steps.drop_last());
        &&& in_order(steps.drop_last())
        &&& match steps.last() {
            Step::Insert(_) => t.symbols.len() < u32::MAX,
            Step::Bind { id, .. } => id.0 < t.symbols.len(),
            _ => true,
        }
    }
}

/// Classifying what is undefined keeps names and slots one to one.
pub proof fn law_classify_keeps_coherent(t: TableState, treatment: UndefinedTreatment)
    requires
        table::coherent(t),
    ensures
        table::coherent(stepped(t, Step::Classify(treatment))),
        table::slots_kept(t, stepped(t, Step::Classify(treatment))),
        stepped(t, Step::Classify(treatment)).symbols.len() == t.symbols.len(),
{
    let next = stepped(t, Step::Classify(treatment));
    unresolved::law_only_strong_undefined_change(t, treatment);
    unresolved::lemma_classified_keeps_names(t, t.symbols.len(), treatment);
    assert(table::slots_kept(t, next));
    table::lemma_renamed_none(t, next);
}

/// However a table was built, every slot is found under its own name, no two slots
/// share one, and ids count the slots.
pub proof fn law_built_table_is_coherent(steps: Seq<Step>)
    requires
        in_order(steps),
    ensures
        table::coherent(built(steps)),
    decreases steps.len(),
{
    if steps.len() > 0 {
        let t = built(steps.drop_last());
        law_built_table_is_coherent(steps.drop_last());
        match steps.last() {
            Step::Intern(name) => {
                table::lemma_renamed_none(t, t.after_intern(name));
            },
            Step::Insert(sym) => table::law_insert_keeps_coherent(t, sym),
            Step::Bind { id, atom, value } => table::law_bind_keeps_coherent(t, id, atom, value),
            Step::Classify(treatment) => law_classify_keeps_coherent(t, treatment),
        }
    }
}

/// A slot never goes away and never changes its name, whatever is called later.
pub proof fn law_ids_keep_their_names(steps: Seq<Step>, n: int)
    requires
        in_order(steps),
        0 <= n <= steps.len(),
    ensures
        table::slots_kept(built(steps.take(n)), built(steps)),
    decreases steps.len() - n,
{
    if n == steps.len() {
        assert(steps.take(n) =~= steps);
    } else {
        lemma_order_of_part(steps, n + 1);
        lemma_order_of_part(steps, n);
        let part = steps.take(n + 1);
        assert(part.drop_last() =~= steps.take(n));
        let t = built(steps.take(n));
        law_built_table_is_coherent(steps.take(n));
        match part.last() {
            Step::Intern(name) => {},
            Step::Insert(sym) => table::law_insert_keeps_coherent(t, sym),
            Step::Bind { id, atom, value } => table::law_bind_keeps_coherent(t, id, atom, value),
            Step::Classify(treatment) => law_classify_keeps_coherent(t, treatment),
        }
        let next = built(part);
        assert(table::slots_kept(t, next));
        law_ids_keep_their_names(steps, n + 1);
        let end = built(steps);
        assert forall|i: int| 0 <= i < t.symbols.len() implies (
        #[trigger] end.symbols[i]).spec_name() == t.symbols[i].spec_name() by {
            assert(next.symbols[i].spec_name() == t.symbols[i].spec_name());
        }
    }
}

proof fn lemma_order_of_part(steps: Seq<Step>, n: int)
    requires
        in_order(steps),
        0 <= n <= steps.len(),
    ensures
        in_order(steps.take(n)),
    decreases steps.len(),
{
    if n < steps.len() {
        lemma_order_of_part(steps.drop_last(), n);
        assert(steps.drop_last().take(n) =~= steps.take(n));
    } else {
        assert(steps.take(n) =~= steps);
    }
}

} // verus!
