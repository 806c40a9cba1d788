//! Writing final bytes into a whole layout.

use std::collections::HashMap;
use vstd::prelude::*;
use crate::atom::AtomTable;
use crate::layout;
use crate::layout::{Layout, LayoutInput};
use crate::reloc::arm64::apply;
use crate::reloc::arm64::apply::{
    apply_regular_atom_chunk, Contents, PlacedThunks, RegularRelocContext, RelocEnv,
};
use crate::reloc::arm64::fill;
use crate::reloc::arm64::fill::{
    synthesize_got_section, synthesize_lazy_pointer_section, synthesize_stub_helper_section,
    synthesize_stub_section,
};
use crate::reloc::arm64::islands;
use crate::reloc::arm64::islands::synthesize_thunk_section;
use crate::reloc::arm64::maps;
use crate::reloc::arm64::maps::{
    atom_address_map, input_section_address_map, synthetic_address_maps, InputMap,
};
use crate::reloc::arm64::targets;
use crate::reloc::arm64::targets::{ResolveView, Targets};
use crate::reloc::arm64::thunks;
use crate::reloc::arm64::thunks::{ThunkModel, ThunkPlan, THUNK_SIZE};
use crate::reloc::arm64::tlv;
use crate::reloc::arm64::tlv::synthesize_thread_variable_section;
use crate::reloc::arm64::{RelocError, RelocFault};
use crate::reloc::ParsedRelocCache;
use crate::resolve::SymbolTable;
use crate::section::OutputSection;
use crate::synth::{
    SyntheticPlan, STUB_HELPER_ENTRY_SIZE, STUB_HELPER_HEADER_SIZE, STUB_SIZE,
};

verus! {

/// Applies the relocations of every placed atom.
pub fn apply_regular_relocs(layout: &mut Layout, ctx: &RegularRelocContext<'_>) -> (r: Result<
    (),
    RelocError,
>)
    requires
        ctx.wf(),
        maps::atoms_known(old(layout).sections@, ctx@.targets.atoms),
    ensures
        apply::outcome(
            *old(layout),
            *final(layout),
            r,
            apply::regular_contents(ctx@, old(layout).sections@),
        ),
{
    let ghost before = layout.sections@;
    let ghost env = ctx@;
    let mut i: usize = 0;
    while i < layout.sections.len()
        invariant
            i <= layout.sections@.len(),
            ctx.wf(),
            env == ctx@,
            before == old(layout).sections@,
            maps::atoms_known(before, env.targets.atoms),
            layout.kind == old(layout).kind,
            layout.segments@ == old(layout).segments@,
            apply::same_shape(before, layout.sections@),
            apply::sections_fault(env, before.take(i as int)) is None,
            forall|k: int|
                0 <= k < i ==> apply::atoms_data((#[trigger] layout.sections@[k]).atoms@)
                    == apply::relocated_atoms(env, before[k].atoms@),
            forall|k: int|
                i <= k < layout.sections@.len() ==> #[trigger] layout.sections@[k] == before[k],
            forall|k: int|
                0 <= k < layout.sections@.len() ==> (
                #[trigger] layout.sections@[k]).synthetic_data@ == before[k].synthetic_data@,
        decreases layout.sections@.len() - i,
    {
        let ghost current = layout.sections@;
        proof {
            assert(before.take(i + 1).drop_last() =~= before.take(i as int));
            assert(before.take(i + 1).last() == before[i as int]);
            assert(layout.sections@[i as int] == before[i as int]);
            assert(maps::all_known(before[i as int].atoms@, env.targets.atoms));
        }
        let step = apply_regular_atom_chunk(&mut layout.sections[i].atoms, ctx);
        proof {
            let after = layout.sections@;
            assert(after =~= current.update(i as int, after[i as int]));
            assert forall|j: int| 0 <= j < before.len() implies apply::same_frame(
                #[trigger] before[j],
                #[trigger] after[j],
            ) by {
                assert(apply::same_frame(before[j], current[j]));
            }
        }
        if let Err(e) = step {
            proof {
                apply::lemma_sections_fault(env, before, i + 1);
            }
            return Err(e);
        }
        i += 1;
    }
    proof {
        assert(before.take(i as int) =~= before);
        let want = apply::regular_contents(env, before)->Ok_0;
        let done = apply::contents_of(layout.sections@);
        assert(done.atoms =~= want.atoms);
        assert(done.synthetic =~= want.synthetic);
    }
    Ok(())
}

/// What a layout's bytes are made from.
#[derive(Clone, Copy)]
pub struct ApplyLayoutPlan<'a> {
    pub synthetic_plan: Option<&'a SyntheticPlan>,
    pub thunk_plan: Option<&'a ThunkPlan>,
    /// Where in the lazy bind stream each symbol's record starts.
    pub lazy_bind_offsets: &'a HashMap<u32, u32>,
    pub icf_redirects: Option<&'a HashMap<u32, u32>>,
    pub parsed_relocs: &'a ParsedRelocCache,
}

/// The final addresses of a plan's thunks.
pub open spec fn thunks_of(plan: Option<&ThunkPlan>, sections: Seq<OutputSection>) -> PlacedThunks {
    match plan {
        Some(plan) => PlacedThunks {
            plan: Some(plan@),
            addrs: Some(
                Seq::new(plan@.entries.len(), |i: int| thunks::thunk_address(plan@, sections, i)),
            ),
        },
        None => PlacedThunks { plan: None, addrs: None },
    }
}

/// The environment of a layout's relocations.
pub open spec fn env_of<'a>(
    sections: Seq<OutputSection>,
    inputs: Seq<LayoutInput<'a>>,
    atoms: AtomTable,
    sym_table: SymbolTable,
    plan: ApplyLayoutPlan,
) -> RelocEnv<'a> {
    RelocEnv {
        inputs,
        targets: maps::targets_of(
            sections,
            atoms@,
            sym_table@,
            plan.synthetic_plan,
            targets::redirect_map(plan.icf_redirects),
        ),
        thunks: thunks_of(plan.thunk_plan, sections),
        relocs: plan.parsed_relocs@,
    }
}

/// The contents after the thunks are written, if there are any.
pub open spec fn after_thunks(
    t: Targets,
    plan: Option<&ThunkPlan>,
    sections: Seq<OutputSection>,
    c: Contents,
) -> Result<Contents, RelocFault> {
    match plan {
        Some(plan) => islands::thunk_contents(t, plan@, sections, c),
        None => Ok(c),
    }
}

/// The contents after the linker's own tables are written.
pub open spec fn after_tables(
    t: Targets,
    plan: SyntheticPlan,
    lazy_bind_offsets: Map<u32, u32>,
    sections: Seq<OutputSection>,
    c: Contents,
) -> Result<Contents, RelocFault> {
    match fill::got_contents(t, sections, plan, c) {
        Err(e) => Err(e),
        Ok(c) => match fill::stub_contents(t, sections, plan, c) {
            Err(e) => Err(e),
            Ok(c) => match fill::lazy_contents(t, sections, plan, c) {
                Err(e) => Err(e),
                Ok(c) => fill::helper_contents(t, sections, plan, lazy_bind_offsets, c),
            },
        },
    }
}

/// The final contents of a layout: the relocated input, then the thunks, then the
/// thread-local descriptors, then the linker's own tables. The first error ends it.
pub open spec fn final_contents<'a>(
    sections: Seq<OutputSection>,
    env: RelocEnv<'a>,
    plan: ApplyLayoutPlan,
) -> Result<Contents, RelocFault> {
    match apply::regular_contents(env, sections) {
        Err(e) => Err(e),
        Ok(c) => match after_thunks(env.targets, plan.thunk_plan, sections, c) {
            Err(e) => Err(e),
            Ok(c) => match plan.synthetic_plan {
                None => Ok(c),
                Some(synthetic) => match tlv::tlv_contents(
                    env.targets,
                    env.inputs,
                    env.relocs,
                    sections,
                    *synthetic,
                    c,
                ) {
                    Err(e) => Err(e),
                    Ok(c) => after_tables(
                        env.targets,
                        *synthetic,
                        plan.lazy_bind_offsets@,
                        sections,
                        c,
                    ),
                },
            },
        },
    }
}

/// The sections of the image have room for the tables of the plan, and the plan's
/// symbols are known.
pub open spec fn plan_fits(sections: Seq<OutputSection>, plan: SyntheticPlan, symbols: nat) -> bool {
    &&& fill::symbols_known(plan.got.entries@, symbols)
    &&& fill::has_room(
        sections,
        "__DATA_CONST"@,
        "__got"@,
        plan.got.entries@.len() * 8 as int,
    )
    &&& fill::has_room(
        sections,
        "__TEXT"@,
        "__stubs"@,
        plan.stubs.entries@.len() * STUB_SIZE,
    )
    &&& fill::has_room(
        sections,
        "__DATA"@,
        "__la_symbol_ptr"@,
        plan.lazy_pointers.entries@.len() * 8 as int,
    )
    &&& plan.binder_symbol is Some ==> fill::has_room(
        sections,
        "__TEXT"@,
        "__stub_helper"@,
        STUB_HELPER_HEADER_SIZE + plan.lazy_pointers.entries@.len() * STUB_HELPER_ENTRY_SIZE,
    )
}

/// A thunk plan can be carried out.
pub open spec fn thunks_fit(plan: Option<&ThunkPlan>, symbols: nat) -> bool {
    match plan {
        Some(plan) => plan@.wf() && plan@.symbols_known(symbols) && plan@.entries.len() * THUNK_SIZE
            <= usize::MAX,
        None => true,
    }
}

/// Nothing but sections called `name` has other bytes of the linker's in them.
pub open spec fn kept_but(
    sections: Seq<OutputSection>,
    name: Seq<char>,
    before: Contents,
    after: Contents,
) -> bool {
    &&& after.synthetic.len() == before.synthetic.len()
    &&& forall|i: int|
        0 <= i < sections.len() && (#[trigger] sections[i]).name@ != name ==> after.synthetic[i]
            == before.synthetic[i]
}

proof fn lemma_sized_keeps(m: ThunkModel, sections: Seq<OutputSection>, c: Contents, n: nat)
    requires
        c.synthetic.len() == sections.len(),
        islands::sized(m, sections, c, n) is Ok,
    ensures
        kept_but(sections, "__thunks"@, c, islands::sized(m, sections, c, n)->Ok_0),
    decreases n,
{
    if n > 0 {
        lemma_sized_keeps(m, sections, c, (n - 1) as nat);
        thunks::lemma_thunk_section(sections, m.islands[n - 1].0, m.islands[n - 1].1);
    }
}

proof fn lemma_thunked_keeps(
    t: Targets,
    m: ThunkModel,
    sections: Seq<OutputSection>,
    c: Contents,
    n: nat,
)
    requires
        c.synthetic.len() == sections.len(),
        islands::thunked(t, m, sections, c, n) is Ok,
    ensures
        kept_but(sections, "__thunks"@, c, islands::thunked(t, m, sections, c, n)->Ok_0),
    decreases n,
{
    if n > 0 {
        reveal(islands::with_thunk);
        lemma_thunked_keeps(t, m, sections, c, (n - 1) as nat);
        let island = m.islands[m.entries[n - 1].island as int];
        thunks::lemma_thunk_section(sections, island.0, island.1);
    }
}

proof fn lemma_thunks_keep(
    t: Targets,
    plan: Option<&ThunkPlan>,
    sections: Seq<OutputSection>,
    c: Contents,
)
    requires
        c.synthetic.len() == sections.len(),
        after_thunks(t, plan, sections, c) is Ok,
    ensures
        kept_but(sections, "__thunks"@, c, after_thunks(t, plan, sections, c)->Ok_0),
{
    if let Some(plan) = plan {
        let m = plan@;
        lemma_sized_keeps(m, sections, c, m.islands.len());
        let b = islands::sized(m, sections, c, m.islands.len())->Ok_0;
        lemma_thunked_keeps(t, m, sections, b, m.entries.len());
    }
}

proof fn lemma_names_differ()
    ensures
        "__thunks"@.len() == 8,
        "__got"@.len() == 5,
        "__stubs"@.len() == 7,
        "__la_symbol_ptr"@.len() == 15,
        "__stub_helper"@.len() == 13,
{
    reveal_strlit("__thunks");
    reveal_strlit("__got");
    reveal_strlit("__stubs");
    reveal_strlit("__la_symbol_ptr");
    reveal_strlit("__stub_helper");
}

/// Room stays where only other sections change.
proof fn lemma_room_kept(
    base: Seq<OutputSection>,
    now: Seq<OutputSection>,
    changed: Seq<char>,
    segment: Seq<char>,
    name: Seq<char>,
    need: int,
    before: Seq<OutputSection>,
)
    requires
        apply::same_shape(base, before),
        apply::same_shape(base, now),
        kept_but(base, changed, apply::contents_of(before), apply::contents_of(now)),
        fill::has_room(before, segment, name, need),
        changed != name,
    ensures
        fill::has_room(now, segment, name, need),
{
    apply::lemma_section_at_shape(base, before, segment, name);
    apply::lemma_section_at_shape(base, now, segment, name);
    layout::lemma_section_at(base, segment, name);
    if let Some(i) = layout::section_at(base, segment, name) {
        assert(apply::same_frame(base[i], before[i]));
        assert(apply::same_frame(base[i], now[i]));
        assert(base[i].name@ != changed);
        assert(apply::contents_of(now).synthetic[i] == now[i].synthetic_data@);
        assert(apply::contents_of(before).synthetic[i] == before[i].synthetic_data@);
    }
}

proof fn lemma_sized_shape(
    m: ThunkModel,
    a: Seq<OutputSection>,
    b: Seq<OutputSection>,
    c: Contents,
    n: nat,
)
    requires
        apply::same_shape(a, b),
    ensures
        islands::sized(m, a, c, n) == islands::sized(m, b, c, n),
    decreases n,
{
    if n > 0 {
        lemma_sized_shape(m, a, b, c, (n - 1) as nat);
        apply::lemma_thunk_section_shape(a, b, m.islands[n - 1].0, m.islands[n - 1].1);
    }
}

proof fn lemma_thunked_shape(
    t: Targets,
    m: ThunkModel,
    a: Seq<OutputSection>,
    b: Seq<OutputSection>,
    c: Contents,
    n: nat,
)
    requires
        apply::same_shape(a, b),
    ensures
        islands::thunked(t, m, a, c, n) == islands::thunked(t, m, b, c, n),
    decreases n,
{
    if n > 0 {
        reveal(islands::with_thunk);
        lemma_thunked_shape(t, m, a, b, c, (n - 1) as nat);
        let island = m.islands[m.entries[n - 1].island as int];
        apply::lemma_thunk_section_shape(a, b, island.0, island.1);
        thunks::lemma_thunk_section(a, island.0, island.1);
        if let Some(i) = islands::island_place(m, a, m.entries[n - 1].island as int) {
            assert(apply::same_frame(a[i], b[i]));
        }
    }
}

proof fn lemma_after_thunks_shape(
    t: Targets,
    plan: Option<&ThunkPlan>,
    a: Seq<OutputSection>,
    b: Seq<OutputSection>,
    c: Contents,
)
    requires
        apply::same_shape(a, b),
    ensures
        after_thunks(t, plan, a, c) == after_thunks(t, plan, b, c),
{
    if let Some(plan) = plan {
        let m = plan@;
        lemma_sized_shape(m, a, b, c, m.islands.len());
        if let Ok(d) = islands::sized(m, a, c, m.islands.len()) {
            lemma_thunked_shape(t, m, a, b, d, m.entries.len());
        }
    }
}

proof fn lemma_tables_shape(
    t: Targets,
    plan: SyntheticPlan,
    offsets: Map<u32, u32>,
    a: Seq<OutputSection>,
    b: Seq<OutputSection>,
    c: Contents,
)
    requires
        apply::same_shape(a, b),
    ensures
        fill::got_contents(t, a, plan, c) == fill::got_contents(t, b, plan, c),
        fill::stub_contents(t, a, plan, c) == fill::stub_contents(t, b, plan, c),
        fill::lazy_contents(t, a, plan, c) == fill::lazy_contents(t, b, plan, c),
        fill::helper_contents(t, a, plan, offsets, c) == fill::helper_contents(
            t,
            b,
            plan,
            offsets,
            c,
        ),
{
    apply::lemma_section_at_shape(a, b, "__DATA_CONST"@, "__got"@);
    apply::lemma_section_at_shape(a, b, "__TEXT"@, "__stubs"@);
    apply::lemma_section_at_shape(a, b, "__DATA"@, "__la_symbol_ptr"@);
    apply::lemma_section_at_shape(a, b, "__TEXT"@, "__stub_helper"@);
    layout::lemma_section_at(a, "__TEXT"@, "__stubs"@);
    if let Some(i) = layout::section_at(a, "__TEXT"@, "__stubs"@) {
        assert(apply::same_frame(a[i], b[i]));
    }
}

/// A rewritten section is the only one with other bytes.
proof fn lemma_rewritten_keeps(
    sections: Seq<OutputSection>,
    segment: Seq<char>,
    name: Seq<char>,
    c: Contents,
    s: Result<Seq<u8>, RelocFault>,
)
    requires
        c.synthetic.len() == sections.len(),
        fill::rewritten(c, layout::section_at(sections, segment, name), s) is Ok,
    ensures
        kept_but(
            sections,
            name,
            c,
            fill::rewritten(c, layout::section_at(sections, segment, name), s)->Ok_0,
        ),
{
    layout::lemma_section_at(sections, segment, name);
}

fn write_tables(
    layout: &mut Layout,
    plan: &SyntheticPlan,
    lazy_bind_offsets: &HashMap<u32, u32>,
    v: &ResolveView<'_>,
) -> (r: Result<(), RelocError>)
    requires
        v.wf(),
        plan_fits(old(layout).sections@, *plan, v@.symbols.symbols.len()),
    ensures
        apply::outcome(
            *old(layout),
            *final(layout),
            r,
            after_tables(
                v@,
                *plan,
                lazy_bind_offsets@,
                old(layout).sections@,
                apply::contents_of(old(layout).sections@),
            ),
        ),
{
    let ghost t = v@;
    let ghost s0 = layout.sections@;
    let ghost c0 = apply::contents_of(s0);
    proof {
        lemma_names_differ();
        assert(apply::same_shape(s0, s0));
    }
    let got = synthesize_got_section(layout, plan, v);
    let ghost s1 = layout.sections@;
    if got.is_err() {
        return got;
    }
    let ghost c1 = apply::contents_of(s1);
    proof {
        let place = layout::section_at(s0, "__DATA_CONST"@, "__got"@);
        let want = fill::filled(
            c0.synthetic[place->0],
            plan.got.entries@.len(),
            0,
            8,
            fill::got_slots(t, plan.got.entries@),
        );
        lemma_rewritten_keeps(s0, "__DATA_CONST"@, "__got"@, c0, want);
        let helper_need = STUB_HELPER_HEADER_SIZE + plan.lazy_pointers.entries@.len()
            * STUB_HELPER_ENTRY_SIZE;
        lemma_room_kept(
            s0,
            s1,
            "__got"@,
            "__TEXT"@,
            "__stubs"@,
            plan.stubs.entries@.len() * STUB_SIZE,
            s0,
        );
        lemma_room_kept(
            s0,
            s1,
            "__got"@,
            "__DATA"@,
            "__la_symbol_ptr"@,
            plan.lazy_pointers.entries@.len() * 8 as int,
            s0,
        );
        if plan.binder_symbol is Some {
            lemma_room_kept(s0, s1, "__got"@, "__TEXT"@, "__stub_helper"@, helper_need, s0);
        }
        lemma_tables_shape(t, *plan, lazy_bind_offsets@, s0, s1, c1);
    }
    let stubs = synthesize_stub_section(layout, plan, v);
    let ghost s2 = layout.sections@;
    proof {
        apply::lemma_same_shape_transitive(s0, s1, s2);
    }
    if stubs.is_err() {
        return stubs;
    }
    let ghost c2 = apply::contents_of(s2);
    proof {
        let place = layout::section_at(s0, "__TEXT"@, "__stubs"@);
        let want = fill::filled(
            c1.synthetic[place->0],
            plan.stubs.entries@.len(),
            0,
            12,
            fill::stub_parts(t, s0[place->0].addr, plan.stubs.entries@),
        );
        lemma_rewritten_keeps(s0, "__TEXT"@, "__stubs"@, c1, want);
        let helper_need = STUB_HELPER_HEADER_SIZE + plan.lazy_pointers.entries@.len()
            * STUB_HELPER_ENTRY_SIZE;
        lemma_room_kept(
            s0,
            s2,
            "__stubs"@,
            "__DATA"@,
            "__la_symbol_ptr"@,
            plan.lazy_pointers.entries@.len() * 8 as int,
            s1,
        );
        if plan.binder_symbol is Some {
            lemma_room_kept(s0, s2, "__stubs"@, "__TEXT"@, "__stub_helper"@, helper_need, s1);
        }
        lemma_tables_shape(t, *plan, lazy_bind_offsets@, s0, s2, c2);
    }
    let lazy = synthesize_lazy_pointer_section(layout, plan, v);
    let ghost s3 = layout.sections@;
    proof {
        apply::lemma_same_shape_transitive(s0, s2, s3);
    }
    if lazy.is_err() {
        return lazy;
    }
    let ghost c3 = apply::contents_of(s3);
    proof {
        let place = layout::section_at(s0, "__DATA"@, "__la_symbol_ptr"@);
        let want = fill::filled(
            c2.synthetic[place->0],
            plan.lazy_pointers.entries@.len(),
            0,
            8,
            fill::lazy_parts(t, plan.lazy_pointers.entries@),
        );
        lemma_rewritten_keeps(s0, "__DATA"@, "__la_symbol_ptr"@, c2, want);
        let helper_need = STUB_HELPER_HEADER_SIZE + plan.lazy_pointers.entries@.len()
            * STUB_HELPER_ENTRY_SIZE;
        if plan.binder_symbol is Some {
            lemma_room_kept(
                s0,
                s3,
                "__la_symbol_ptr"@,
                "__TEXT"@,
                "__stub_helper"@,
                helper_need,
                s2,
            );
        }
        lemma_tables_shape(t, *plan, lazy_bind_offsets@, s0, s3, c3);
    }
    let helper = synthesize_stub_helper_section(layout, plan, v, lazy_bind_offsets);
    proof {
        apply::lemma_same_shape_transitive(s0, s3, layout.sections@);
    }
    helper
}

/// Writes the final bytes of every section: relocates the input, and writes the thunks
/// and tables of the plan.
pub fn apply_layout(
    layout: &mut Layout,
    inputs: &[LayoutInput<'_>],
    atoms: &AtomTable,
    sym_table: &SymbolTable,
    plan: ApplyLayoutPlan<'_>,
) -> (r: Result<(), RelocError>)
    requires
        atoms.wf(),
        sym_table.wf(),
        maps::atoms_known(old(layout).sections@, atoms@),
        targets::redirections_end(targets::redirect_map(plan.icf_redirects)),
        thunks_fit(plan.thunk_plan, sym_table@.symbols.len()),
        match plan.synthetic_plan {
            Some(synthetic) => plan_fits(
                old(layout).sections@,
                *synthetic,
                sym_table@.symbols.len(),
            ),
            None => true,
        },
    ensures
        apply::outcome(
            *old(layout),
            *final(layout),
            r,
            final_contents(
                old(layout).sections@,
                env_of(old(layout).sections@, inputs@, *atoms, *sym_table, plan),
                plan,
            ),
        ),
{
    let ghost s0 = layout.sections@;
    let ghost env = env_of(s0, inputs@, *atoms, *sym_table, plan);
    let input_map = InputMap::new(inputs);
    let atom_addrs = atom_address_map(layout);
    let atoms_by_input_section = atoms.by_input_section();
    let section_addrs = input_section_address_map(layout, atoms);
    let synth_addrs = synthetic_address_maps(layout, plan.synthetic_plan);
    let v = ResolveView {
        sym_table,
        atom_table: atoms,
        atoms_by_input_section: &atoms_by_input_section,
        atom_addrs: &atom_addrs,
        section_addrs: &section_addrs,
        stub_addrs: &synth_addrs.stub_addrs,
        got_addrs: &synth_addrs.got_addrs,
        thread_pointer_addrs: &synth_addrs.thread_pointer_addrs,
        lazy_pointer_addrs: &synth_addrs.lazy_pointer_addrs,
        stub_helper_entry_addrs: &synth_addrs.stub_helper_entry_addrs,
        stub_helper_header_addr: synth_addrs.stub_helper_header_addr,
        dyld_private_addr: synth_addrs.dyld_private_addr,
        icf_redirects: plan.icf_redirects,
    };
    assert(v@ =~= env.targets);
    let thunk_addrs: Option<Vec<Option<u64>>> = match plan.thunk_plan {
        Some(thunk_plan) => Some(thunk_plan.thunk_addrs(layout)),
        None => None,
    };
    let ctx = RegularRelocContext {
        input_map: &input_map,
        resolve: &v,
        thunk_plan: plan.thunk_plan,
        thunk_addrs: thunk_addrs.as_ref(),
        parsed_relocs: plan.parsed_relocs,
    };
    assert(ctx@.thunks =~= env.thunks);
    assert(ctx@ == env);
    let regular = apply_regular_relocs(layout, &ctx);
    let ghost s1 = layout.sections@;
    if regular.is_err() {
        return regular;
    }
    let ghost c1 = apply::contents_of(s1);
    proof {
        lemma_after_thunks_shape(env.targets, plan.thunk_plan, s0, s1, c1);
    }
    if let Some(thunk_plan) = plan.thunk_plan {
        let thunked = synthesize_thunk_section(layout, thunk_plan, &v);
        proof {
            apply::lemma_same_shape_transitive(s0, s1, layout.sections@);
        }
        if thunked.is_err() {
            return thunked;
        }
    }
    let ghost s2 = layout.sections@;
    let ghost c2 = apply::contents_of(s2);
    assert(after_thunks(env.targets, plan.thunk_plan, s0, c1) == Ok::<_, RelocFault>(c2));
    let synthetic_plan = match plan.synthetic_plan {
        Some(synthetic_plan) => synthetic_plan,
        None => {
            return Ok(());
        },
    };
    proof {
        lemma_thunks_keep(env.targets, plan.thunk_plan, s0, c1);
        lemma_known_shape(s0, s2, atoms@);
        tlv::lemma_tlv_contents_shape(
            env.targets,
            env.inputs,
            env.relocs,
            s0,
            s2,
            *synthetic_plan,
            c2,
        );
    }
    let tls = synthesize_thread_variable_section(
        layout,
        synthetic_plan,
        &input_map,
        plan.parsed_relocs,
        &v,
    );
    let ghost s3 = layout.sections@;
    proof {
        apply::lemma_same_shape_transitive(s0, s2, s3);
    }
    if tls.is_err() {
        return tls;
    }
    let ghost c3 = apply::contents_of(s3);
    proof {
        assert(c3.synthetic == c2.synthetic);
        assert(c1.synthetic == apply::contents_of(s0).synthetic);
        assert(kept_but(s0, "__thunks"@, apply::contents_of(s0), c3));
        lemma_plan_still_fits(s0, s3, *synthetic_plan, sym_table@.symbols.len());
        lemma_after_tables_shape(
            env.targets,
            *synthetic_plan,
            plan.lazy_bind_offsets@,
            s0,
            s3,
            c3,
        );
    }
    let tables = write_tables(layout, synthetic_plan, plan.lazy_bind_offsets, &v);
    proof {
        apply::lemma_same_shape_transitive(s0, s3, layout.sections@);
    }
    tables
}

proof fn lemma_known_shape(
    a: Seq<OutputSection>,
    b: Seq<OutputSection>,
    atoms: Seq<crate::atom::Atom>,
)
    requires
        apply::same_shape(a, b),
        maps::atoms_known(a, atoms),
    ensures
        maps::atoms_known(b, atoms),
{
    assert forall|i: int| 0 <= i < b.len() implies maps::all_known(
        (#[trigger] b[i]).atoms@,
        atoms,
    ) by {
        assert(apply::same_frame(a[i], b[i]));
        assert(maps::all_known(a[i].atoms@, atoms));
        assert forall|k: int| 0 <= k < b[i].atoms@.len() implies 1 <= (
        #[trigger] b[i].atoms@[k]).atom.0 <= atoms.len() by {
            assert(apply::same_place(a[i].atoms@[k], b[i].atoms@[k]));
        }
    }
}

proof fn lemma_plan_still_fits(
    s0: Seq<OutputSection>,
    s3: Seq<OutputSection>,
    plan: SyntheticPlan,
    symbols: nat,
)
    requires
        plan_fits(s0, plan, symbols),
        apply::same_shape(s0, s3),
        kept_but(s0, "__thunks"@, apply::contents_of(s0), apply::contents_of(s3)),
    ensures
        plan_fits(s3, plan, symbols),
{
    lemma_names_differ();
    assert(apply::same_shape(s0, s0));
    let need = plan.lazy_pointers.entries@.len() * 8 as int;
    lemma_room_kept(
        s0,
        s3,
        "__thunks"@,
        "__DATA_CONST"@,
        "__got"@,
        plan.got.entries@.len() * 8 as int,
        s0,
    );
    lemma_room_kept(
        s0,
        s3,
        "__thunks"@,
        "__TEXT"@,
        "__stubs"@,
        plan.stubs.entries@.len() * STUB_SIZE,
        s0,
    );
    lemma_room_kept(s0, s3, "__thunks"@, "__DATA"@, "__la_symbol_ptr"@, need, s0);
    if plan.binder_symbol is Some {
        let helper_need = STUB_HELPER_HEADER_SIZE + plan.lazy_pointers.entries@.len()
            * STUB_HELPER_ENTRY_SIZE;
        lemma_room_kept(s0, s3, "__thunks"@, "__TEXT"@, "__stub_helper"@, helper_need, s0);
    }
}

proof fn lemma_after_tables_shape(
    t: Targets,
    plan: SyntheticPlan,
    offsets: Map<u32, u32>,
    a: Seq<OutputSection>,
    b: Seq<OutputSection>,
    c: Contents,
)
    requires
        apply::same_shape(a, b),
    ensures
        after_tables(t, plan, offsets, a, c) == after_tables(t, plan, offsets, b, c),
{
    lemma_tables_shape(t, plan, offsets, a, b, c);
    if let Ok(c1) = fill::got_contents(t, a, plan, c) {
        lemma_tables_shape(t, plan, offsets, a, b, c1);
        if let Ok(c2) = fill::stub_contents(t, a, plan, c1) {
            lemma_tables_shape(t, plan, offsets, a, b, c2);
            if let Ok(c3) = fill::lazy_contents(t, a, plan, c2) {
                lemma_tables_shape(t, plan, offsets, a, b, c3);
            }
        }
    }
}

} // verus!
