//! Writing the thunks of a plan into their islands.

use vstd::prelude::*;
use crate::bytes;
use crate::bytes::{overwrite, push_zeros};
use crate::layout::Layout;
use crate::reloc::arm64::apply;
use crate::reloc::arm64::apply::Contents;
use crate::reloc::arm64::encode;
use crate::reloc::arm64::encode::encode_thunk;
use crate::reloc::arm64::fill;
use crate::reloc::arm64::fill::made_error;
use crate::reloc::arm64::targets;
use crate::reloc::arm64::targets::{
    canonical_atom, find_addr, resolve_input_section_offset_simple, BranchTargetKey, ResolveView,
    Targets,
};
use crate::reloc::arm64::thunks;
use crate::reloc::arm64::thunks::{
    find_thunk_section_index, ThunkEntry, ThunkIsland, ThunkModel, ThunkPlan, THUNK_SIZE,
};
use crate::reloc::arm64::{RelocError, RelocFault};
use crate::reloc::RelocKind;
use crate::resolve::Symbol;
use crate::section::OutputSection;
use crate::text;
use crate::text::dec_string;

verus! {

/// `s` cut or filled up with zeros to `len` bytes.
pub open spec fn resized(s: Seq<u8>, len: int) -> Seq<u8> {
    if len <= s.len() {
        s.take(len)
    } else {
        s + bytes::zeros(len - s.len())
    }
}

fn resize(data: &mut Vec<u8>, len: usize)
    ensures
        final(data)@ == resized(old(data)@, len as int),
{
    if len <= data.len() {
        data.truncate(len);
        assert(data@ =~= resized(old(data)@, len as int));
    } else {
        let n: usize = len - data.len();
        push_zeros(data, n);
    }
}

/// Where the thunks of an island go.
pub open spec fn island_place(m: ThunkModel, sections: Seq<OutputSection>, k: int) -> Option<int> {
    thunks::thunk_section(sections, m.islands[k].0, m.islands[k].1)
}

/// The error of an island without a section.
pub open spec fn missing_island(m: ThunkModel, k: int, at: int) -> RelocFault {
    fill::made_fault(
        "<synthetic thunks>"@,
        (at as u32).wrapping_mul(12),
        RelocKind::Branch26,
        "thunk section"@,
        "missing thunk section for island after "@ + m.islands[k].0 + ","@ + text::dec(
            m.islands[k].1.0 as nat,
        ),
    )
}

fn missing_island_error(island: &ThunkIsland, at: usize, Ghost(m): Ghost<ThunkModel>, Ghost(
    k,
): Ghost<int>) -> (r: RelocError)
    requires
        m.islands[k] == (island.segment@, island.after_atom),
    ensures
        r@ == missing_island(m, k, at as int),
{
    let mut detail = "missing thunk section for island after ".to_owned();
    detail.append(island.segment.as_str());
    detail.append(",");
    detail.append(dec_string(island.after_atom.0 as u64).as_str());
    made_error(
        "<synthetic thunks>",
        (at as u32).wrapping_mul(12),
        RelocKind::Branch26,
        "thunk section".to_owned(),
        detail.as_str(),
    )
}

/// The contents with the first `n` islands made just large enough for their thunks.
pub open spec fn sized(m: ThunkModel, sections: Seq<OutputSection>, c: Contents, n: nat) -> Result<
    Contents,
    RelocFault,
>
    decreases n,
{
    if n == 0 {
        Ok(c)
    } else {
        match sized(m, sections, c, (n - 1) as nat) {
            Err(e) => Err(e),
            Ok(b) => match island_place(m, sections, n - 1) {
                None => Err(missing_island(m, n - 1, n - 1)),
                Some(i) => Ok(
                    fill::with_synthetic(
                        b,
                        i,
                        resized(
                            b.synthetic[i],
                            thunks::entry_count(m.entries, (n - 1) as usize) * THUNK_SIZE,
                        ),
                    ),
                ),
            },
        }
    }
}

/// Where a thunk goes.
pub open spec fn thunk_target(t: Targets, key: BranchTargetKey) -> Option<u64> {
    match key {
        BranchTargetKey::Symbol(id) => match t.symbols.at(id) {
            Symbol::Defined { atom, value, .. } => match t.atom_addr(
                targets::canonical(t.redirects, atom),
            ) {
                Some(addr) => Some(addr.wrapping_add(value)),
                None => None,
            },
            _ => None,
        },
        BranchTargetKey::Stub(id) => targets::lookup(t.stub_addrs, id.0),
        BranchTargetKey::InputSectionOffset { origin, input_section, input_offset } =>
            match targets::place_of_offset(t, origin, input_section, input_offset) {
            targets::Place::At(addr) => Some(addr),
            _ => None,
        },
    }
}

fn resolve_thunk_target(v: &ResolveView<'_>, key: BranchTargetKey) -> (r: Option<u64>)
    requires
        v.wf(),
        key matches BranchTargetKey::Symbol(id) ==> id.0 < v@.symbols.symbols.len(),
    ensures
        r == thunk_target(v@, key),
{
    match key {
        BranchTargetKey::Symbol(id) => match v.sym_table.get(id) {
            Symbol::Defined { atom, value, .. } => match find_addr(
                v.atom_addrs,
                canonical_atom(*atom, v.icf_redirects).0,
            ) {
                Some(addr) => Some(addr.wrapping_add(*value)),
                None => None,
            },
            _ => None,
        },
        BranchTargetKey::Stub(id) => find_addr(v.stub_addrs, id.0),
        BranchTargetKey::InputSectionOffset { origin, input_section, input_offset } =>
            resolve_input_section_offset_simple(origin, input_section, input_offset, v),
    }
}

/// The code of one thunk whose island stands at `base`.
pub open spec fn thunk_code(t: Targets, m: ThunkModel, base: u64, index: int) -> Result<
    Seq<u8>,
    RelocFault,
> {
    let entry = m.entries[index];
    match thunk_target(t, entry.target) {
        None => Err(
            fill::made_fault(
                "<synthetic thunks>"@,
                (index as u32).wrapping_mul(12),
                RelocKind::Branch26,
                "thunk target"@,
                "missing final target address"@,
            ),
        ),
        Some(target) => encode::thunk(
            base.wrapping_add((entry.slot_in_island as u64).wrapping_mul(THUNK_SIZE)),
            target,
        ),
    }
}

/// The contents with the first `n` thunks written.
pub open spec fn thunked(
    t: Targets,
    m: ThunkModel,
    sections: Seq<OutputSection>,
    c: Contents,
    n: nat,
) -> Result<Contents, RelocFault>
    decreases n,
{
    if n == 0 {
        Ok(c)
    } else {
        match thunked(t, m, sections, c, (n - 1) as nat) {
            Err(e) => Err(e),
            Ok(b) => with_thunk(t, m, sections, b, n - 1),
        }
    }
}

/// The contents with every thunk of the plan written.
pub open spec fn thunk_contents(
    t: Targets,
    m: ThunkModel,
    sections: Seq<OutputSection>,
    c: Contents,
) -> Result<Contents, RelocFault> {
    match sized(m, sections, c, m.islands.len()) {
        Err(e) => Err(e),
        Ok(b) => thunked(t, m, sections, b, m.entries.len()),
    }
}

proof fn lemma_sized_fault(
    m: ThunkModel,
    sections: Seq<OutputSection>,
    c: Contents,
    n: nat,
    all: nat,
)
    requires
        n <= all,
        sized(m, sections, c, n) is Err,
    ensures
        sized(m, sections, c, all) == sized(m, sections, c, n),
    decreases all - n,
{
    if n < all {
        lemma_sized_fault(m, sections, c, n + 1, all);
    }
}

proof fn lemma_thunked_fault(
    t: Targets,
    m: ThunkModel,
    sections: Seq<OutputSection>,
    c: Contents,
    n: nat,
    all: nat,
)
    requires
        n <= all,
        thunked(t, m, sections, c, n) is Err,
    ensures
        thunked(t, m, sections, c, all) == thunked(t, m, sections, c, n),
    decreases all - n,
{
    if n < all {
        lemma_thunked_fault(t, m, sections, c, n + 1, all);
    }
}

/// Two islands have two sections.
pub proof fn lemma_places_differ(m: ThunkModel, sections: Seq<OutputSection>, j: int, k: int)
    requires
        m.wf(),
        0 <= j < m.islands.len(),
        0 <= k < m.islands.len(),
        j != k,
        island_place(m, sections, j) is Some,
        island_place(m, sections, k) is Some,
    ensures
        island_place(m, sections, j) != island_place(m, sections, k),
{
    thunks::lemma_thunk_section(sections, m.islands[j].0, m.islands[j].1);
    thunks::lemma_thunk_section(sections, m.islands[k].0, m.islands[k].1);
    if j < k {
        assert(m.islands[j].1 != m.islands[k].1);
    } else {
        assert(m.islands[k].1 != m.islands[j].1);
    }
}

pub proof fn lemma_slot_counted(entries: Seq<ThunkEntry>, i: int, n: int)
    requires
        0 <= i < n <= entries.len(),
    ensures
        thunks::entry_count(entries.take(i), entries[i].island) + 1 <= thunks::entry_count(
            entries.take(n),
            entries[i].island,
        ),
    decreases n,
{
    assert(entries.take(n).drop_last() =~= entries.take(n - 1));
    if i < n - 1 {
        lemma_slot_counted(entries, i, n - 1);
    }
}

/// The first `n` islands are in the image, each just large enough for its thunks.
#[verifier::opaque]
pub open spec fn islands_sized(
    m: ThunkModel,
    sections: Seq<OutputSection>,
    c: Contents,
    n: int,
) -> bool {
    forall|k: int|
        #![trigger m.islands[k]]
        0 <= k < n ==> match island_place(m, sections, k) {
            Some(i) => 0 <= i < c.synthetic.len() && c.synthetic[i].len() == thunks::entry_count(
                m.entries,
                k as usize,
            ) * THUNK_SIZE,
            None => false,
        }
}

fn size_islands(layout: &mut Layout, plan: &ThunkPlan) -> (r: Result<(), RelocError>)
    requires
        plan@.wf(),
        plan@.entries.len() * THUNK_SIZE <= usize::MAX,
    ensures
        apply::outcome(
            *old(layout),
            *final(layout),
            r,
            sized(
                plan@,
                old(layout).sections@,
                apply::contents_of(old(layout).sections@),
                plan@.islands.len(),
            ),
        ),
        r is Ok ==> islands_sized(
            plan@,
            old(layout).sections@,
            apply::contents_of(final(layout).sections@),
            plan@.islands.len() as int,
        ),
{
    let ghost before = layout.sections@;
    let ghost c0 = apply::contents_of(before);
    let ghost m = plan@;
    let mut k: usize = 0;
    proof {
        reveal(islands_sized);
    }
    while k < plan.islands.len()
        invariant
            k <= plan.islands@.len(),
            m == plan@,
            m.wf(),
            m.entries.len() * THUNK_SIZE <= usize::MAX,
            before == old(layout).sections@,
            c0 == apply::contents_of(before),
            layout.kind == old(layout).kind,
            layout.segments@ == old(layout).segments@,
            apply::same_shape(before, layout.sections@),
            sized(m, before, c0, k as nat) == Ok::<_, RelocFault>(
                apply::contents_of(layout.sections@),
            ),
            islands_sized(m, before, apply::contents_of(layout.sections@), k as int),
        decreases plan.islands@.len() - k,
    {
        let island = &plan.islands[k];
        let ghost current = layout.sections@;
        let ghost c = apply::contents_of(current);
        proof {
            assert(m.islands[k as int] == (island.segment@, island.after_atom));
            apply::lemma_thunk_section_shape(before, current, island.segment@, island.after_atom);
            reveal(islands_sized);
            thunks::lemma_entry_count(m.entries, k);
            assert(thunks::entry_count(m.entries, k) * THUNK_SIZE <= m.entries.len() * THUNK_SIZE)
                by (nonlinear_arith)
                requires
                    thunks::entry_count(m.entries, k) <= m.entries.len(),
            ;
        }
        let i: usize = match find_thunk_section_index(layout, island) {
            Some(i) => i,
            None => {
                proof {
                    lemma_sized_fault(m, before, c0, (k + 1) as nat, m.islands.len());
                }
                return Err(missing_island_error(island, k, Ghost(m), Ghost(k as int)));
            },
        };
        let len: usize = plan.entries_in(k) * 12;
        resize(&mut layout.sections[i].synthetic_data, len);
        proof {
            let after = layout.sections@;
            let s = after[i as int].synthetic_data@;
            fill::lemma_synthetic_written(current, after, i as int, s);
            apply::lemma_same_shape_transitive(before, current, after);
            assert(s == resized(c.synthetic[i as int], len as int));
            let c2 = apply::contents_of(after);
            assert(c2 == fill::with_synthetic(c, i as int, s));
            assert forall|j: int| #![trigger m.islands[j]] 0 <= j < k + 1 implies match island_place(
                m,
                before,
                j,
            ) {
                Some(p) => 0 <= p < c2.synthetic.len() && c2.synthetic[p].len()
                    == thunks::entry_count(m.entries, j as usize) * THUNK_SIZE,
                None => false,
            } by {
                if j < k {
                    assert(m.islands[j] == m.islands[j]);
                    lemma_places_differ(m, before, j, k as int);
                }
            }
        }
        k += 1;
    }
    Ok(())
}

/// The contents with one more thunk written.
#[verifier::opaque]
pub open spec fn with_thunk(
    t: Targets,
    m: ThunkModel,
    sections: Seq<OutputSection>,
    b: Contents,
    n: int,
) -> Result<Contents, RelocFault> {
    let entry = m.entries[n];
    match island_place(m, sections, entry.island as int) {
        None => Err(missing_island(m, entry.island as int, n)),
        Some(i) => match thunk_code(t, m, sections[i].addr, n) {
            Err(e) => Err(e),
            Ok(code) => Ok(
                fill::with_synthetic(
                    b,
                    i,
                    bytes::replaced(b.synthetic[i], entry.slot_in_island * THUNK_SIZE, code),
                ),
            ),
        },
    }
}

proof fn lemma_sizes_kept(
    m: ThunkModel,
    base: Seq<OutputSection>,
    before: Contents,
    after: Contents,
    i: int,
    s: Seq<u8>,
)
    requires
        islands_sized(m, base, before, m.islands.len() as int),
        0 <= i < before.synthetic.len(),
        after == fill::with_synthetic(before, i, s),
        s.len() == before.synthetic[i].len(),
    ensures
        islands_sized(m, base, after, m.islands.len() as int),
{
    reveal(islands_sized);
    assert forall|j: int| #![trigger m.islands[j]] 0 <= j < m.islands.len() implies match island_place(
        m,
        base,
        j,
    ) {
        Some(p) => 0 <= p < after.synthetic.len() && after.synthetic[p].len()
            == thunks::entry_count(m.entries, j as usize) * THUNK_SIZE,
        None => false,
    } by {
        assert(m.islands[j] == m.islands[j]);
    }
}

/// The code of the thunk with this index.
fn make_thunk(plan: &ThunkPlan, v: &ResolveView<'_>, n: usize, addr: u64) -> (r: Result<
    Vec<u8>,
    RelocError,
>)
    requires
        v.wf(),
        n < plan@.entries.len(),
        plan@.symbols_known(v@.symbols.symbols.len()),
    ensures
        encode::same_bytes_outcome(r, thunk_code(v@, plan@, addr, n as int)),
        r is Ok ==> r->Ok_0@.len() == 12,
{
    let entry = plan.entries[n];
    assert(plan@.entries[n as int] == entry);
    let target: u64 = match resolve_thunk_target(v, entry.target) {
        Some(target) => target,
        None => {
            return Err(
                made_error(
                    "<synthetic thunks>",
                    (n as u32).wrapping_mul(12),
                    RelocKind::Branch26,
                    "thunk target".to_owned(),
                    "missing final target address",
                ),
            );
        },
    };
    encode_thunk(
        addr.wrapping_add((entry.slot_in_island as u64).wrapping_mul(THUNK_SIZE)),
        target,
    )
}

#[verifier::spinoff_prover]
#[verifier::rlimit(30)]
fn write_thunk(
    layout: &mut Layout,
    plan: &ThunkPlan,
    v: &ResolveView<'_>,
    n: usize,
    Ghost(base): Ghost<Seq<OutputSection>>,
) -> (r: Result<(), RelocError>)
    requires
        v.wf(),
        plan@.wf(),
        n < plan@.entries.len(),
        plan@.symbols_known(v@.symbols.symbols.len()),
        plan@.entries.len() * THUNK_SIZE <= usize::MAX,
        apply::same_shape(base, old(layout).sections@),
        islands_sized(
            plan@,
            base,
            apply::contents_of(old(layout).sections@),
            plan@.islands.len() as int,
        ),
    ensures
        apply::outcome(
            *old(layout),
            *final(layout),
            r,
            with_thunk(
                v@,
                plan@,
                base,
                apply::contents_of(old(layout).sections@),
                n as int,
            ),
        ),
        islands_sized(
            plan@,
            base,
            apply::contents_of(final(layout).sections@),
            plan@.islands.len() as int,
        ),
{
    let ghost m = plan@;
    let ghost current = layout.sections@;
    let ghost c = apply::contents_of(current);
    let entry = plan.entries[n];
    assert(m.entries[n as int] == entry);
    let island = &plan.islands[entry.island];
    proof {
        reveal(islands_sized);
        reveal(with_thunk);
        assert(m.islands[entry.island as int] == (island.segment@, island.after_atom));
        apply::lemma_thunk_section_shape(base, current, island.segment@, island.after_atom);
        assert(apply::same_shape(current, current));
    }
    let i: usize = match find_thunk_section_index(layout, island) {
        Some(i) => i,
        None => {
            return Err(missing_island_error(island, n, Ghost(m), Ghost(entry.island as int)));
        },
    };
    assert(apply::same_frame(base[i as int], current[i as int]));
    let addr: u64 = layout.sections[i].addr;
    let code = match make_thunk(plan, v, n, addr) {
        Ok(code) => code,
        Err(e) => {
            return Err(e);
        },
    };
    proof {
        lemma_slot_counted(m.entries, n as int, m.entries.len() as int);
        assert(m.entries.take(m.entries.len() as int) =~= m.entries);
        thunks::lemma_entry_count(m.entries, entry.island);
        assert(c.synthetic[i as int] == current[i as int].synthetic_data@);
        assert(entry.slot_in_island + 1 <= thunks::entry_count(m.entries, entry.island));
    }
    overwrite(
        &mut layout.sections[i].synthetic_data,
        entry.slot_in_island * 12,
        code.as_slice(),
    );
    proof {
        let after = layout.sections@;
        let s = after[i as int].synthetic_data@;
        fill::lemma_synthetic_written(current, after, i as int, s);
        lemma_sizes_kept(m, base, c, apply::contents_of(after), i as int, s);
    }
    Ok(())
}

#[verifier::spinoff_prover]
fn write_thunks(layout: &mut Layout, plan: &ThunkPlan, v: &ResolveView<'_>, Ghost(base): Ghost<
    Seq<OutputSection>,
>) -> (r: Result<(), RelocError>)
    requires
        v.wf(),
        plan@.wf(),
        plan@.symbols_known(v@.symbols.symbols.len()),
        plan@.entries.len() * THUNK_SIZE <= usize::MAX,
        apply::same_shape(base, old(layout).sections@),
        islands_sized(
            plan@,
            base,
            apply::contents_of(old(layout).sections@),
            plan@.islands.len() as int,
        ),
    ensures
        apply::outcome(
            *old(layout),
            *final(layout),
            r,
            thunked(
                v@,
                plan@,
                base,
                apply::contents_of(old(layout).sections@),
                plan@.entries.len(),
            ),
        ),
{
    let ghost before = layout.sections@;
    let ghost c0 = apply::contents_of(before);
    let ghost m = plan@;
    let mut n: usize = 0;
    while n < plan.entries.len()
        invariant
            n <= plan.entries@.len(),
            v.wf(),
            m == plan@,
            m.wf(),
            m.symbols_known(v@.symbols.symbols.len()),
            m.entries.len() * THUNK_SIZE <= usize::MAX,
            before == old(layout).sections@,
            c0 == apply::contents_of(before),
            layout.kind == old(layout).kind,
            layout.segments@ == old(layout).segments@,
            apply::same_shape(base, layout.sections@),
            apply::same_shape(before, layout.sections@),
            islands_sized(
                m,
                base,
                apply::contents_of(layout.sections@),
                m.islands.len() as int,
            ),
            thunked(v@, m, base, c0, n as nat) == Ok::<_, RelocFault>(
                apply::contents_of(layout.sections@),
            ),
        decreases plan.entries@.len() - n,
    {
        let ghost current = layout.sections@;
        let step = write_thunk(layout, plan, v, n, Ghost(base));
        proof {
            apply::lemma_same_shape_transitive(base, current, layout.sections@);
            apply::lemma_same_shape_transitive(before, current, layout.sections@);
        }
        if let Err(e) = step {
            proof {
                lemma_thunked_fault(v@, m, base, c0, (n + 1) as nat, m.entries.len());
            }
            return Err(e);
        }
        n += 1;
    }
    Ok(())
}

/// Writes every thunk of the plan into its island's section.
pub fn synthesize_thunk_section(layout: &mut Layout, plan: &ThunkPlan, v: &ResolveView<'_>) -> (r:
    Result<(), RelocError>)
    requires
        v.wf(),
        plan@.wf(),
        plan@.symbols_known(v@.symbols.symbols.len()),
        plan@.entries.len() * THUNK_SIZE <= usize::MAX,
    ensures
        apply::outcome(
            *old(layout),
            *final(layout),
            r,
            thunk_contents(
                v@,
                plan@,
                old(layout).sections@,
                apply::contents_of(old(layout).sections@),
            ),
        ),
{
    let ghost before = layout.sections@;
    if let Err(e) = size_islands(layout, plan) {
        return Err(e);
    }
    let ghost middle = layout.sections@;
    let r = write_thunks(layout, plan, v, Ghost(before));
    proof {
        apply::lemma_same_shape_transitive(before, middle, layout.sections@);
    }
    r
}

} // verus!
