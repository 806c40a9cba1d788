//! Which branches get thunks, and where the thunks take them.

use vstd::prelude::*;
use crate::atom::Atom;
use crate::bytes;
use crate::input::ObjectFile;
use crate::options::ThunkMode;
use crate::reloc::arm64::apply::Contents;
use crate::reloc::arm64::encode;
use crate::reloc::arm64::islands;
use crate::reloc::arm64::maps;
use crate::reloc::arm64::targets;
use crate::reloc::arm64::targets::{BranchTargetKey, Targets};
use crate::reloc::arm64::thunks;
use crate::reloc::arm64::thunks::{ThunkEntry, ThunkModel, ThunkPlanningContext};
use crate::reloc::{Reloc, RelocKind};
use crate::resolve::AtomId;
use crate::section::OutputSection;

verus! {

/// The branch, given as one number, has a thunk to this target in the island behind the
/// atom.
pub open spec fn has_thunk(m: ThunkModel, branch: u64, atom: AtomId, target: BranchTargetKey) -> bool {
    let index = m.redirects[branch] as int;
    &&& m.redirects.contains_key(branch)
    &&& index < m.entries.len()
    &&& m.entries[index].target == target
    &&& m.entries[index].island < m.islands.len()
    &&& m.islands[m.entries[index].island as int].1 == atom
}

/// A plan grew: islands and thunks that were there stay where they were.
spec fn grew(a: ThunkModel, b: ThunkModel) -> bool {
    &&& a.islands.len() <= b.islands.len()
    &&& a.entries.len() <= b.entries.len()
    &&& forall|i: int| 0 <= i < a.islands.len() ==> #[trigger] b.islands[i] == a.islands[i]
    &&& forall|i: int| 0 <= i < a.entries.len() ==> #[trigger] b.entries[i] == a.entries[i]
}

proof fn lemma_island_of(islands: Seq<(Seq<char>, AtomId)>, atom: AtomId)
    ensures
        match thunks::island_of(islands, atom) {
            Some(i) => 0 <= i < islands.len() && islands[i].1 == atom,
            None => forall|i: int| 0 <= i < islands.len() ==> (#[trigger] islands[i]).1 != atom,
        },
    decreases islands.len(),
{
    if islands.len() > 0 {
        lemma_island_of(islands.drop_last(), atom);
        assert forall|i: int| 0 <= i < islands.len() - 1 implies islands.drop_last()[i]
            == #[trigger] islands[i] by {}
    }
}

proof fn lemma_entry_of(entries: Seq<ThunkEntry>, island: usize, target: BranchTargetKey)
    ensures
        match thunks::entry_of(entries, island, target) {
            Some(i) => 0 <= i < entries.len() && entries[i].island == island && entries[i].target
                == target,
            None => true,
        },
    decreases entries.len(),
{
    if entries.len() > 0 {
        lemma_entry_of(entries.drop_last(), island, target);
    }
}

proof fn lemma_with_branch(
    m: ThunkModel,
    segment: Seq<char>,
    atom: AtomId,
    offset: u32,
    target: BranchTargetKey,
)
    requires
        m.islands.len() < usize::MAX,
        m.entries.len() < usize::MAX,
    ensures
        ({
            let after = m.with_branch(segment, atom, offset, target);
            let branch = thunks::branch_at(atom, offset);
            &&& grew(m, after)
            &&& has_thunk(after, branch, atom, target)
            &&& after.islands.len() <= m.islands.len() + 1
            &&& after.entries.len() <= m.entries.len() + 1
            &&& forall|k: u64|
                k != branch ==> (#[trigger] after.redirects.contains_key(k)
                    <==> m.redirects.contains_key(k))
            &&& forall|k: u64|
                k != branch && #[trigger] m.redirects.contains_key(k) ==> after.redirects[k]
                    == m.redirects[k]
        }),
{
    lemma_island_of(m.islands, atom);
    let island = match thunks::island_of(m.islands, atom) {
        Some(i) => i as usize,
        None => m.islands.len() as usize,
    };
    lemma_entry_of(m.entries, island, target);
}

/// What a branch relocation of an atom asks of the plan: its place, and what it goes to.
pub open spec fn wants_thunk(
    ctx: ThunkPlanningContext,
    mode: ThunkMode,
    obj: ObjectFile,
    atom: Atom,
    reloc: Reloc,
    key: BranchTargetKey,
    target: u64,
) -> bool {
    let t = ctx.targets();
    let place = (t.atom_addrs[atom.id.0] + (reloc.offset - atom.input_offset))
        % 0x1_0000_0000_0000_0000;
    &&& reloc.kind == RelocKind::Branch26
    &&& atom.input_offset <= reloc.offset
    &&& t.atom_addrs.contains_key(atom.id.0)
    &&& maps::atom_sections(ctx.layout.sections@).contains_key(atom.id.0)
    &&& targets::branch_key(t, obj, atom, reloc) is Ok
    &&& targets::branch_key(t, obj, atom, reloc)->Ok_0 == key
    &&& targets::branch_key_target(t, obj, atom, reloc, key) is Ok
    &&& targets::branch_key_target(t, obj, atom, reloc, key)->Ok_0 == target
    &&& mode == ThunkMode::All || mode == ThunkMode::Safe && !encode::branch26_reaches(
        place as u64,
        target,
    )
}

spec fn later_differ(relocs: Seq<Reloc>, q: int) -> bool {
    forall|p: int| q < p < relocs.len() ==> (#[trigger] relocs[p]).offset != relocs[q].offset
}

proof fn lemma_after_reloc(
    ctx: ThunkPlanningContext,
    mode: ThunkMode,
    m: ThunkModel,
    obj: ObjectFile,
    atom: Atom,
    reloc: Reloc,
)
    requires
        thunks::after_reloc(ctx, mode, m, obj, atom, reloc) is Ok,
        m.islands.len() < usize::MAX,
        m.entries.len() < usize::MAX,
    ensures
        ({
            let after = thunks::after_reloc(ctx, mode, m, obj, atom, reloc)->Ok_0;
            let branch = thunks::branch_at(atom.id, targets::offset_in_atom(reloc, atom));
            &&& grew(m, after)
            &&& after.islands.len() <= m.islands.len() + 1
            &&& after.entries.len() <= m.entries.len() + 1
            &&& forall|k: u64|
                k != branch ==> (#[trigger] after.redirects.contains_key(k)
                    <==> m.redirects.contains_key(k))
            &&& forall|k: u64|
                k != branch && #[trigger] m.redirects.contains_key(k) ==> after.redirects[k]
                    == m.redirects[k]
        }),
{
    let t = ctx.targets();
    let local = targets::offset_in_atom(reloc, atom);
    let after = thunks::after_reloc(ctx, mode, m, obj, atom, reloc)->Ok_0;
    if after != m {
        let section = maps::atom_sections(ctx.layout.sections@)[atom.id.0];
        let key = targets::branch_key(t, obj, atom, reloc)->Ok_0;
        lemma_with_branch(m, ctx.layout.sections@[section as int].segment@, atom.id, local, key);
    }
}

proof fn lemma_wanted(
    ctx: ThunkPlanningContext,
    mode: ThunkMode,
    m: ThunkModel,
    obj: ObjectFile,
    atom: Atom,
    reloc: Reloc,
    key: BranchTargetKey,
    target: u64,
)
    requires
        thunks::after_reloc(ctx, mode, m, obj, atom, reloc) is Ok,
        wants_thunk(ctx, mode, obj, atom, reloc, key, target),
        m.islands.len() < usize::MAX,
        m.entries.len() < usize::MAX,
    ensures
        has_thunk(
            thunks::after_reloc(ctx, mode, m, obj, atom, reloc)->Ok_0,
            thunks::branch_at(atom.id, (reloc.offset - atom.input_offset) as u32),
            atom.id,
            key,
        ),
{
    let t = ctx.targets();
    let local = targets::offset_in_atom(reloc, atom);
    let base = t.atom_addrs[atom.id.0];
    assert(base.wrapping_add(local as u64) == (base + local) % 0x1_0000_0000_0000_0000);
    let section = maps::atom_sections(ctx.layout.sections@)[atom.id.0];
    lemma_with_branch(m, ctx.layout.sections@[section as int].segment@, atom.id, local, key);
}

proof fn lemma_thunk_stays(
    a: ThunkModel,
    b: ThunkModel,
    branch: u64,
    atom: AtomId,
    target: BranchTargetKey,
)
    requires
        grew(a, b),
        has_thunk(a, branch, atom, target),
        b.redirects.contains_key(branch),
        b.redirects[branch] == a.redirects[branch],
    ensures
        has_thunk(b, branch, atom, target),
{
    let index = a.redirects[branch] as int;
    assert(b.entries[index] == a.entries[index]);
    assert(b.islands[a.entries[index].island as int] == a.islands[a.entries[index].island as int]);
}

proof fn lemma_after_relocs(
    ctx: ThunkPlanningContext,
    mode: ThunkMode,
    m: ThunkModel,
    obj: ObjectFile,
    atom: Atom,
    relocs: Seq<Reloc>,
    branch: u64,
)
    requires
        thunks::after_relocs(ctx, mode, m, obj, atom, relocs) is Ok,
        m.islands.len() + relocs.len() < usize::MAX,
        m.entries.len() + relocs.len() < usize::MAX,
        forall|p: int|
            0 <= p < relocs.len() ==> branch != thunks::branch_at(
                atom.id,
                targets::offset_in_atom(#[trigger] relocs[p], atom),
            ),
    ensures
        ({
            let after = thunks::after_relocs(ctx, mode, m, obj, atom, relocs)->Ok_0;
            &&& grew(m, after)
            &&& after.islands.len() <= m.islands.len() + relocs.len()
            &&& after.entries.len() <= m.entries.len() + relocs.len()
            &&& after.redirects.contains_key(branch) <==> m.redirects.contains_key(branch)
            &&& m.redirects.contains_key(branch) ==> after.redirects[branch] == m.redirects[branch]
        }),
    decreases relocs.len(),
{
    if relocs.len() > 0 {
        let front = relocs.drop_last();
        assert forall|p: int| 0 <= p < front.len() implies branch != thunks::branch_at(
            atom.id,
            targets::offset_in_atom(#[trigger] front[p], atom),
        ) by {
            assert(front[p] == relocs[p]);
        }
        lemma_after_relocs(ctx, mode, m, obj, atom, front, branch);
        let before = thunks::after_relocs(ctx, mode, m, obj, atom, front)->Ok_0;
        lemma_after_reloc(ctx, mode, before, obj, atom, relocs.last());
        assert(relocs[relocs.len() - 1] == relocs.last());
    }
}

proof fn lemma_relocs_grow(
    ctx: ThunkPlanningContext,
    mode: ThunkMode,
    m: ThunkModel,
    obj: ObjectFile,
    atom: Atom,
    relocs: Seq<Reloc>,
)
    requires
        thunks::after_relocs(ctx, mode, m, obj, atom, relocs) is Ok,
        m.islands.len() + relocs.len() < usize::MAX,
        m.entries.len() + relocs.len() < usize::MAX,
    ensures
        ({
            let after = thunks::after_relocs(ctx, mode, m, obj, atom, relocs)->Ok_0;
            &&& after.islands.len() <= m.islands.len() + relocs.len()
            &&& after.entries.len() <= m.entries.len() + relocs.len()
        }),
    decreases relocs.len(),
{
    if relocs.len() > 0 {
        let front = relocs.drop_last();
        lemma_relocs_grow(ctx, mode, m, obj, atom, front);
        let before = thunks::after_relocs(ctx, mode, m, obj, atom, front)->Ok_0;
        lemma_after_reloc(ctx, mode, before, obj, atom, relocs.last());
    }
}

proof fn lemma_branch_number(a: AtomId, x: u32, b: AtomId, y: u32)
    ensures
        thunks::branch_at(a, x) == thunks::branch_at(b, y) <==> a == b && x == y,
{
}

proof fn lemma_wanted_among(
    ctx: ThunkPlanningContext,
    mode: ThunkMode,
    m: ThunkModel,
    obj: ObjectFile,
    atom: Atom,
    relocs: Seq<Reloc>,
    q: int,
    key: BranchTargetKey,
    target: u64,
)
    requires
        thunks::after_relocs(ctx, mode, m, obj, atom, relocs) is Ok,
        m.islands.len() + relocs.len() < usize::MAX,
        m.entries.len() + relocs.len() < usize::MAX,
        0 <= q < relocs.len(),
        wants_thunk(ctx, mode, obj, atom, relocs[q], key, target),
        later_differ(relocs, q),
        forall|p: int| 0 <= p < relocs.len() ==> atom.input_offset <= (#[trigger] relocs[p]).offset,
    ensures
        has_thunk(
            thunks::after_relocs(ctx, mode, m, obj, atom, relocs)->Ok_0,
            thunks::branch_at(atom.id, (relocs[q].offset - atom.input_offset) as u32),
            atom.id,
            key,
        ),
    decreases relocs.len(),
{
    let front = relocs.drop_last();
    let before = thunks::after_relocs(ctx, mode, m, obj, atom, front)->Ok_0;
    let last = relocs.last();
    let branch = thunks::branch_at(atom.id, (relocs[q].offset - atom.input_offset) as u32);
    lemma_relocs_grow(ctx, mode, m, obj, atom, front);
    assert(relocs[relocs.len() - 1] == last);
    if q < front.len() {
        assert(front[q] == relocs[q]);
        assert forall|p: int| q < p < front.len() implies (#[trigger] front[p]).offset
            != front[q].offset by {
            assert(front[p] == relocs[p]);
        }
        assert forall|p: int| 0 <= p < front.len() implies atom.input_offset <= (
        #[trigger] front[p]).offset by {
            assert(front[p] == relocs[p]);
        }
        lemma_wanted_among(ctx, mode, m, obj, atom, front, q, key, target);
        lemma_after_reloc(ctx, mode, before, obj, atom, last);
        lemma_branch_number(
            atom.id,
            targets::offset_in_atom(last, atom),
            atom.id,
            (relocs[q].offset - atom.input_offset) as u32,
        );
        let after = thunks::after_relocs(ctx, mode, m, obj, atom, relocs)->Ok_0;
        assert(before.redirects.contains_key(branch));
        lemma_thunk_stays(before, after, branch, atom.id, key);
    } else {
        lemma_wanted(ctx, mode, before, obj, atom, last, key, target);
    }
}

/// How many relocations the atoms have.
pub open spec fn reloc_count(ctx: ThunkPlanningContext, atoms: Seq<Atom>) -> nat
    decreases atoms.len(),
{
    if atoms.len() == 0 {
        0
    } else {
        reloc_count(ctx, atoms.drop_last()) + maps::relocs_of(
            ctx.parsed_relocs@,
            atoms.last(),
        ).len()
    }
}

proof fn lemma_atoms_grow(ctx: ThunkPlanningContext, mode: ThunkMode, atoms: Seq<Atom>)
    requires
        thunks::after_atoms(ctx, mode, atoms) is Ok,
        reloc_count(ctx, atoms) < usize::MAX,
    ensures
        (thunks::after_atoms(ctx, mode, atoms)->Ok_0).islands.len() <= reloc_count(ctx, atoms),
        (thunks::after_atoms(ctx, mode, atoms)->Ok_0).entries.len() <= reloc_count(ctx, atoms),
    decreases atoms.len(),
{
    if atoms.len() > 0 {
        lemma_atoms_grow(ctx, mode, atoms.drop_last());
        let m = thunks::after_atoms(ctx, mode, atoms.drop_last())->Ok_0;
        let a = atoms.last();
        if maps::object_for(ctx.inputs@, a.origin) is Some {
            lemma_relocs_grow(
                ctx,
                mode,
                m,
                maps::object_for(ctx.inputs@, a.origin)->0,
                a,
                maps::relocs_of(ctx.parsed_relocs@, a),
            );
        }
    }
}

proof fn lemma_wanted_in_atoms(
    ctx: ThunkPlanningContext,
    mode: ThunkMode,
    atoms: Seq<Atom>,
    x: int,
    obj: ObjectFile,
    q: int,
    key: BranchTargetKey,
    target: u64,
)
    requires
        thunks::after_atoms(ctx, mode, atoms) is Ok,
        reloc_count(ctx, atoms) < usize::MAX,
        0 <= x < atoms.len(),
        forall|y: int| x < y < atoms.len() ==> (#[trigger] atoms[y]).id != atoms[x].id,
        maps::object_for(ctx.inputs@, atoms[x].origin) == Some(obj),
        0 <= q < maps::relocs_of(ctx.parsed_relocs@, atoms[x]).len(),
        wants_thunk(
            ctx,
            mode,
            obj,
            atoms[x],
            maps::relocs_of(ctx.parsed_relocs@, atoms[x])[q],
            key,
            target,
        ),
        later_differ(maps::relocs_of(ctx.parsed_relocs@, atoms[x]), q),
    ensures
        has_thunk(
            thunks::after_atoms(ctx, mode, atoms)->Ok_0,
            thunks::branch_at(
                atoms[x].id,
                (maps::relocs_of(ctx.parsed_relocs@, atoms[x])[q].offset
                    - atoms[x].input_offset) as u32,
            ),
            atoms[x].id,
            key,
        ),
    decreases atoms.len(),
{
    let front = atoms.drop_last();
    let last = atoms.last();
    let m = thunks::after_atoms(ctx, mode, front)->Ok_0;
    lemma_atoms_grow(ctx, mode, front);
    let relocs = maps::relocs_of(ctx.parsed_relocs@, atoms[x]);
    if x < front.len() {
        assert(front[x] == atoms[x]);
        assert forall|y: int| x < y < front.len() implies (#[trigger] front[y]).id
            != front[x].id by {
            assert(front[y] == atoms[y]);
        }
        lemma_wanted_in_atoms(ctx, mode, front, x, obj, q, key, target);
        assert(atoms[atoms.len() - 1].id != atoms[x].id);
        let offset = (relocs[q].offset - atoms[x].input_offset) as u32;
        let branch = thunks::branch_at(atoms[x].id, offset);
        if maps::object_for(ctx.inputs@, last.origin) is Some {
            let other = maps::object_for(ctx.inputs@, last.origin)->0;
            let more = maps::relocs_of(ctx.parsed_relocs@, last);
            assert forall|p: int| 0 <= p < more.len() implies branch != thunks::branch_at(
                last.id,
                targets::offset_in_atom(#[trigger] more[p], last),
            ) by {
                lemma_branch_number(
                    atoms[x].id,
                    offset,
                    last.id,
                    targets::offset_in_atom(more[p], last),
                );
            }
            lemma_after_relocs(ctx, mode, m, other, last, more, branch);
            let after = thunks::after_atoms(ctx, mode, atoms)->Ok_0;
            lemma_thunk_stays(m, after, branch, atoms[x].id, key);
        }
    } else {
        assert forall|p: int| 0 <= p < relocs.len() implies last.input_offset <= (
        #[trigger] relocs[p]).offset by {
            let key2 = crate::atom::section_key(last.origin, last.input_section);
            crate::reloc::cached(ctx.parsed_relocs@, key2).lemma_filter_pred(
                |reloc: Reloc| maps::applies(reloc, last),
                p,
            );
        }
        lemma_wanted_among(ctx, mode, m, obj, last, relocs, q, key, target);
    }
}

/// Every branch that cannot reach its target has a thunk to it, in the island behind the
/// branch's own atom, in any plan that is made to be safe; in one that gives every branch a
/// thunk, so has every branch.
pub proof fn law_far_branch_has_thunk(
    ctx: ThunkPlanningContext,
    mode: ThunkMode,
    x: int,
    obj: ObjectFile,
    q: int,
    key: BranchTargetKey,
    target: u64,
)
    requires
        thunks::thunk_plan(mode, ctx) is Ok,
        mode == ThunkMode::All || !thunks::fits_branch26(ctx.layout.sections@),
        reloc_count(ctx, ctx.atoms@) < usize::MAX,
        0 <= x < ctx.atoms@.len(),
        forall|y: int| x < y < ctx.atoms@.len() ==> (#[trigger] ctx.atoms@[y]).id
            != ctx.atoms@[x].id,
        maps::object_for(ctx.inputs@, ctx.atoms@[x].origin) == Some(obj),
        0 <= q < maps::relocs_of(ctx.parsed_relocs@, ctx.atoms@[x]).len(),
        wants_thunk(
            ctx,
            mode,
            obj,
            ctx.atoms@[x],
            maps::relocs_of(ctx.parsed_relocs@, ctx.atoms@[x])[q],
            key,
            target,
        ),
        forall|p: int|
            q < p < maps::relocs_of(ctx.parsed_relocs@, ctx.atoms@[x]).len() ==> (
            #[trigger] maps::relocs_of(ctx.parsed_relocs@, ctx.atoms@[x])[p]).offset
                != maps::relocs_of(ctx.parsed_relocs@, ctx.atoms@[x])[q].offset,
    ensures
        ({
            let plan = thunks::thunk_plan(mode, ctx)->Ok_0;
            let a = ctx.atoms@[x];
            let reloc = maps::relocs_of(ctx.parsed_relocs@, a)[q];
            &&& plan is Some
            &&& has_thunk(
                plan->0,
                (a.id.0 * 0x1_0000_0000 + (reloc.offset - a.input_offset)) as u64,
                a.id,
                key,
            )
        }),
{
    lemma_wanted_in_atoms(ctx, mode, ctx.atoms@, x, obj, q, key, target);
}

proof fn lemma_thunk_written(
    t: Targets,
    m: ThunkModel,
    sections: Seq<OutputSection>,
    b: Contents,
    n: int,
    i: int,
)
    requires
        islands::with_thunk(t, m, sections, b, n) is Ok,
        islands::island_place(m, sections, m.entries[n].island as int) == Some(i),
        0 <= i < b.synthetic.len(),
        m.entries[n].slot_in_island < 0x1000_0000,
        12 * m.entries[n].slot_in_island + 12 <= b.synthetic[i].len(),
    ensures
        ({
            let after = islands::with_thunk(t, m, sections, b, n)->Ok_0;
            let out = after.synthetic[i];
            let at = 12 * m.entries[n].slot_in_island;
            let place = ((sections[i].addr + at) % 0x1_0000_0000_0000_0000) as u64;
            let target = islands::thunk_target(t, m.entries[n].target);
            &&& target is Some
            &&& out.len() == b.synthetic[i].len()
            &&& computes_and_jumps(out, at, place, target->0)
            &&& forall|j: int|
                0 <= j < out.len() && !(at <= j < at + 12) ==> #[trigger] out[j]
                    == b.synthetic[i][j]
        }),
{
    reveal(islands::with_thunk);
    let entry = m.entries[n];
    let at = 12 * entry.slot_in_island;
    let place = ((sections[i].addr + at) % 0x1_0000_0000_0000_0000) as u64;
    assert((entry.slot_in_island as u64).wrapping_mul(12) == at);
    assert(sections[i].addr.wrapping_add((entry.slot_in_island as u64).wrapping_mul(12)) == place);
    let target = islands::thunk_target(t, entry.target)->0;
    let code = encode::thunk(place, target)->Ok_0;
    let out = bytes::replaced(b.synthetic[i], at, code);
    assert(code.len() == 12);
    assert(entry.slot_in_island * 12 == at);
    bytes::lemma_replaced(b.synthetic[i], at, code);
    lemma_thunk_in(out, at, place, target);
}

/// The code at `at`, which runs at `place`, computes `target` and jumps there.
#[verifier::opaque]
pub open spec fn computes_and_jumps(s: Seq<u8>, at: int, place: u64, target: u64) -> bool {
    &&& encode::is_adrp(bytes::le32(s, at), 16)
    &&& encode::is_add(bytes::le32(s, at + 4), 16)
    &&& encode::adrp_computes(bytes::le32(s, at), place) + encode::add_immediate_value(
        bytes::le32(s, at + 4),
    ) == target
    &&& bytes::le32(s, at + 8) == 0xd61f_0200
}

proof fn lemma_thunk_in(out: Seq<u8>, at: int, place: u64, target: u64)
    requires
        0 <= at,
        at + 12 <= out.len(),
        encode::thunk(place, target) is Ok,
        out.subrange(at, at + 12) == encode::thunk(place, target)->Ok_0,
    ensures
        computes_and_jumps(out, at, place, target),
{
    reveal(computes_and_jumps);
    let s = out.subrange(at, at + 12);
    encode::law_thunk_jumps_to_target(place, target);
    assert(s[0] == out[at] && s[1] == out[at + 1] && s[2] == out[at + 2] && s[3] == out[at + 3]);
    assert(s[4] == out[at + 4] && s[5] == out[at + 5] && s[6] == out[at + 6] && s[7] == out[at
        + 7]);
    assert(s[8] == out[at + 8] && s[9] == out[at + 9] && s[10] == out[at + 10] && s[11] == out[at
        + 11]);
}

/// The plan holds together.
#[verifier::opaque]
spec fn well(m: ThunkModel) -> bool {
    m.wf()
}

proof fn lemma_well(m: ThunkModel, e: int)
    requires
        well(m),
        0 <= e < m.entries.len(),
    ensures
        m.entries[e].island < m.islands.len(),
        12 * m.entries[e].slot_in_island + 12 <= thunks::entry_count(
            m.entries,
            m.entries[e].island,
        ) * 12,
        m.entries[e].slot_in_island < m.entries.len(),
{
    reveal(well);
    lemma_slot_room(m, e);
    thunks::lemma_entry_count(m.entries, m.entries[e].island);
}

/// Every island has its section, just large enough for its thunks.
spec fn roomy(m: ThunkModel, sections: Seq<OutputSection>, c: Contents, n: int) -> bool {
    &&& c.synthetic.len() == sections.len()
    &&& forall|k: int|
        0 <= k < n ==> has_its_room(m, sections, c, k) && #[trigger] m.islands[k] == m.islands[k]
}

spec fn has_its_room(m: ThunkModel, sections: Seq<OutputSection>, c: Contents, k: int) -> bool {
    let place = islands::island_place(m, sections, k);
    &&& place is Some
    &&& 0 <= place->0 < c.synthetic.len()
    &&& c.synthetic[place->0].len() == thunks::entry_count(m.entries, k as usize) * 12
}

proof fn lemma_sized(m: ThunkModel, sections: Seq<OutputSection>, c: Contents, n: nat)
    requires
        m.wf(),
        n <= m.islands.len() <= usize::MAX,
        c.synthetic.len() == sections.len(),
        islands::sized(m, sections, c, n) is Ok,
    ensures
        roomy(m, sections, islands::sized(m, sections, c, n)->Ok_0, n as int),
    decreases n,
{
    if n > 0 {
        lemma_sized(m, sections, c, (n - 1) as nat);
        let b = islands::sized(m, sections, c, (n - 1) as nat)->Ok_0;
        let out = islands::sized(m, sections, c, n)->Ok_0;
        let i = islands::island_place(m, sections, n - 1)->0;
        thunks::lemma_thunk_section(sections, m.islands[n - 1].0, m.islands[n - 1].1);
        assert forall|k: int| 0 <= k < n implies has_its_room(m, sections, out, k)
            && #[trigger] m.islands[k] == m.islands[k] by {
            if k < n - 1 {
                assert(m.islands[k] == m.islands[k]);
                assert(has_its_room(m, sections, b, k));
                islands::lemma_places_differ(m, sections, k, n - 1);
            }
        }
    }
}

/// The thunk `e` of the plan stands in the section of its island, in its slot, and jumps to
/// its target.
pub open spec fn in_place(
    t: Targets,
    m: ThunkModel,
    sections: Seq<OutputSection>,
    c: Contents,
    e: int,
) -> bool {
    let place = islands::island_place(m, sections, m.entries[e].island as int);
    let at = 12 * m.entries[e].slot_in_island;
    let target = islands::thunk_target(t, m.entries[e].target);
    &&& place is Some
    &&& target is Some
    &&& at + 12 <= c.synthetic[place->0].len()
    &&& computes_and_jumps(
        c.synthetic[place->0],
        at,
        ((sections[place->0].addr + at) % 0x1_0000_0000_0000_0000) as u64,
        target->0,
    )
}

proof fn lemma_code_kept(a: Seq<u8>, b: Seq<u8>, at: int, place: u64, target: u64)
    requires
        computes_and_jumps(a, at, place, target),
        forall|j: int| at <= j < at + 12 ==> #[trigger] b[j] == a[j],
    ensures
        computes_and_jumps(b, at, place, target),
{
    reveal(computes_and_jumps);
    assert(b[at] == a[at] && b[at + 1] == a[at + 1] && b[at + 2] == a[at + 2] && b[at + 3] == a[at
        + 3]);
    assert(b[at + 4] == a[at + 4] && b[at + 5] == a[at + 5] && b[at + 6] == a[at + 6] && b[at + 7]
        == a[at + 7]);
    assert(b[at + 8] == a[at + 8] && b[at + 9] == a[at + 9] && b[at + 10] == a[at + 10] && b[at
        + 11] == a[at + 11]);
}

proof fn lemma_slot_room(m: ThunkModel, e: int)
    requires
        m.wf(),
        0 <= e < m.entries.len(),
    ensures
        12 * m.entries[e].slot_in_island + 12 <= thunks::entry_count(
            m.entries,
            m.entries[e].island,
        ) * 12,
{
    islands::lemma_slot_counted(m.entries, e, m.entries.len() as int);
    assert(m.entries.take(m.entries.len() as int) =~= m.entries);
}

#[verifier::rlimit(50)]
#[verifier::spinoff_prover]
proof fn lemma_thunked(t: Targets, m: ThunkModel, sections: Seq<OutputSection>, b: Contents, n: nat)
    requires
        well(m),
        n <= m.entries.len() < 0x1000_0000,
        roomy(m, sections, b, m.islands.len() as int),
        islands::thunked(t, m, sections, b, n) is Ok,
    ensures
        roomy(m, sections, islands::thunked(t, m, sections, b, n)->Ok_0, m.islands.len() as int),
        forall|e: int|
            0 <= e < n ==> in_place(
                t,
                m,
                sections,
                islands::thunked(t, m, sections, b, n)->Ok_0,
                e,
            ) && #[trigger] m.entries[e] == m.entries[e],
    decreases n,
{
    if n > 0 {
        let x = n - 1;
        lemma_thunked(t, m, sections, b, x as nat);
        let c = islands::thunked(t, m, sections, b, x as nat)->Ok_0;
        let out = islands::thunked(t, m, sections, b, n)->Ok_0;
        let entry = m.entries[x];
        lemma_well(m, x);
        assert(m.islands[entry.island as int] == m.islands[entry.island as int]);
        assert(has_its_room(m, sections, c, entry.island as int));
        let i = islands::island_place(m, sections, entry.island as int)->0;
        assert(out == islands::with_thunk(t, m, sections, c, x)->Ok_0);
        lemma_thunk_written(t, m, sections, c, x, i);
        lemma_only_one(t, m, sections, c, x, i);
        assert forall|k: int| 0 <= k < m.islands.len() implies has_its_room(m, sections, out, k)
            && #[trigger] m.islands[k] == m.islands[k] by {
            assert(has_its_room(m, sections, c, k));
        }
        assert forall|e: int| 0 <= e < n implies in_place(t, m, sections, out, e)
            && #[trigger] m.entries[e] == m.entries[e] by {
            if e < x {
                assert(in_place(t, m, sections, c, e) && m.entries[e] == m.entries[e]);
                lemma_stays_in_place(t, m, sections, c, out, e, x, i);
            }
        }
    }
}

proof fn lemma_stays_in_place(
    t: Targets,
    m: ThunkModel,
    sections: Seq<OutputSection>,
    c: Contents,
    out: Contents,
    e: int,
    x: int,
    i: int,
)
    requires
        well(m),
        0 <= e < x < m.entries.len(),
        in_place(t, m, sections, c, e),
        islands::island_place(m, sections, m.entries[x].island as int) == Some(i),
        0 <= i < c.synthetic.len(),
        out.synthetic.len() == c.synthetic.len() == sections.len(),
        out.synthetic[i].len() == c.synthetic[i].len(),
        forall|j: int|
            0 <= j < out.synthetic[i].len() && !(12 * m.entries[x].slot_in_island <= j < 12
                * m.entries[x].slot_in_island + 12) ==> #[trigger] out.synthetic[i][j]
                == c.synthetic[i][j],
        forall|p: int|
            0 <= p < c.synthetic.len() && p != i ==> #[trigger] out.synthetic[p]
                == c.synthetic[p],
    ensures
        in_place(t, m, sections, out, e),
{
    reveal(well);
    let p = islands::island_place(m, sections, m.entries[e].island as int)->0;
    let at = 12 * m.entries[e].slot_in_island;
    lemma_well(m, e);
    lemma_well(m, x);
    if m.entries[e].island == m.entries[x].island {
        lemma_slots_ascend(m, e, x);
        lemma_code_kept(
            c.synthetic[p],
            out.synthetic[p],
            at,
            ((sections[p].addr + at) % 0x1_0000_0000_0000_0000) as u64,
            islands::thunk_target(t, m.entries[e].target)->0,
        );
    } else {
        islands::lemma_places_differ(
            m,
            sections,
            m.entries[e].island as int,
            m.entries[x].island as int,
        );
        thunks::lemma_thunk_section(
            sections,
            m.islands[m.entries[e].island as int].0,
            m.islands[m.entries[e].island as int].1,
        );
    }
}

proof fn lemma_only_one(
    t: Targets,
    m: ThunkModel,
    sections: Seq<OutputSection>,
    c: Contents,
    x: int,
    i: int,
)
    requires
        islands::with_thunk(t, m, sections, c, x) is Ok,
        islands::island_place(m, sections, m.entries[x].island as int) == Some(i),
        0 <= i < c.synthetic.len(),
    ensures
        (islands::with_thunk(t, m, sections, c, x)->Ok_0).synthetic.len() == c.synthetic.len(),
        forall|p: int|
            0 <= p < c.synthetic.len() && p != i ==> #[trigger] (islands::with_thunk(
                t,
                m,
                sections,
                c,
                x,
            )->Ok_0).synthetic[p] == c.synthetic[p],
{
    reveal(islands::with_thunk);
}

proof fn lemma_slots_ascend(m: ThunkModel, e: int, x: int)
    requires
        m.wf(),
        0 <= e < x < m.entries.len(),
        m.entries[e].island == m.entries[x].island,
    ensures
        m.entries[e].slot_in_island < m.entries[x].slot_in_island,
{
    islands::lemma_slot_counted(m.entries, e, x);
    assert(m.entries[e].slot_in_island == thunks::entry_count(
        m.entries.take(e),
        m.entries[e].island,
    ));
    assert(m.entries[x].slot_in_island == thunks::entry_count(
        m.entries.take(x),
        m.entries[x].island,
    ));
}

/// In the image, the code of every thunk of the plan stands at the thunk's address and jumps
/// to the thunk's target.
#[verifier::rlimit(50)]
#[verifier::spinoff_prover]
pub proof fn law_thunks_jump_to_their_targets(
    t: Targets,
    m: ThunkModel,
    sections: Seq<OutputSection>,
    c: Contents,
    e: int,
)
    requires
        m.wf(),
        m.islands.len() <= usize::MAX,
        m.entries.len() < 0x1000_0000,
        c.synthetic.len() == sections.len(),
        islands::thunk_contents(t, m, sections, c) is Ok,
        0 <= e < m.entries.len(),
    ensures
        ({
            let after = islands::thunk_contents(t, m, sections, c)->Ok_0;
            let place = islands::island_place(m, sections, m.entries[e].island as int)->0;
            &&& in_place(t, m, sections, after, e)
            &&& thunks::thunk_address(m, sections, e) is Some
            &&& thunks::thunk_address(m, sections, e)->0 == (sections[place].addr + 12
                * m.entries[e].slot_in_island) % 0x1_0000_0000_0000_0000
        }),
{
    assert(well(m)) by {
        reveal(well);
    }
    lemma_sized(m, sections, c, m.islands.len());
    lemma_written(t, m, sections, c, e);
}

proof fn lemma_written(t: Targets, m: ThunkModel, sections: Seq<OutputSection>, c: Contents, e: int)
    requires
        well(m),
        m.entries.len() < 0x1000_0000,
        islands::thunk_contents(t, m, sections, c) is Ok,
        roomy(
            m,
            sections,
            islands::sized(m, sections, c, m.islands.len())->Ok_0,
            m.islands.len() as int,
        ),
        0 <= e < m.entries.len(),
    ensures
        ({
            let after = islands::thunk_contents(t, m, sections, c)->Ok_0;
            let place = islands::island_place(m, sections, m.entries[e].island as int)->0;
            &&& in_place(t, m, sections, after, e)
            &&& thunks::thunk_address(m, sections, e) is Some
            &&& thunks::thunk_address(m, sections, e)->0 == (sections[place].addr + 12
                * m.entries[e].slot_in_island) % 0x1_0000_0000_0000_0000
        }),
{
    let b = islands::sized(m, sections, c, m.islands.len())->Ok_0;
    lemma_thunked(t, m, sections, b, m.entries.len());
    assert(m.entries[e] == m.entries[e]);
    lemma_well(m, e);
    let slot = m.entries[e].slot_in_island;
    assert((slot as u64).wrapping_mul(12) == 12 * slot);
}

} // verus!
