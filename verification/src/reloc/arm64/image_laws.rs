//! What the bytes of a linked image are, from the bytes of its inputs.

use vstd::prelude::*;
use crate::atom;
use crate::atom::{Atom, AtomSection};
use crate::bytes;
use crate::input::ObjectFile;
use crate::reloc::arm64::apply;
use crate::reloc::arm64::apply::{Contents, PlacedThunks, RelocEnv};
use crate::reloc::arm64::apply_laws;
use crate::reloc::arm64::fill;
use crate::reloc::arm64::image;
use crate::reloc::arm64::image::ApplyLayoutPlan;
use crate::reloc::arm64::islands;
use crate::reloc::arm64::maps;
use crate::reloc::arm64::patch;
use crate::reloc::arm64::patch::Site;
use crate::reloc::arm64::places;
use crate::reloc::arm64::targets;
use crate::reloc::arm64::targets::Targets;
use crate::reloc::arm64::thunks::ThunkModel;
use crate::reloc::arm64::RelocFault;
use crate::reloc::{Reloc, RelocKind, RelocLength};
use crate::resolve::{AtomId, SymbolId};
use crate::section::{OutputAtom, OutputSection};
use crate::synth::SyntheticPlan;

verus! {

/// How many bytes a relocation may change.
pub open spec fn width(reloc: Reloc) -> int {
    if reloc.length == RelocLength::Quad {
        8
    } else {
        4
    }
}

spec fn stored_at(s: Seq<u8>, out: Seq<u8>, at: int, reloc: Reloc) -> bool {
    ||| exists|v: u32| out == #[trigger] bytes::replaced(s, at, bytes::le32_bytes(v)) && at + 4
        <= s.len()
    ||| exists|v: u64| out == #[trigger] bytes::replaced(s, at, bytes::le64_bytes(v)) && at + 8
        <= s.len() && reloc.length == RelocLength::Quad
}

proof fn lemma_stored(site: Site, s: Seq<u8>, v: u32, w: u64, unsupported: Seq<char>)
    ensures
        site.store32(s, v) is Ok ==> stored_at(
            s,
            site.store32(s, v)->Ok_0,
            site.local_offset as int,
            site.reloc,
        ),
        site.reloc.length == RelocLength::Quad && site.store64(s, w) is Ok ==> stored_at(
            s,
            site.store64(s, w)->Ok_0,
            site.local_offset as int,
            site.reloc,
        ),
        patch::stored(site, s, w, unsupported) is Ok ==> stored_at(
            s,
            patch::stored(site, s, w, unsupported)->Ok_0,
            site.local_offset as int,
            site.reloc,
        ),
{
    let at = site.local_offset as int;
    let a = bytes::replaced(s, at, bytes::le32_bytes(v));
    let b = bytes::replaced(s, at, bytes::le64_bytes(w));
    let c = bytes::replaced(s, at, bytes::le32_bytes(w as u32));
    assert(site.store32(s, v) is Ok ==> site.store32(s, v)->Ok_0 == a);
    assert(site.store64(s, w) is Ok ==> site.store64(s, w)->Ok_0 == b);
    assert(site.store32(s, w as u32) is Ok ==> site.store32(s, w as u32)->Ok_0 == c);
}

proof fn lemma_unsigned(site: Site, s: Seq<u8>, target: u64)
    ensures
        patch::unsigned_patch(site, s, target) is Ok ==> stored_at(
            s,
            patch::unsigned_patch(site, s, target)->Ok_0,
            site.local_offset as int,
            site.reloc,
        ),
{
    if patch::implicit_addend(site, s) is Ok {
        let b = patch::implicit_addend(site, s)->Ok_0;
        lemma_stored(
            site,
            s,
            0,
            target.wrapping_add_signed(site.reloc.addend).wrapping_add_signed(b),
            "unsupported UNSIGNED width "@,
        );
    }
}

proof fn lemma_subtractor(site: Site, s: Seq<u8>, minuend: u64, t: Targets)
    ensures
        patch::subtractor_patch(site, s, minuend, t) is Ok ==> stored_at(
            s,
            patch::subtractor_patch(site, s, minuend, t)->Ok_0,
            site.local_offset as int,
            site.reloc,
        ),
{
    if patch::subtractor_patch(site, s, minuend, t) is Ok {
        let b = patch::implicit_addend(site, s)->Ok_0;
        let base = targets::referent_target(
            t,
            *site.obj,
            *site.atom,
            site.reloc.kind,
            site.reloc.subtrahend->0,
        )->Ok_0;
        lemma_stored(
            site,
            s,
            0,
            minuend.wrapping_sub(base).wrapping_add_signed(site.reloc.addend).wrapping_add_signed(
                b,
            ),
            "unsupported SUBTRACTOR width "@,
        );
    }
}

proof fn lemma_instruction(site: Site, s: Seq<u8>, place: u64, target: u64)
    ensures
        patch::branch26_patch(site, s, place, target) is Ok ==> stored_at(
            s,
            patch::branch26_patch(site, s, place, target)->Ok_0,
            site.local_offset as int,
            site.reloc,
        ),
        patch::page21_patch(site, s, place, target) is Ok ==> stored_at(
            s,
            patch::page21_patch(site, s, place, target)->Ok_0,
            site.local_offset as int,
            site.reloc,
        ),
        patch::pageoff12_patch(site, s, target) is Ok ==> stored_at(
            s,
            patch::pageoff12_patch(site, s, target)->Ok_0,
            site.local_offset as int,
            site.reloc,
        ),
        patch::add_patch(site, s, target) is Ok ==> stored_at(
            s,
            patch::add_patch(site, s, target)->Ok_0,
            site.local_offset as int,
            site.reloc,
        ),
{
    assert forall|v: u32| (#[trigger] site.store32(s, v)) is Ok implies stored_at(
        s,
        site.store32(s, v)->Ok_0,
        site.local_offset as int,
        site.reloc,
    ) by {
        lemma_stored(site, s, v, 0, ""@);
    }
}

#[verifier::rlimit(50)]
#[verifier::spinoff_prover]
proof fn lemma_once_at(
    t: Targets,
    thunks: PlacedThunks,
    site: Site,
    place: u64,
    s: Seq<u8>,
)
    requires
        apply::relocated_at(t, thunks, site, place, s) is Ok,
    ensures
        stored_at(
            s,
            apply::relocated_at(t, thunks, site, place, s)->Ok_0,
            site.local_offset as int,
            site.reloc,
        ),
{
    assert forall|target: u64| (#[trigger] patch::unsigned_patch(site, s, target)) is Ok implies
        stored_at(
        s,
        patch::unsigned_patch(site, s, target)->Ok_0,
        site.local_offset as int,
        site.reloc,
    ) by {
        lemma_unsigned(site, s, target);
    }
    assert forall|m: u64| (#[trigger] patch::subtractor_patch(site, s, m, t)) is Ok implies stored_at(
        s,
        patch::subtractor_patch(site, s, m, t)->Ok_0,
        site.local_offset as int,
        site.reloc,
    ) by {
        lemma_subtractor(site, s, m, t);
    }
    assert forall|target: u64|
        (#[trigger] patch::branch26_patch(site, s, place, target)) is Ok implies stored_at(
        s,
        patch::branch26_patch(site, s, place, target)->Ok_0,
        site.local_offset as int,
        site.reloc,
    ) by {
        lemma_instruction(site, s, place, target);
    }
    assert forall|target: u64|
        (#[trigger] patch::page21_patch(site, s, place, target)) is Ok implies stored_at(
        s,
        patch::page21_patch(site, s, place, target)->Ok_0,
        site.local_offset as int,
        site.reloc,
    ) by {
        lemma_instruction(site, s, place, target);
    }
    assert forall|target: u64|
        (#[trigger] patch::pageoff12_patch(site, s, target)) is Ok implies stored_at(
        s,
        patch::pageoff12_patch(site, s, target)->Ok_0,
        site.local_offset as int,
        site.reloc,
    ) by {
        lemma_instruction(site, s, place, target);
    }
    assert forall|target: u64|
        (#[trigger] patch::add_patch(site, s, target)) is Ok implies stored_at(
        s,
        patch::add_patch(site, s, target)->Ok_0,
        site.local_offset as int,
        site.reloc,
    ) by {
        lemma_instruction(site, s, place, target);
    }
    lemma_stored(site, s, 0, 0, ""@);
}

proof fn lemma_stored_changes(s: Seq<u8>, out: Seq<u8>, at: int, reloc: Reloc)
    requires
        stored_at(s, out, at, reloc),
        0 <= at,
    ensures
        apply_laws::changed_only(s, out, at, width(reloc)),
{
    if exists|v: u32| out == #[trigger] bytes::replaced(s, at, bytes::le32_bytes(v)) && at + 4
        <= s.len() {
        let v = choose|v: u32| out == #[trigger] bytes::replaced(s, at, bytes::le32_bytes(v)) && at
            + 4 <= s.len();
        bytes::lemma_replaced(s, at, bytes::le32_bytes(v));
    } else {
        let v = choose|v: u64| out == #[trigger] bytes::replaced(s, at, bytes::le64_bytes(v)) && at
            + 8 <= s.len() && reloc.length == RelocLength::Quad;
        assert(bytes::le64_bytes(v).len() == 8);
        bytes::lemma_replaced(s, at, bytes::le64_bytes(v));
    }
}

#[verifier::rlimit(50)]
#[verifier::spinoff_prover]
proof fn lemma_once(
    t: Targets,
    thunks: PlacedThunks,
    atom: Atom,
    obj: ObjectFile,
    reloc: Reloc,
    s: Seq<u8>,
)
    requires
        apply::relocated_once(t, thunks, atom, obj, reloc, s) is Ok,
    ensures
        atom.input_offset <= reloc.offset,
        ({
            let at = (reloc.offset - atom.input_offset) as u32;
            let place = (t.atom_addr(atom.id)->0).wrapping_add(at as u64);
            let site = Site { atom: &atom, obj: &obj, local_offset: at, reloc };
            apply::relocated_once(t, thunks, atom, obj, reloc, s) == apply::relocated_at(
                t,
                thunks,
                site,
                place,
                s,
            )
        }),
{
}

/// A relocation changes no byte but those at its own place: eight for a quad, else four.
#[verifier::rlimit(50)]
#[verifier::spinoff_prover]
pub proof fn law_relocation_stays_in_place(
    t: Targets,
    thunks: PlacedThunks,
    atom: Atom,
    obj: ObjectFile,
    reloc: Reloc,
    s: Seq<u8>,
)
    requires
        apply::relocated_once(t, thunks, atom, obj, reloc, s) is Ok,
    ensures
        atom.input_offset <= reloc.offset,
        apply_laws::changed_only(
            s,
            apply::relocated_once(t, thunks, atom, obj, reloc, s)->Ok_0,
            reloc.offset - atom.input_offset,
            width(reloc),
        ),
{
    lemma_once(t, thunks, atom, obj, reloc, s);
    let at = reloc.offset - atom.input_offset;
    let site = Site { atom: &atom, obj: &obj, local_offset: at as u32, reloc };
    let place = (t.atom_addr(atom.id)->0).wrapping_add((at as u32) as u64);
    let out = apply::relocated_at(t, thunks, site, place, s)->Ok_0;
    lemma_once_at(t, thunks, site, place, s);
    lemma_stored_changes(s, out, at, reloc);
}

/// No relocation of the list changes a byte of the `n` from `at` on.
pub open spec fn untouched(relocs: Seq<Reloc>, atom: Atom, at: int, n: int) -> bool {
    forall|q: int|
        0 <= q < relocs.len() ==> {
            let start = (#[trigger] relocs[q]).offset - atom.input_offset;
            at + n <= start || start + width(relocs[q]) <= at
        }
}

/// Bytes that no relocation of an atom is for stay what they were.
pub proof fn law_other_bytes_stay(
    t: Targets,
    thunks: PlacedThunks,
    atom: Atom,
    obj: ObjectFile,
    relocs: Seq<Reloc>,
    s: Seq<u8>,
    at: int,
    n: int,
)
    requires
        apply::relocated(t, thunks, atom, obj, relocs, s) is Ok,
        untouched(relocs, atom, at, n),
        0 <= at,
        at + n <= s.len(),
    ensures
        (apply::relocated(t, thunks, atom, obj, relocs, s)->Ok_0).len() == s.len(),
        forall|j: int|
            at <= j < at + n ==> #[trigger] (apply::relocated(
                t,
                thunks,
                atom,
                obj,
                relocs,
                s,
            )->Ok_0)[j] == s[j],
    decreases relocs.len(),
{
    if relocs.len() > 0 {
        let front = relocs.drop_last();
        assert(untouched(front, atom, at, n)) by {
            assert forall|q: int| 0 <= q < front.len() implies {
                let start = (#[trigger] front[q]).offset - atom.input_offset;
                at + n <= start || start + width(front[q]) <= at
            } by {
                assert(front[q] == relocs[q]);
            }
        }
        law_other_bytes_stay(t, thunks, atom, obj, front, s, at, n);
        let b = apply::relocated(t, thunks, atom, obj, front, s)->Ok_0;
        law_relocation_stays_in_place(t, thunks, atom, obj, relocs.last(), b);
        assert(relocs[relocs.len() - 1] == relocs.last());
    }
}

proof fn lemma_word_kept(a: Seq<u8>, b: Seq<u8>, at: int)
    requires
        forall|j: int| at <= j < at + 8 ==> #[trigger] a[j] == b[j],
    ensures
        bytes::le64(a, at) == bytes::le64(b, at),
{
    assert(a[at] == b[at] && a[at + 1] == b[at + 1] && a[at + 2] == b[at + 2] && a[at + 3] == b[at
        + 3] && a[at + 4] == b[at + 4] && a[at + 5] == b[at + 5] && a[at + 6] == b[at + 6] && a[at
        + 7] == b[at + 7]);
}

proof fn lemma_length(
    t: Targets,
    thunks: PlacedThunks,
    atom: Atom,
    obj: ObjectFile,
    relocs: Seq<Reloc>,
    s: Seq<u8>,
)
    requires
        apply::relocated(t, thunks, atom, obj, relocs, s) is Ok,
    ensures
        (apply::relocated(t, thunks, atom, obj, relocs, s)->Ok_0).len() == s.len(),
    decreases relocs.len(),
{
    if relocs.len() > 0 {
        let front = relocs.drop_last();
        lemma_length(t, thunks, atom, obj, front, s);
        let b = apply::relocated(t, thunks, atom, obj, front, s)->Ok_0;
        law_relocation_stays_in_place(t, thunks, atom, obj, relocs.last(), b);
    }
}

#[verifier::rlimit(50)]
#[verifier::spinoff_prover]
proof fn lemma_pointer_among(
    t: Targets,
    thunks: PlacedThunks,
    atom: Atom,
    obj: ObjectFile,
    relocs: Seq<Reloc>,
    s: Seq<u8>,
    q: int,
    target: u64,
)
    requires
        apply::relocated(t, thunks, atom, obj, relocs, s) is Ok,
        0 <= q < relocs.len(),
        alone(relocs, atom, q),
        relocs[q].kind == RelocKind::Unsigned,
        relocs[q].length == RelocLength::Quad,
        targets::import_symbol(obj, relocs[q].referent, t.symbols) is None,
        targets::referent_target(t, obj, atom, relocs[q].kind, relocs[q].referent) == Ok::<
            u64,
            RelocFault,
        >(target),
        apply_laws::has_room(t, atom, relocs[q], s, 8),
    ensures
        ({
            let at = relocs[q].offset - atom.input_offset;
            let out = apply::relocated(t, thunks, atom, obj, relocs, s)->Ok_0;
            &&& out.len() == s.len()
            &&& bytes::le64(out, at) == (target + relocs[q].addend + bytes::le64(s, at))
                % apply_laws::span()
        }),
    decreases relocs.len(),
{
    let at = relocs[q].offset - atom.input_offset;
    let front = relocs.drop_last();
    let last = relocs.last();
    let out = apply::relocated(t, thunks, atom, obj, relocs, s)->Ok_0;
    let b = apply::relocated(t, thunks, atom, obj, front, s)->Ok_0;
    law_relocation_stays_in_place(t, thunks, atom, obj, last, b);
    assert(relocs[relocs.len() - 1] == last);
    if q < front.len() {
        assert(front[q] == relocs[q]);
        assert(alone(front, atom, q)) by {
            assert forall|p: int| 0 <= p < front.len() && p != q implies {
                let start = (#[trigger] front[p]).offset - front[q].offset;
                8 <= start || start + width(front[p]) <= 0
            } by {
                assert(front[p] == relocs[p]);
            }
        }
        lemma_pointer_among(t, thunks, atom, obj, front, s, q, target);
        lemma_word_kept(out, b, at);
    } else {
        assert(untouched(front, atom, at, 8)) by {
            assert forall|p: int| 0 <= p < front.len() implies {
                let start = (#[trigger] front[p]).offset - atom.input_offset;
                at + 8 <= start || start + width(front[p]) <= at
            } by {
                assert(front[p] == relocs[p]);
            }
        }
        law_other_bytes_stay(t, thunks, atom, obj, front, s, at, 8);
        lemma_word_kept(b, s, at);
        apply_laws::law_pointer_adds_up(t, thunks, atom, obj, last, b, target);
    }
}

/// No other relocation of the list changes a byte of the pointer that relocation `q` is for.
pub open spec fn alone(relocs: Seq<Reloc>, atom: Atom, q: int) -> bool {
    forall|p: int|
        0 <= p < relocs.len() && p != q ==> {
            let start = (#[trigger] relocs[p]).offset - relocs[q].offset;
            8 <= start || start + width(relocs[p]) <= 0
        }
}

proof fn lemma_sized_atoms(m: ThunkModel, sections: Seq<OutputSection>, c: Contents, n: nat)
    requires
        islands::sized(m, sections, c, n) is Ok,
    ensures
        (islands::sized(m, sections, c, n)->Ok_0).atoms == c.atoms,
    decreases n,
{
    if n > 0 {
        lemma_sized_atoms(m, sections, c, (n - 1) as nat);
    }
}

proof fn lemma_thunked_atoms(
    t: Targets,
    m: ThunkModel,
    sections: Seq<OutputSection>,
    c: Contents,
    n: nat,
)
    requires
        islands::thunked(t, m, sections, c, n) is Ok,
    ensures
        (islands::thunked(t, m, sections, c, n)->Ok_0).atoms == c.atoms,
    decreases n,
{
    if n > 0 {
        lemma_thunked_atoms(t, m, sections, c, (n - 1) as nat);
        let b = islands::thunked(t, m, sections, c, (n - 1) as nat)->Ok_0;
        reveal(islands::with_thunk);
        assert(islands::with_thunk(t, m, sections, b, n - 1) is Ok);
        assert((islands::with_thunk(t, m, sections, b, n - 1)->Ok_0).atoms == b.atoms);
    }
}

proof fn lemma_tables_atoms(
    t: Targets,
    plan: SyntheticPlan,
    offsets: Map<u32, u32>,
    sections: Seq<OutputSection>,
    c: Contents,
)
    requires
        image::after_tables(t, plan, offsets, sections, c) is Ok,
    ensures
        (image::after_tables(t, plan, offsets, sections, c)->Ok_0).atoms == c.atoms,
{
    let c1 = fill::got_contents(t, sections, plan, c)->Ok_0;
    assert(c1.atoms == c.atoms);
    let c2 = fill::stub_contents(t, sections, plan, c1)->Ok_0;
    assert(c2.atoms == c.atoms);
    let c3 = fill::lazy_contents(t, sections, plan, c2)->Ok_0;
    assert(c3.atoms == c.atoms);
    assert(fill::helper_contents(t, sections, plan, offsets, c3) is Ok);
}

/// Atoms outside `__thread_vars` end up as relocation leaves them.
#[verifier::rlimit(50)]
#[verifier::spinoff_prover]
proof fn lemma_final_atom(
    sections: Seq<OutputSection>,
    env: RelocEnv,
    plan: ApplyLayoutPlan,
    i: int,
    k: int,
)
    requires
        image::final_contents(sections, env, plan) is Ok,
        0 <= i < sections.len(),
        0 <= k < sections[i].atoms@.len(),
        !(sections[i].segment@ == "__DATA"@ && sections[i].name@ == "__thread_vars"@),
    ensures
        apply::atom_result(env, sections[i].atoms@[k]) is Ok,
        (image::final_contents(sections, env, plan)->Ok_0).atoms[i][k] == apply::atom_result(
            env,
            sections[i].atoms@[k],
        )->Ok_0,
{
    lemma_sections_fine(env, sections, i, k);
    let c = apply::regular_contents(env, sections)->Ok_0;
    assert(c.atoms[i] == apply::relocated_atoms(env, sections[i].atoms@));
    assert(c.atoms[i][k] == apply::atom_result(env, sections[i].atoms@[k])->Ok_0);
    let c2 = image::after_thunks(env.targets, plan.thunk_plan, sections, c)->Ok_0;
    if plan.thunk_plan is Some {
        let m = (plan.thunk_plan->0)@;
        lemma_sized_atoms(m, sections, c, m.islands.len());
        let b = islands::sized(m, sections, c, m.islands.len())->Ok_0;
        lemma_thunked_atoms(env.targets, m, sections, b, m.entries.len());
    }
    assert(c2.atoms == c.atoms);
    if plan.synthetic_plan is Some {
        let synthetic = *(plan.synthetic_plan->0);
        let c3 = crate::reloc::arm64::tlv::tlv_contents(
            env.targets,
            env.inputs,
            env.relocs,
            sections,
            synthetic,
            c2,
        )->Ok_0;
        crate::layout::lemma_section_at(sections, "__DATA"@, "__thread_vars"@);
        assert(c3.atoms[i] == c2.atoms[i]);
        lemma_tables_atoms(env.targets, synthetic, plan.lazy_bind_offsets@, sections, c3);
    }
}

proof fn lemma_sections_fine(env: RelocEnv, sections: Seq<OutputSection>, i: int, k: int)
    requires
        apply::sections_fault(env, sections) is None,
        0 <= i < sections.len(),
        0 <= k < sections[i].atoms@.len(),
    ensures
        apply::atom_result(env, sections[i].atoms@[k]) is Ok,
    decreases sections.len(),
{
    if i < sections.len() - 1 {
        assert(sections.drop_last()[i] == sections[i]);
        lemma_sections_fine(env, sections.drop_last(), i, k);
    } else {
        lemma_atoms_fine(env, sections[i].atoms@, k);
    }
}

proof fn lemma_atoms_fine(env: RelocEnv, atoms: Seq<OutputAtom>, k: int)
    requires
        apply::atoms_fault(env, atoms) is None,
        0 <= k < atoms.len(),
    ensures
        apply::atom_result(env, atoms[k]) is Ok,
    decreases atoms.len(),
{
    if k < atoms.len() - 1 {
        assert(atoms.drop_last()[k] == atoms[k]);
        lemma_atoms_fine(env, atoms.drop_last(), k);
    }
}

/// The `k`th atom of section `i` holds bytes of the input that are no unwind entries and no
/// thread-local descriptors.
pub open spec fn plain_atom(
    sections: Seq<OutputSection>,
    env: RelocEnv,
    obj: ObjectFile,
    i: int,
    k: int,
) -> bool {
    let placed = sections[i].atoms@[k];
    let a = env.targets.atoms[placed.atom.0 - 1];
    &&& 0 <= i < sections.len()
    &&& 0 <= k < sections[i].atoms@.len()
    &&& !(sections[i].segment@ == "__DATA"@ && sections[i].name@ == "__thread_vars"@)
    &&& a.size != 0
    &&& placed.data@.len() != 0
    &&& a.section != AtomSection::EhFrame
    &&& maps::object_for(env.inputs, a.origin) == Some(obj)
}

/// In the image, a pointer of the input to a symbol that an object defines holds the final
/// address of the symbol plus the addend plus what the input held there, whatever else
/// is relocated and made, as long as no other relocation is for the same bytes.
#[verifier::rlimit(50)]
#[verifier::spinoff_prover]
pub proof fn law_image_pointer(
    sections: Seq<OutputSection>,
    env: RelocEnv,
    plan: ApplyLayoutPlan,
    obj: ObjectFile,
    i: int,
    k: int,
    q: int,
    h: u32,
    id: SymbolId,
    di: int,
    dk: int,
)
    requires
        image::final_contents(sections, env, plan) is Ok,
        env.targets.atom_addrs == maps::atom_addresses(sections),
        plain_atom(sections, env, obj, i, k),
        ({
            let placed = sections[i].atoms@[k];
            let a = env.targets.atoms[placed.atom.0 - 1];
            let relocs = maps::relocs_of(env.relocs, a);
            let reloc = relocs[q];
            &&& 0 <= q < relocs.len()
            &&& alone(relocs, a, q)
            &&& reloc.kind == RelocKind::Unsigned
            &&& reloc.length == RelocLength::Quad
            &&& reloc.referent is Symbol
            &&& apply_laws::names_slot(env.targets.symbols, obj, reloc.referent->Symbol_0, h, id)
            &&& env.targets.symbols.at(id) is Defined
            &&& places::stands_at(
                sections,
                di,
                dk,
                env.targets.symbols.at(id)->Defined_atom.0,
            )
            &&& apply_laws::has_room(env.targets, a, reloc, placed.data@, 8)
        }),
    ensures
        ({
            let placed = sections[i].atoms@[k];
            let a = env.targets.atoms[placed.atom.0 - 1];
            let reloc = maps::relocs_of(env.relocs, a)[q];
            let at = reloc.offset - a.input_offset;
            let out = (image::final_contents(sections, env, plan)->Ok_0).atoms[i][k];
            &&& out.len() == placed.data@.len()
            &&& bytes::le64(out, at) == (places::final_address(sections, di, dk)
                + env.targets.symbols.at(id)->value + reloc.addend + bytes::le64(
                placed.data@,
                at,
            )) % apply_laws::span()
        }),
{
    let t = env.targets;
    let placed = sections[i].atoms@[k];
    let a = t.atoms[placed.atom.0 - 1];
    let relocs = maps::relocs_of(env.relocs, a);
    let reloc = relocs[q];
    lemma_final_atom(sections, env, plan, i, k);
    lemma_plain(sections, env, obj, i, k);
    lemma_pointer_to_symbol(
        t,
        env.thunks,
        sections,
        a,
        obj,
        relocs,
        placed.data@,
        q,
        h,
        id,
        di,
        dk,
    );
}

proof fn lemma_plain(
    sections: Seq<OutputSection>,
    env: RelocEnv,
    obj: ObjectFile,
    i: int,
    k: int,
)
    requires
        plain_atom(sections, env, obj, i, k),
    ensures
        ({
            let placed = sections[i].atoms@[k];
            let a = env.targets.atoms[placed.atom.0 - 1];
            apply::atom_result(env, placed) == apply::relocated(
                env.targets,
                env.thunks,
                a,
                obj,
                maps::relocs_of(env.relocs, a),
                placed.data@,
            )
        }),
{
}

#[verifier::rlimit(50)]
#[verifier::spinoff_prover]
proof fn lemma_pointer_to_symbol(
    t: Targets,
    thunks: PlacedThunks,
    sections: Seq<OutputSection>,
    a: Atom,
    obj: ObjectFile,
    relocs: Seq<Reloc>,
    s: Seq<u8>,
    q: int,
    h: u32,
    id: SymbolId,
    di: int,
    dk: int,
)
    requires
        apply::relocated(t, thunks, a, obj, relocs, s) is Ok,
        t.atom_addrs == maps::atom_addresses(sections),
        0 <= q < relocs.len(),
        alone(relocs, a, q),
        relocs[q].kind == RelocKind::Unsigned,
        relocs[q].length == RelocLength::Quad,
        relocs[q].referent is Symbol,
        apply_laws::names_slot(t.symbols, obj, relocs[q].referent->Symbol_0, h, id),
        t.symbols.at(id) is Defined,
        places::stands_at(sections, di, dk, t.symbols.at(id)->Defined_atom.0),
        apply_laws::has_room(t, a, relocs[q], s, 8),
    ensures
        ({
            let at = relocs[q].offset - a.input_offset;
            let out = apply::relocated(t, thunks, a, obj, relocs, s)->Ok_0;
            &&& out.len() == s.len()
            &&& bytes::le64(out, at) == (places::final_address(sections, di, dk) + t.symbols.at(
                id,
            )->value + relocs[q].addend + bytes::le64(s, at)) % apply_laws::span()
        }),
{
    let reloc = relocs[q];
    let idx = reloc.referent->Symbol_0;
    apply_laws::law_defined_symbol_address(
        t,
        sections,
        obj,
        a,
        reloc.kind,
        idx,
        h,
        id,
        di,
        dk,
    );
    let target = targets::referent_target(t, obj, a, reloc.kind, reloc.referent)->Ok_0;
    lemma_pointer_among(t, thunks, a, obj, relocs, s, q, target);
    lemma_mod_inside(
        places::final_address(sections, di, dk) + t.symbols.at(id)->value,
        reloc.addend + bytes::le64(s, reloc.offset - a.input_offset),
    );
}

proof fn lemma_mod_inside(a: int, b: int)
    ensures
        (a % apply_laws::span() + b) % apply_laws::span() == (a + b) % apply_laws::span(),
{
    vstd::arithmetic::div_mod::lemma_add_mod_noop_right(b, a, apply_laws::span());
}

/// In the image, bytes of the input that no relocation is for are what the input held.
pub proof fn law_image_keeps_bytes(
    sections: Seq<OutputSection>,
    env: RelocEnv,
    plan: ApplyLayoutPlan,
    obj: ObjectFile,
    i: int,
    k: int,
    at: int,
    n: int,
)
    requires
        image::final_contents(sections, env, plan) is Ok,
        plain_atom(sections, env, obj, i, k),
        0 <= at,
        at + n <= sections[i].atoms@[k].data@.len(),
        untouched(
            maps::relocs_of(
                env.relocs,
                env.targets.atoms[sections[i].atoms@[k].atom.0 - 1],
            ),
            env.targets.atoms[sections[i].atoms@[k].atom.0 - 1],
            at,
            n,
        ),
    ensures
        forall|j: int|
            at <= j < at + n ==> #[trigger] (image::final_contents(
                sections,
                env,
                plan,
            )->Ok_0).atoms[i][k][j] == sections[i].atoms@[k].data@[j],
{
    let placed = sections[i].atoms@[k];
    let a = env.targets.atoms[placed.atom.0 - 1];
    lemma_final_atom(sections, env, plan, i, k);
    law_other_bytes_stay(
        env.targets,
        env.thunks,
        a,
        obj,
        maps::relocs_of(env.relocs, a),
        placed.data@,
        at,
        n,
    );
}

proof fn lemma_holder(atoms: Seq<Atom>, ids: Seq<AtomId>, offset: int, own: AtomId)
    requires
        ids.contains(own),
        atoms[own.0 - 1].input_offset <= offset < targets::atom_end(atoms[own.0 - 1]),
        forall|q: int|
            0 <= q < ids.len() && (#[trigger] ids[q]) != own ==> !(atoms[ids[q].0 - 1].input_offset
                <= offset < targets::atom_end(atoms[ids[q].0 - 1])),
    ensures
        apply::holder(atoms, ids, offset) == Some(own),
    decreases ids.len(),
{
    let p = choose|p: int| 0 <= p < ids.len() && ids[p] == own;
    assert(ids[0] == ids.first());
    if ids.first() != own {
        let rest = ids.drop_first();
        assert(rest[p - 1] == own);
        assert forall|q: int| 0 <= q < rest.len() && (#[trigger] rest[q]) != own implies !(
        atoms[rest[q].0 - 1].input_offset <= offset < targets::atom_end(atoms[rest[q].0 - 1])) by {
            assert(rest[q] == ids[q + 1]);
        }
        lemma_holder(atoms, rest, offset, own);
    }
}

/// An unwind entry that pointed back to its common part in the input points back to it in
/// the image: four bytes into the entry, less the distance that stands there, is the final
/// address of the atom that held the common part.
#[verifier::rlimit(50)]
#[verifier::spinoff_prover]
pub proof fn law_unwind_entry_finds_common_part(t: Targets, atom: Atom, s: Seq<u8>, own: AtomId)
    requires
        atom.section == AtomSection::EhFrame,
        8 <= s.len(),
        bytes::le32(s, 4) != 0,
        atom.input_offset + 4 <= u32::MAX,
        bytes::le32(s, 4) <= atom.input_offset + 4,
        t.atom_addrs.contains_key(atom.id.0),
        t.atom_addrs.contains_key(own.0),
        ({
            let ids = atom::section_atoms(
                t.atoms,
                atom::section_key(atom.origin, atom.input_section),
            );
            let offset = atom.input_offset + 4 - bytes::le32(s, 4);
            &&& ids.contains(own)
            &&& t.atoms[own.0 - 1].input_offset <= offset < targets::atom_end(t.atoms[own.0 - 1])
            &&& forall|q: int|
                0 <= q < ids.len() && (#[trigger] ids[q]) != own ==> !(
                t.atoms[ids[q].0 - 1].input_offset <= offset < targets::atom_end(
                    t.atoms[ids[q].0 - 1],
                ))
        }),
    ensures
        ({
            let r = apply::eh_frame_patch(t, atom, s);
            &&& r is Ok
            &&& apply_laws::changed_only(s, r->Ok_0, 4, 4)
            &&& (t.atom_addrs[atom.id.0] + 4 - bytes::le32(r->Ok_0, 4)) % 0x1_0000_0000
                == t.atom_addrs[own.0] % 0x1_0000_0000
        }),
{
    let ids = atom::section_atoms(t.atoms, atom::section_key(atom.origin, atom.input_section));
    let offset = atom.input_offset + 4 - bytes::le32(s, 4);
    lemma_holder(t.atoms, ids, offset, own);
    let base = t.atom_addrs[atom.id.0];
    let cie = t.atom_addrs[own.0];
    let wide = base.wrapping_add(4).wrapping_sub(cie);
    let v = wide as u32;
    assert(v == wide % 0x1_0000_0000) by {
        assert(wide as u32 == wide % 0x1_0000_0000) by (bit_vector);
    }
    bytes::lemma_replaced(s, 4, bytes::le32_bytes(v));
    let out = bytes::replaced(s, 4, bytes::le32_bytes(v));
    bytes::lemma_le32_of_bytes(out, 4, v);
    lemma_distance(base as int, cie as int, wide as int);
}

proof fn lemma_distance(base: int, cie: int, wide: int)
    requires
        wide == (base + 4 - cie) % 0x1_0000_0000_0000_0000,
    ensures
        (base + 4 - wide % 0x1_0000_0000) % 0x1_0000_0000 == cie % 0x1_0000_0000,
{
    let q = (base + 4 - cie) / 0x1_0000_0000_0000_0000;
    let r = wide / 0x1_0000_0000;
    assert(base + 4 - cie == q * 0x1_0000_0000_0000_0000 + wide);
    assert(wide == r * 0x1_0000_0000 + wide % 0x1_0000_0000);
    assert(base + 4 - wide % 0x1_0000_0000 == cie + (q * 0x1_0000_0000 + r) * 0x1_0000_0000);
    vstd::arithmetic::div_mod::lemma_mod_multiples_vanish(
        q * 0x1_0000_0000 + r,
        cie,
        0x1_0000_0000,
    );
}

} // verus!
