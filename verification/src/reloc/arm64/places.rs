//! Where atoms stand in a layout, and that every table of places says the same.

use vstd::prelude::*;
use crate::reloc::arm64::maps;
use crate::section::{OutputAtom, OutputSection};

verus! {

/// The atom stands in section `i`, as its `k`th, and nowhere else.
pub open spec fn stands_at(sections: Seq<OutputSection>, i: int, k: int, atom: u32) -> bool {
    &&& 0 <= i < sections.len()
    &&& 0 <= k < sections[i].atoms@.len()
    &&& sections[i].atoms@[k].atom.0 == atom
    &&& forall|j: int, l: int|
        0 <= j < sections.len() && 0 <= l < sections[j].atoms@.len() && (
        #[trigger] sections[j].atoms@[l]).atom.0 == atom ==> j == i && l == k
}

/// The final address of the `k`th atom of section `i`.
pub open spec fn final_address(sections: Seq<OutputSection>, i: int, k: int) -> int {
    (sections[i].addr + sections[i].atoms@[k].offset) % 0x1_0000_0000_0000_0000
}

proof fn lemma_atoms_absent(m: Map<u32, u64>, base: u64, atoms: Seq<OutputAtom>, a: u32)
    requires
        forall|l: int| 0 <= l < atoms.len() ==> (#[trigger] atoms[l]).atom.0 != a,
    ensures
        maps::with_atoms(m, base, atoms).contains_key(a) == m.contains_key(a),
        m.contains_key(a) ==> maps::with_atoms(m, base, atoms)[a] == m[a],
    decreases atoms.len(),
{
    if atoms.len() > 0 {
        assert(atoms[atoms.len() - 1].atom.0 != a);
        let rest = atoms.drop_last();
        assert forall|l: int| 0 <= l < rest.len() implies (#[trigger] rest[l]).atom.0 != a by {
            assert(rest[l] == atoms[l]);
        }
        lemma_atoms_absent(m, base, rest, a);
    }
}

proof fn lemma_atoms_present(m: Map<u32, u64>, base: u64, atoms: Seq<OutputAtom>, k: int, a: u32)
    requires
        0 <= k < atoms.len(),
        atoms[k].atom.0 == a,
        forall|l: int| 0 <= l < atoms.len() && (#[trigger] atoms[l]).atom.0 == a ==> l == k,
    ensures
        maps::with_atoms(m, base, atoms).contains_key(a),
        maps::with_atoms(m, base, atoms)[a] == base.wrapping_add(atoms[k].offset),
    decreases atoms.len(),
{
    if k < atoms.len() - 1 {
        assert(atoms[atoms.len() - 1].atom.0 != a);
        let rest = atoms.drop_last();
        assert(rest[k] == atoms[k]);
        assert forall|l: int| 0 <= l < rest.len() && (#[trigger] rest[l]).atom.0 == a implies l
            == k by {
            assert(rest[l] == atoms[l]);
        }
        lemma_atoms_present(m, base, rest, k, a);
    }
}

/// The address that relocation and the symbol table use for an atom is that of its place
/// in the layout.
pub proof fn law_atom_address(sections: Seq<OutputSection>, i: int, k: int, a: u32)
    requires
        stands_at(sections, i, k, a),
    ensures
        maps::atom_addresses(sections).contains_key(a),
        maps::atom_addresses(sections)[a] == final_address(sections, i, k),
    decreases sections.len(),
{
    let n = sections.len() - 1;
    let rest = sections.drop_last();
    let last = sections.last();
    let m = maps::atom_addresses(rest);
    if i < n {
        lemma_fewer(sections, i, k, a);
        law_atom_address(rest, i, k, a);
        assert forall|l: int| 0 <= l < last.atoms@.len() implies (
        #[trigger] last.atoms@[l]).atom.0 != a by {
            assert(sections[n].atoms@[l] == last.atoms@[l]);
        }
        lemma_atoms_absent(m, last.addr, last.atoms@, a);
    } else {
        assert forall|l: int|
            0 <= l < last.atoms@.len() && (#[trigger] last.atoms@[l]).atom.0 == a implies l == k by {
            assert(sections[n].atoms@[l] == last.atoms@[l]);
        }
        lemma_atoms_present(m, last.addr, last.atoms@, k, a);
    }
}

pub proof fn lemma_fewer(sections: Seq<OutputSection>, i: int, k: int, a: u32)
    requires
        stands_at(sections, i, k, a),
        i < sections.len() - 1,
    ensures
        stands_at(sections.drop_last(), i, k, a),
        final_address(sections.drop_last(), i, k) == final_address(sections, i, k),
{
    let rest = sections.drop_last();
    assert(rest[i] == sections[i]);
    assert forall|j: int, l: int|
        0 <= j < rest.len() && 0 <= l < rest[j].atoms@.len() && (
        #[trigger] rest[j].atoms@[l]).atom.0 == a implies j == i && l == k by {
        assert(rest[j] == sections[j]);
        assert(sections[j].atoms@[l].atom.0 == a);
    }
}

proof fn lemma_places_absent(m: Map<u32, usize>, place: usize, atoms: Seq<OutputAtom>, a: u32)
    requires
        forall|l: int| 0 <= l < atoms.len() ==> (#[trigger] atoms[l]).atom.0 != a,
    ensures
        maps::with_places(m, place, atoms).contains_key(a) == m.contains_key(a),
        m.contains_key(a) ==> maps::with_places(m, place, atoms)[a] == m[a],
    decreases atoms.len(),
{
    if atoms.len() > 0 {
        assert(atoms[atoms.len() - 1].atom.0 != a);
        let rest = atoms.drop_last();
        assert forall|l: int| 0 <= l < rest.len() implies (#[trigger] rest[l]).atom.0 != a by {
            assert(rest[l] == atoms[l]);
        }
        lemma_places_absent(m, place, rest, a);
    }
}

proof fn lemma_places_present(m: Map<u32, usize>, place: usize, atoms: Seq<OutputAtom>, k: int)
    requires
        0 <= k < atoms.len(),
    ensures
        maps::with_places(m, place, atoms).contains_key(atoms[k].atom.0),
        maps::with_places(m, place, atoms)[atoms[k].atom.0] == place,
    decreases atoms.len(),
{
    if k < atoms.len() - 1 {
        assert(atoms.drop_last()[k] == atoms[k]);
        lemma_places_present(m, place, atoms.drop_last(), k);
    }
}

/// The section of an atom is the one that it stands in.
pub proof fn law_atom_section(sections: Seq<OutputSection>, i: int, k: int, a: u32)
    requires
        stands_at(sections, i, k, a),
        sections.len() <= usize::MAX,
    ensures
        maps::atom_sections(sections).contains_key(a),
        maps::atom_sections(sections)[a] == i,
    decreases sections.len(),
{
    let n = sections.len() - 1;
    let rest = sections.drop_last();
    let last = sections.last();
    let m = maps::atom_sections(rest);
    if i < n {
        lemma_fewer(sections, i, k, a);
        law_atom_section(rest, i, k, a);
        assert forall|l: int| 0 <= l < last.atoms@.len() implies (
        #[trigger] last.atoms@[l]).atom.0 != a by {
            assert(sections[n].atoms@[l] == last.atoms@[l]);
        }
        lemma_places_absent(m, n as usize, last.atoms@, a);
    } else {
        lemma_places_present(m, n as usize, last.atoms@, k);
    }
}

} // verus!
