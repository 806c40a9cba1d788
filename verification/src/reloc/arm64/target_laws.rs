//! Where relocations lead that name no symbol of the link: into input sections.

use vstd::prelude::*;
use crate::atom;
use crate::atom::Atom;
use crate::input::ObjectFile;
use crate::macho::writer::place_laws;
use crate::reloc::arm64::apply_laws;
use crate::reloc::arm64::maps;
use crate::reloc::arm64::places;
use crate::reloc::arm64::targets;
use crate::reloc::arm64::targets::Targets;
use crate::reloc::arm64::RelocFault;
use crate::reloc::{Referent, RelocKind};
use crate::resolve::{AtomId, InputId};
use crate::section::{OutputAtom, OutputSection};
use crate::symbol::SymKind;

verus! {

/// The atom `x` covers the offset of the input's section, and no other atom of the section
/// covers it or ends there.
pub open spec fn covers(atoms: Seq<Atom>, x: int, origin: InputId, section: u8, offset: u32) -> bool {
    &&& 0 <= x < atoms.len()
    &&& atoms[x].origin == origin
    &&& atoms[x].input_section == section
    &&& atoms[x].input_offset <= offset < atoms[x].input_offset + atoms[x].size <= u32::MAX
    &&& forall|y: int|
        0 <= y < atoms.len() && y != x && (#[trigger] atoms[y]).origin == origin
            && atoms[y].input_section == section ==> offset < atoms[y].input_offset
            || atoms[y].input_offset + atoms[y].size < offset
}

proof fn lemma_covering(atoms: Seq<Atom>, ids: Seq<AtomId>, offset: u32, own: AtomId)
    requires
        ids.contains(own),
        atoms[own.0 - 1].input_offset <= offset < targets::atom_end(atoms[own.0 - 1]),
        forall|q: int|
            0 <= q < ids.len() && (#[trigger] ids[q]) != own ==> offset
                < atoms[ids[q].0 - 1].input_offset || targets::atom_end(atoms[ids[q].0 - 1])
                < offset,
    ensures
        targets::covering(atoms, ids, offset) == Some(
            (own, (offset - atoms[own.0 - 1].input_offset) as u32),
        ),
    decreases ids.len(),
{
    let p = choose|p: int| 0 <= p < ids.len() && ids[p] == own;
    assert(ids[0] == ids.first());
    if ids.first() != own {
        let rest = ids.drop_first();
        assert(rest[p - 1] == own);
        assert forall|q: int| 0 <= q < rest.len() && (#[trigger] rest[q]) != own implies offset
            < atoms[rest[q].0 - 1].input_offset || targets::atom_end(atoms[rest[q].0 - 1])
            < offset by {
            assert(rest[q] == ids[q + 1]);
        }
        let a = atoms[ids.first().0 - 1];
        assert(!(a.input_offset <= offset < targets::atom_end(a)));
        assert(offset != targets::atom_end(a)) by {
            if offset < a.input_offset && offset == targets::atom_end(a) {
                assert(a.input_offset <= targets::atom_end(a));
            }
        }
        lemma_covering(atoms, rest, offset, own);
    }
}

proof fn lemma_place(
    t: Targets,
    sections: Seq<OutputSection>,
    origin: InputId,
    section: u8,
    offset: u32,
    x: int,
    b: u32,
    i: int,
    k: int,
)
    requires
        t.atom_addrs == maps::atom_addresses(sections),
        place_laws::numbered(t.atoms),
        covers(t.atoms, x, origin, section, offset),
        apply_laws::folded_into(t.redirects, (x + 1) as u32, b),
        places::stands_at(sections, i, k, b),
    ensures
        ({
            let r = targets::place_of_offset(t, origin, section, offset);
            &&& r is At
            &&& r->At_0 == (places::final_address(sections, i, k) + (offset
                - t.atoms[x].input_offset)) % apply_laws::span()
        }),
{
    let key = atom::section_key(origin, section);
    let ids = atom::section_atoms(t.atoms, key);
    let own = AtomId((x + 1) as u32);
    place_laws::lemma_section_atoms(t.atoms, t.atoms, key);
    assert(ids.contains(own));
    assert forall|q: int| 0 <= q < ids.len() && (#[trigger] ids[q]) != own implies offset
        < t.atoms[ids[q].0 - 1].input_offset || targets::atom_end(t.atoms[ids[q].0 - 1])
        < offset by {
        assert(ids.contains(ids[q]));
        let y = ids[q].0 - 1;
        place_laws::lemma_key(t.atoms[y].origin, t.atoms[y].input_section, origin, section);
        assert(y != x);
    }
    lemma_covering(t.atoms, ids, offset, own);
    apply_laws::lemma_folded(t.redirects, own.0, b);
    places::law_atom_address(sections, i, k, b);
}

/// A relocation against a symbol that only its object knows leads to the symbol's place: to
/// the atom that the covering one was folded into, as far behind its start as the symbol
/// lies behind the start of the covering one.
pub proof fn law_section_symbol_address(
    t: Targets,
    sections: Seq<OutputSection>,
    obj: ObjectFile,
    atom: Atom,
    kind: RelocKind,
    idx: u32,
    section: int,
    x: int,
    b: u32,
    i: int,
    k: int,
)
    requires
        t.atom_addrs == maps::atom_addresses(sections),
        idx < obj.symbols@.len(),
        targets::referent_symbol(obj, Referent::Symbol(idx), t.symbols) is None,
        obj.symbols@[idx as int].spec_kind() == SymKind::Sect,
        obj.section_index(obj.symbols@[idx as int]) == Some(section),
        obj.sections@[section].addr <= obj.symbols@[idx as int].raw.n_value,
        obj.symbols@[idx as int].raw.n_value - obj.sections@[section].addr <= u32::MAX,
        place_laws::numbered(t.atoms),
        covers(
            t.atoms,
            x,
            atom.origin,
            obj.symbols@[idx as int].raw.n_sect,
            (obj.symbols@[idx as int].raw.n_value - obj.sections@[section].addr) as u32,
        ),
        apply_laws::folded_into(t.redirects, (x + 1) as u32, b),
        places::stands_at(sections, i, k, b),
    ensures
        ({
            let r = targets::referent_target(t, obj, atom, kind, Referent::Symbol(idx));
            let sym = obj.symbols@[idx as int];
            &&& targets::import_symbol(obj, Referent::Symbol(idx), t.symbols) is None
            &&& r is Ok
            &&& r->Ok_0 == (places::final_address(sections, i, k) + (sym.raw.n_value
                - obj.sections@[section].addr - t.atoms[x].input_offset)) % apply_laws::span()
        }),
{
    let sym = obj.symbols@[idx as int];
    let offset = (sym.raw.n_value - obj.sections@[section].addr) as u32;
    lemma_place(t, sections, atom.origin, sym.raw.n_sect, offset, x, b, i, k);
    assert(targets::section_relative(obj, sym) == offset);
}

/// A relocation against an absolute symbol that only its object knows means its value.
pub proof fn law_absolute_symbol_address(
    t: Targets,
    obj: ObjectFile,
    atom: Atom,
    kind: RelocKind,
    idx: u32,
)
    requires
        idx < obj.symbols@.len(),
        targets::referent_symbol(obj, Referent::Symbol(idx), t.symbols) is None,
        obj.symbols@[idx as int].spec_kind() == SymKind::Abs,
    ensures
        targets::referent_target(t, obj, atom, kind, Referent::Symbol(idx)) == Ok::<
            u64,
            RelocFault,
        >(obj.symbols@[idx as int].raw.n_value),
{
}

proof fn lemma_origins(
    m: Map<u64, u64>,
    addr: u64,
    placed: Seq<OutputAtom>,
    table: Seq<Atom>,
    key: u64,
)
    ensures
        m.contains_key(key) ==> maps::with_origins(m, addr, placed, table).contains_key(key)
            && maps::with_origins(m, addr, placed, table)[key] == m[key],
        !m.contains_key(key) ==> (maps::with_origins(m, addr, placed, table).contains_key(key)
            <==> exists|k: int|
            0 <= k < placed.len() && from_section(table, #[trigger] placed[k], key)),
        !m.contains_key(key) && maps::with_origins(m, addr, placed, table).contains_key(key)
            ==> maps::with_origins(m, addr, placed, table)[key] == addr,
    decreases placed.len(),
{
    if placed.len() > 0 {
        let front = placed.drop_last();
        lemma_origins(m, addr, front, table, key);
        let last = placed.len() - 1;
        if exists|k: int| 0 <= k < placed.len() && from_section(table, #[trigger] placed[k], key) {
            let k = choose|k: int|
                0 <= k < placed.len() && from_section(table, #[trigger] placed[k], key);
            if k < last {
                assert(front[k] == placed[k]);
            }
        }
        if exists|k: int| 0 <= k < front.len() && from_section(table, #[trigger] front[k], key) {
            let k = choose|k: int|
                0 <= k < front.len() && from_section(table, #[trigger] front[k], key);
            assert(placed[k] == front[k]);
        }
        assert(placed[last] == placed.last());
    }
}

/// The atom comes from the input section with this key.
pub open spec fn from_section(table: Seq<Atom>, placed: OutputAtom, key: u64) -> bool {
    let a = table[placed.atom.0 - 1];
    (a.origin.0 * 0x100 + a.input_section) as u64 == key
}

proof fn lemma_section_address(
    sections: Seq<OutputSection>,
    table: Seq<Atom>,
    key: u64,
    i: int,
    k: int,
)
    requires
        0 <= i < sections.len(),
        0 <= k < sections[i].atoms@.len(),
        from_section(table, sections[i].atoms@[k], key),
        forall|j: int, l: int|
            0 <= j < i && 0 <= l < sections[j].atoms@.len() ==> !from_section(
                table,
                #[trigger] sections[j].atoms@[l],
                key,
            ),
    ensures
        maps::section_addresses(sections, table).contains_key(key),
        maps::section_addresses(sections, table)[key] == sections[i].addr,
    decreases sections.len(),
{
    let front = sections.drop_last();
    let last = sections.last();
    let m = maps::section_addresses(front, table);
    lemma_origins(m, last.addr, last.atoms@, table, key);
    if i < front.len() {
        assert(front[i] == sections[i]);
        assert forall|j: int, l: int| 0 <= j < i && 0 <= l < front[j].atoms@.len() implies
            !from_section(table, #[trigger] front[j].atoms@[l], key) by {
            assert(front[j] == sections[j]);
            assert(!from_section(table, sections[j].atoms@[l], key));
        }
        lemma_section_address(front, table, key, i, k);
    } else {
        lemma_no_address(front, table, key, sections);
        assert(last.atoms@[k] == sections[i].atoms@[k]);
    }
}

proof fn lemma_no_address(
    front: Seq<OutputSection>,
    table: Seq<Atom>,
    key: u64,
    sections: Seq<OutputSection>,
)
    requires
        front.len() <= sections.len(),
        forall|j: int| 0 <= j < front.len() ==> #[trigger] front[j] == sections[j],
        forall|j: int, l: int|
            0 <= j < front.len() && 0 <= l < sections[j].atoms@.len() ==> !from_section(
                table,
                #[trigger] sections[j].atoms@[l],
                key,
            ),
    ensures
        !maps::section_addresses(front, table).contains_key(key),
    decreases front.len(),
{
    if front.len() > 0 {
        let less = front.drop_last();
        assert forall|j: int| 0 <= j < less.len() implies #[trigger] less[j] == sections[j] by {
            assert(less[j] == front[j]);
        }
        lemma_no_address(less, table, key, sections);
        let last = front.len() - 1;
        assert(front[last] == sections[last]);
        lemma_origins(
            maps::section_addresses(less, table),
            front.last().addr,
            front.last().atoms@,
            table,
            key,
        );
        if exists|k: int|
            0 <= k < front.last().atoms@.len() && from_section(
                table,
                #[trigger] front.last().atoms@[k],
                key,
            ) {
            let k = choose|k: int|
                0 <= k < front.last().atoms@.len() && from_section(
                    table,
                    #[trigger] front.last().atoms@[k],
                    key,
                );
            assert(!from_section(table, sections[last].atoms@[k], key));
        }
    }
}

/// A relocation against a section means the address of the first output section that holds
/// an atom of it.
pub proof fn law_section_address(
    t: Targets,
    sections: Seq<OutputSection>,
    obj: ObjectFile,
    atom: Atom,
    kind: RelocKind,
    idx: u8,
    i: int,
    k: int,
)
    requires
        t.section_addrs == maps::section_addresses(sections, t.atoms),
        0 <= i < sections.len(),
        0 <= k < sections[i].atoms@.len(),
        from_section(
            t.atoms,
            sections[i].atoms@[k],
            (atom.origin.0 * 0x100 + idx) as u64,
        ),
        forall|j: int, l: int|
            0 <= j < i && 0 <= l < sections[j].atoms@.len() ==> !from_section(
                t.atoms,
                #[trigger] sections[j].atoms@[l],
                (atom.origin.0 * 0x100 + idx) as u64,
            ),
    ensures
        targets::referent_target(t, obj, atom, kind, Referent::Section(idx)) == Ok::<
            u64,
            RelocFault,
        >(sections[i].addr),
{
    lemma_section_address(sections, t.atoms, (atom.origin.0 * 0x100 + idx) as u64, i, k);
}

} // verus!
