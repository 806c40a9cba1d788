//! Atoms: the pieces of input sections that the linker places one by one.

use std::collections::HashMap;
use vstd::prelude::*;
use crate::resolve::{AtomId, InputId, SymbolId};

verus! {

broadcast use vstd::std_specs::hash::group_hash_axioms;

/// What kind of content an atom has.
#[derive(Debug, Clone, Copy, PartialEq, Eq, Structural)]
pub enum AtomSection {
    Text,
    Data,
    EhFrame,
    Other,
}

/// Marks on an atom, one per bit.
#[derive(Debug, Clone, Copy, PartialEq, Eq, Structural)]
pub struct AtomFlags(pub u32);

impl AtomFlags {
    /// No mark.
    pub fn none() -> (r: AtomFlags)
        ensures
            r == AtomFlags(0),
    {
        AtomFlags(0)
    }
}

/// A second entry point of an atom.
#[derive(Debug, Clone, Copy, PartialEq, Eq, Structural)]
pub struct AltEntry {
    pub symbol: SymbolId,
    pub offset_within_atom: u32,
}

#[derive(Debug, Clone, PartialEq, Eq)]
pub struct Atom {
    pub id: AtomId,
    pub origin: InputId,
    /// Number of the section in the input, counted from one.
    pub input_section: u8,
    pub section: AtomSection,
    /// Where in that section the atom starts.
    pub input_offset: u32,
    pub size: u32,
    pub align_pow2: u8,
    pub owner: Option<SymbolId>,
    pub alt_entries: Vec<AltEntry>,
    pub data: Vec<u8>,
    pub flags: AtomFlags,
    pub parent_of: Option<AtomId>,
}

/// All atoms of a link. Ids count from one; zero stands for no atom.
#[derive(Debug)]
pub struct AtomTable {
    atoms: Vec<Atom>,
}

/// An input section as one number.
pub open spec fn section_key(origin: InputId, section: u8) -> u64 {
    (origin.0 * 0x100 + section) as u64
}

pub fn key_of_section(origin: InputId, section: u8) -> (r: u64)
    ensures
        r == section_key(origin, section),
{
    origin.0 as u64 * 0x100 + section as u64
}

impl View for AtomTable {
    type V = Seq<Atom>;

    closed spec fn view(&self) -> Seq<Atom> {
        self.atoms@
    }
}

/// The ids of the atoms of one input section, in their order.
pub open spec fn section_atoms(atoms: Seq<Atom>, key: u64) -> Seq<AtomId>
    decreases atoms.len(),
{
    if atoms.len() == 0 {
        seq![]
    } else {
        let rest = section_atoms(atoms.drop_last(), key);
        if section_key(atoms.last().origin, atoms.last().input_section) == key {
            rest.push(atoms.last().id)
        } else {
            rest
        }
    }
}

/// The atoms of each input section.
pub struct SectionIndex {
    map: HashMap<u64, Vec<AtomId>>,
}

impl SectionIndex {
    /// The index lists exactly the atoms of the table.
    pub closed spec fn lists(self, atoms: Seq<Atom>) -> bool {
        forall|key: u64|
            #![trigger section_atoms(atoms, key)]
            if self.map@.contains_key(key) {
                self.map@[key]@ == section_atoms(atoms, key)
            } else {
                section_atoms(atoms, key).len() == 0
            }
    }

    /// The atoms of one input section; nothing where it has none.
    pub(crate) fn get(&self, origin: InputId, section: u8, Ghost(atoms): Ghost<Seq<Atom>>) -> (r: Option<
        &Vec<AtomId>,
    >)
        requires
            self.lists(atoms),
        ensures
            match r {
                Some(ids) => ids@ == section_atoms(atoms, section_key(origin, section)),
                None => section_atoms(atoms, section_key(origin, section)).len() == 0,
            },
    {
        self.map.get(&key_of_section(origin, section))
    }
}

impl AtomTable {
    /// Every atom carries its own id, and an id fits its field.
    pub open spec fn wf(self) -> bool {
        &&& self@.len() < u32::MAX
        &&& forall|i: int| 0 <= i < self@.len() ==> (#[trigger] self@[i]).id == AtomId((i + 1) as u32)
    }

    /// The atom with this id exists.
    pub open spec fn has(self, id: AtomId) -> bool {
        1 <= id.0 <= self@.len()
    }

    pub open spec fn spec_get(self, id: AtomId) -> Atom {
        self@[id.0 - 1]
    }

    pub fn new() -> (r: AtomTable)
        ensures
            r.wf(),
            r@ == Seq::<Atom>::empty(),
    {
        AtomTable { atoms: Vec::new() }
    }

    /// Adds an atom, and gives it its id.
    pub fn push(&mut self, atom: Atom) -> (id: AtomId)
        requires
            old(self).wf(),
            old(self)@.len() + 1 < u32::MAX,
        ensures
            final(self).wf(),
            id == AtomId((old(self)@.len() + 1) as u32),
            final(self)@ == old(self)@.push(Atom { id, ..atom }),
    {
        let id = AtomId((self.atoms.len() + 1) as u32);
        let mut atom = atom;
        atom.id = id;
        self.atoms.push(atom);
        id
    }

    pub fn get(&self, id: AtomId) -> (r: &Atom)
        requires
            self.has(id),
        ensures
            *r == self.spec_get(id),
    {
        &self.atoms[id.0 as usize - 1]
    }

    pub fn len(&self) -> (r: usize)
        ensures
            r == self@.len(),
    {
        self.atoms.len()
    }

    pub fn is_empty(&self) -> (r: bool)
        ensures
            r == (self@.len() == 0),
    {
        self.atoms.len() == 0
    }

    /// The atoms of each input section, in table order.
    pub fn by_input_section(&self) -> (r: SectionIndex)
        ensures
            r.lists(self@),
    {
        let mut map: HashMap<u64, Vec<AtomId>> = HashMap::new();
        let mut i: usize = 0;
        while i < self.atoms.len()
            invariant
                i <= self.atoms@.len(),
                (SectionIndex { map }).lists(self.atoms@.take(i as int)),
            decreases self.atoms@.len() - i,
        {
            let key: u64 = key_of_section(self.atoms[i].origin, self.atoms[i].input_section);
            let ghost before = self.atoms@.take(i as int);
            let ghost after = self.atoms@.take(i + 1);
            let ghost old_map = map@;
            assert(after.drop_last() =~= before);
            let ghost listed = section_atoms(before, key);
            let mut ids: Vec<AtomId> = match map.remove(&key) {
                Some(ids) => ids,
                None => Vec::new(),
            };
            assert(ids@ =~= listed);
            ids.push(self.atoms[i].id);
            map.insert(key, ids);
            proof {
                assert forall|k: u64|
                    #![trigger section_atoms(after, k)]
                    if map@.contains_key(k) {
                        map@[k]@ == section_atoms(after, k)
                    } else {
                        section_atoms(after, k).len() == 0
                    } by {
                    if k != key {
                        assert(section_atoms(after, k) == section_atoms(before, k));
                        assert(old_map.contains_key(k) == map@.contains_key(k));
                    }
                }
            }
            i += 1;
        }
        assert(self.atoms@.take(i as int) =~= self.atoms@);
        SectionIndex { map }
    }
}

} // verus!
