//! Where everything has ended up: address tables made from a finished layout.

use std::collections::HashMap;
use vstd::prelude::*;
use crate::atom;
use crate::atom::{key_of_section, Atom, AtomTable};
use crate::input::ObjectFile;
use crate::layout;
use crate::layout::{Layout, LayoutInput};
use crate::reloc;
use crate::reloc::arm64::targets::Targets;
use crate::reloc::{ParsedRelocCache, Reloc};
use crate::resolve::table::TableState;
use crate::resolve::InputId;
use crate::section::{OutputAtom, OutputSection};
use crate::synth::{
    SlotEntry, SyntheticPlan, DYLD_PRIVATE_SIZE, STUB_HELPER_ENTRY_SIZE, STUB_HELPER_HEADER_SIZE,
    STUB_SIZE,
};
use crate::text::same_text;

verus! {

broadcast use vstd::std_specs::hash::group_hash_axioms;

/// Which of the inputs has this id; the last, should several have it.
pub open spec fn input_at(inputs: Seq<LayoutInput>, id: InputId) -> Option<int>
    decreases inputs.len(),
{
    if inputs.len() == 0 {
        None
    } else if inputs.last().id == id {
        Some(inputs.len() - 1)
    } else {
        input_at(inputs.drop_last(), id)
    }
}

pub proof fn lemma_input_at(inputs: Seq<LayoutInput>, id: InputId)
    ensures
        match input_at(inputs, id) {
            Some(i) => 0 <= i < inputs.len() && inputs[i].id == id,
            None => forall|k: int| 0 <= k < inputs.len() ==> (#[trigger] inputs[k]).id != id,
        },
    decreases inputs.len(),
{
    if inputs.len() > 0 {
        lemma_input_at(inputs.drop_last(), id);
        assert forall|k: int| 0 <= k < inputs.len() - 1 implies inputs.drop_last()[k]
            == #[trigger] inputs[k] by {}
    }
}

/// The object file with this id.
pub open spec fn object_for(inputs: Seq<LayoutInput>, id: InputId) -> Option<ObjectFile> {
    match input_at(inputs, id) {
        Some(i) => Some(*inputs[i].object),
        None => None,
    }
}

/// The inputs of a link, found by their ids.
pub struct InputMap<'a> {
    inputs: &'a [LayoutInput<'a>],
    places: HashMap<u32, usize>,
}

impl<'a> View for InputMap<'a> {
    type V = Seq<LayoutInput<'a>>;

    closed spec fn view(&self) -> Seq<LayoutInput<'a>> {
        self.inputs@
    }
}

impl<'a> InputMap<'a> {
    pub closed spec fn wf(self) -> bool {
        forall|id: u32|
            #![trigger self.places@.contains_key(id)]
            #![trigger input_at(self.inputs@, InputId(id))]
            match input_at(self.inputs@, InputId(id)) {
                Some(i) => self.places@.contains_key(id) && self.places@[id] == i,
                None => !self.places@.contains_key(id),
            }
    }

    pub fn new(inputs: &'a [LayoutInput<'a>]) -> (r: InputMap<'a>)
        ensures
            r.wf(),
            r@ == inputs@,
    {
        let mut places: HashMap<u32, usize> = HashMap::new();
        let mut i: usize = 0;
        while i < inputs.len()
            invariant
                i <= inputs@.len(),
                forall|id: u32|
                    #![trigger places@.contains_key(id)]
                    match input_at(inputs@.take(i as int), InputId(id)) {
                        Some(k) => places@.contains_key(id) && places@[id] == k,
                        None => !places@.contains_key(id),
                    },
            decreases inputs@.len() - i,
        {
            assert(inputs@.take(i + 1).drop_last() =~= inputs@.take(i as int));
            places.insert(inputs[i].id.0, i);
            i += 1;
        }
        assert(inputs@.take(i as int) =~= inputs@);
        InputMap { inputs, places }
    }

    pub fn place(&self, id: InputId) -> (r: Option<usize>)
        requires
            self.wf(),
        ensures
            match r {
                Some(i) => input_at(self@, id) == Some(i as int) && i < self@.len(),
                None => input_at(self@, id) is None,
            },
    {
        proof {
            lemma_input_at(self.inputs@, id);
            assert(InputId(id.0) == id);
            assert(self.places@.contains_key(id.0) == (input_at(self@, InputId(id.0)) is Some));
        }
        match self.places.get(&id.0) {
            Some(i) => Some(*i),
            None => None,
        }
    }

    pub fn get(&self, id: InputId) -> (r: Option<&'a ObjectFile>)
        requires
            self.wf(),
        ensures
            match r {
                Some(obj) => object_for(self@, id) == Some(*obj),
                None => object_for(self@, id) is None,
            },
    {
        match self.place(id) {
            Some(i) => Some(self.inputs[i].object),
            None => None,
        }
    }

    pub fn len(&self) -> (r: usize)
        ensures
            r == self@.len(),
    {
        self.inputs.len()
    }

    pub fn at(&self, i: usize) -> (r: LayoutInput<'a>)
        requires
            i < self@.len(),
        ensures
            r == self@[i as int],
    {
        self.inputs[i]
    }
}

/// `m` with the addresses of a section's atoms.
pub open spec fn with_atoms(m: Map<u32, u64>, base: u64, atoms: Seq<OutputAtom>) -> Map<u32, u64>
    decreases atoms.len(),
{
    if atoms.len() == 0 {
        m
    } else {
        with_atoms(m, base, atoms.drop_last()).insert(
            atoms.last().atom.0,
            base.wrapping_add(atoms.last().offset),
        )
    }
}

/// The address of every placed atom.
pub open spec fn atom_addresses(sections: Seq<OutputSection>) -> Map<u32, u64>
    decreases sections.len(),
{
    if sections.len() == 0 {
        Map::empty()
    } else {
        with_atoms(
            atom_addresses(sections.drop_last()),
            sections.last().addr,
            sections.last().atoms@,
        )
    }
}

pub fn atom_address_map(layout: &Layout) -> (r: HashMap<u32, u64>)
    ensures
        r@ == atom_addresses(layout.sections@),
{
    let mut out: HashMap<u32, u64> = HashMap::new();
    let mut i: usize = 0;
    while i < layout.sections.len()
        invariant
            i <= layout.sections@.len(),
            out@ == atom_addresses(layout.sections@.take(i as int)),
        decreases layout.sections@.len() - i,
    {
        let section = &layout.sections[i];
        let ghost before = out@;
        let mut k: usize = 0;
        while k < section.atoms.len()
            invariant
                k <= section.atoms@.len(),
                out@ == with_atoms(before, section.addr, section.atoms@.take(k as int)),
            decreases section.atoms@.len() - k,
        {
            assert(section.atoms@.take(k + 1).drop_last() =~= section.atoms@.take(k as int));
            out.insert(
                section.atoms[k].atom.0,
                section.addr.wrapping_add(section.atoms[k].offset),
            );
            k += 1;
        }
        assert(section.atoms@.take(k as int) =~= section.atoms@);
        assert(layout.sections@.take(i + 1).drop_last() =~= layout.sections@.take(i as int));
        i += 1;
    }
    assert(layout.sections@.take(i as int) =~= layout.sections@);
    out
}

/// Every atom of these is in the table.
pub open spec fn all_known(atoms: Seq<OutputAtom>, table: Seq<Atom>) -> bool {
    forall|k: int| 0 <= k < atoms.len() ==> 1 <= (#[trigger] atoms[k]).atom.0 <= table.len()
}

/// Every placed atom is in the table.
pub open spec fn atoms_known(sections: Seq<OutputSection>, table: Seq<Atom>) -> bool {
    forall|i: int|
        0 <= i < sections.len() ==> all_known((#[trigger] sections[i]).atoms@, table)
}

proof fn lemma_added_known(
    m: Map<u32, u64>,
    base: u64,
    atoms: Seq<OutputAtom>,
    table: Seq<Atom>,
)
    requires
        all_known(atoms, table),
        forall|a: u32| #[trigger] m.contains_key(a) ==> 1 <= a <= table.len(),
    ensures
        forall|a: u32| #[trigger]
            with_atoms(m, base, atoms).contains_key(a) ==> 1 <= a <= table.len(),
    decreases atoms.len(),
{
    if atoms.len() > 0 {
        assert(all_known(atoms.drop_last(), table)) by {
            assert forall|k: int| 0 <= k < atoms.drop_last().len() implies 1 <= (
            #[trigger] atoms.drop_last()[k]).atom.0 <= table.len() by {
                assert(atoms.drop_last()[k] == atoms[k]);
            }
        }
        lemma_added_known(m, base, atoms.drop_last(), table);
        let rest = with_atoms(m, base, atoms.drop_last());
        assert forall|a: u32| #[trigger] with_atoms(m, base, atoms).contains_key(a) implies 1 <= a
            <= table.len() by {
            let n = atoms.len() - 1;
            assert(1 <= atoms[n].atom.0 <= table.len());
            if a != atoms.last().atom.0 {
                assert(rest.contains_key(a));
            }
        }
    }
}

/// Only atoms of the table have addresses.
pub proof fn lemma_addresses_known(sections: Seq<OutputSection>, table: Seq<Atom>)
    requires
        atoms_known(sections, table),
    ensures
        forall|a: u32| #[trigger]
            atom_addresses(sections).contains_key(a) ==> 1 <= a <= table.len(),
    decreases sections.len(),
{
    if sections.len() > 0 {
        let rest = sections.drop_last();
        assert forall|i: int| 0 <= i < rest.len() implies all_known(
            (#[trigger] rest[i]).atoms@,
            table,
        ) by {
            assert(rest[i] == sections[i]);
        }
        lemma_addresses_known(rest, table);
        assert(all_known(sections[sections.len() - 1].atoms@, table));
        lemma_added_known(
            atom_addresses(rest),
            sections.last().addr,
            sections.last().atoms@,
            table,
        );
    }
}

/// The input section that a placed atom comes from.
pub open spec fn origin_key(placed: OutputAtom, table: Seq<Atom>) -> u64 {
    let a = table[placed.atom.0 - 1];
    atom::section_key(a.origin, a.input_section)
}

/// `m`, with the input sections that it lacks mapped to `base`.
pub open spec fn with_origins(
    m: Map<u64, u64>,
    base: u64,
    atoms: Seq<OutputAtom>,
    table: Seq<Atom>,
) -> Map<u64, u64>
    decreases atoms.len(),
{
    if atoms.len() == 0 {
        m
    } else {
        let rest = with_origins(m, base, atoms.drop_last(), table);
        let key = origin_key(atoms.last(), table);
        if rest.contains_key(key) {
            rest
        } else {
            rest.insert(key, base)
        }
    }
}

/// The address of the first output section that holds an atom of each input section.
pub open spec fn section_addresses(sections: Seq<OutputSection>, table: Seq<Atom>) -> Map<u64, u64>
    decreases sections.len(),
{
    if sections.len() == 0 {
        Map::empty()
    } else {
        with_origins(
            section_addresses(sections.drop_last(), table),
            sections.last().addr,
            sections.last().atoms@,
            table,
        )
    }
}

pub fn input_section_address_map(layout: &Layout, atoms: &AtomTable) -> (r: HashMap<u64, u64>)
    requires
        atoms_known(layout.sections@, atoms@),
    ensures
        r@ == section_addresses(layout.sections@, atoms@),
{
    let mut out: HashMap<u64, u64> = HashMap::new();
    let mut i: usize = 0;
    while i < layout.sections.len()
        invariant
            i <= layout.sections@.len(),
            atoms_known(layout.sections@, atoms@),
            out@ == section_addresses(layout.sections@.take(i as int), atoms@),
        decreases layout.sections@.len() - i,
    {
        let section = &layout.sections[i];
        assert(all_known(layout.sections@[i as int].atoms@, atoms@));
        let ghost before = out@;
        let mut k: usize = 0;
        while k < section.atoms.len()
            invariant
                k <= section.atoms@.len(),
                all_known(section.atoms@, atoms@),
                out@ == with_origins(before, section.addr, section.atoms@.take(k as int), atoms@),
            decreases section.atoms@.len() - k,
        {
            assert(section.atoms@.take(k + 1).drop_last() =~= section.atoms@.take(k as int));
            let id = section.atoms[k].atom;
            assert(1 <= section.atoms@[k as int].atom.0 <= atoms@.len());
            let a = atoms.get(id);
            let key: u64 = key_of_section(a.origin, a.input_section);
            if !out.contains_key(&key) {
                out.insert(key, section.addr);
            }
            k += 1;
        }
        assert(section.atoms@.take(k as int) =~= section.atoms@);
        assert(layout.sections@.take(i + 1).drop_last() =~= layout.sections@.take(i as int));
        i += 1;
    }
    assert(layout.sections@.take(i as int) =~= layout.sections@);
    out
}

/// `m` with a section's atoms mapped to the section's place.
pub open spec fn with_places(m: Map<u32, usize>, place: usize, atoms: Seq<OutputAtom>) -> Map<
    u32,
    usize,
>
    decreases atoms.len(),
{
    if atoms.len() == 0 {
        m
    } else {
        with_places(m, place, atoms.drop_last()).insert(atoms.last().atom.0, place)
    }
}

/// The output section that holds each atom; the last, should several hold it.
pub open spec fn atom_sections(sections: Seq<OutputSection>) -> Map<u32, usize>
    decreases sections.len(),
{
    if sections.len() == 0 {
        Map::empty()
    } else {
        with_places(
            atom_sections(sections.drop_last()),
            (sections.len() - 1) as usize,
            sections.last().atoms@,
        )
    }
}

proof fn lemma_with_places(m: Map<u32, usize>, place: usize, atoms: Seq<OutputAtom>, a: u32)
    requires
        with_places(m, place, atoms).contains_key(a),
    ensures
        with_places(m, place, atoms)[a] == place || m.contains_key(a) && with_places(
            m,
            place,
            atoms,
        )[a] == m[a],
    decreases atoms.len(),
{
    if atoms.len() > 0 && atoms.last().atom.0 != a {
        lemma_with_places(m, place, atoms.drop_last(), a);
    }
}

/// An atom's section is one of the sections.
pub proof fn lemma_atom_sections(sections: Seq<OutputSection>, a: u32)
    requires
        sections.len() <= usize::MAX,
        atom_sections(sections).contains_key(a),
    ensures
        atom_sections(sections)[a] < sections.len(),
    decreases sections.len(),
{
    if sections.len() > 0 {
        let rest = atom_sections(sections.drop_last());
        lemma_with_places(rest, (sections.len() - 1) as usize, sections.last().atoms@, a);
        if rest.contains_key(a) {
            lemma_atom_sections(sections.drop_last(), a);
        }
    }
}

/// Which section each atom is in, and so which segment.
pub fn atom_output_segment_map(layout: &Layout) -> (r: HashMap<u32, usize>)
    ensures
        r@ == atom_sections(layout.sections@),
{
    let mut out: HashMap<u32, usize> = HashMap::new();
    let mut i: usize = 0;
    while i < layout.sections.len()
        invariant
            i <= layout.sections@.len(),
            out@ == atom_sections(layout.sections@.take(i as int)),
        decreases layout.sections@.len() - i,
    {
        let section = &layout.sections[i];
        let ghost before = out@;
        let mut k: usize = 0;
        while k < section.atoms.len()
            invariant
                k <= section.atoms@.len(),
                out@ == with_places(before, i, section.atoms@.take(k as int)),
            decreases section.atoms@.len() - k,
        {
            assert(section.atoms@.take(k + 1).drop_last() =~= section.atoms@.take(k as int));
            out.insert(section.atoms[k].atom.0, i);
            k += 1;
        }
        assert(section.atoms@.take(k as int) =~= section.atoms@);
        assert(layout.sections@.take(i + 1).drop_last() =~= layout.sections@.take(i as int));
        i += 1;
    }
    assert(layout.sections@.take(i as int) =~= layout.sections@);
    out
}

/// The address of each symbol's slot, where slots of `stride` bytes follow one
/// another from `base` on.
pub open spec fn slot_addresses(base: u64, stride: u64, entries: Seq<SlotEntry>) -> Map<u32, u64>
    decreases entries.len(),
{
    if entries.len() == 0 {
        Map::empty()
    } else {
        slot_addresses(base, stride, entries.drop_last()).insert(
            entries.last().symbol.0,
            base.wrapping_add(((entries.len() - 1) as u64).wrapping_mul(stride)),
        )
    }
}

fn slot_address_map(base: u64, stride: u64, entries: &Vec<SlotEntry>) -> (r: HashMap<u32, u64>)
    ensures
        r@ == slot_addresses(base, stride, entries@),
{
    let mut out: HashMap<u32, u64> = HashMap::new();
    let mut i: usize = 0;
    while i < entries.len()
        invariant
            i <= entries@.len(),
            out@ == slot_addresses(base, stride, entries@.take(i as int)),
        decreases entries@.len() - i,
    {
        assert(entries@.take(i + 1).drop_last() =~= entries@.take(i as int));
        out.insert(entries[i].symbol.0, base.wrapping_add((i as u64).wrapping_mul(stride)));
        i += 1;
    }
    assert(entries@.take(i as int) =~= entries@);
    out
}

/// The addresses of what the linker adds to the image.
#[derive(Debug)]
pub struct SyntheticAddressMaps {
    pub stub_addrs: HashMap<u32, u64>,
    pub got_addrs: HashMap<u32, u64>,
    pub thread_pointer_addrs: HashMap<u32, u64>,
    pub lazy_pointer_addrs: HashMap<u32, u64>,
    pub stub_helper_entry_addrs: HashMap<u32, u64>,
    pub stub_helper_header_addr: Option<u64>,
    pub dyld_private_addr: Option<u64>,
}

/// The slots of a table, if its section is in the image.
pub open spec fn table_addresses(
    sections: Seq<OutputSection>,
    segment: Seq<char>,
    name: Seq<char>,
    skip: u64,
    stride: u64,
    entries: Seq<SlotEntry>,
) -> Map<u32, u64> {
    match layout::section_at(sections, segment, name) {
        Some(i) => slot_addresses(sections[i].addr.wrapping_add(skip), stride, entries),
        None => Map::empty(),
    }
}

fn table_address_map(
    layout: &Layout,
    segment: &str,
    name: &str,
    skip: u64,
    stride: u64,
    entries: &Vec<SlotEntry>,
) -> (r: HashMap<u32, u64>)
    ensures
        r@ == table_addresses(layout.sections@, segment@, name@, skip, stride, entries@),
{
    match layout.find_section(segment, name) {
        Some(i) => slot_address_map(layout.sections[i].addr.wrapping_add(skip), stride, entries),
        None => HashMap::new(),
    }
}

/// A data section with room for dyld's private slot.
pub open spec fn holds_private_slot(s: OutputSection) -> bool {
    layout::is_section(s, "__DATA"@, "__data"@) && s.synthetic_data@.len() >= DYLD_PRIVATE_SIZE
}

/// The address of dyld's private slot, in the first section that has room for it.
pub open spec fn private_slot(sections: Seq<OutputSection>) -> Option<u64>
    decreases sections.len(),
{
    if sections.len() == 0 {
        None
    } else if holds_private_slot(sections.first()) {
        Some(sections.first().addr.wrapping_add(sections.first().synthetic_offset))
    } else {
        private_slot(sections.drop_first())
    }
}

fn find_private_slot(layout: &Layout) -> (r: Option<u64>)
    ensures
        r == private_slot(layout.sections@),
{
    let mut i: usize = 0;
    assert(layout.sections@.skip(0) =~= layout.sections@);
    while i < layout.sections.len()
        invariant
            i <= layout.sections@.len(),
            private_slot(layout.sections@) == private_slot(layout.sections@.skip(i as int)),
        decreases layout.sections@.len() - i,
    {
        let section = &layout.sections[i];
        assert(layout.sections@.skip(i as int).first() == *section);
        assert(layout.sections@.skip(i as int).drop_first() =~= layout.sections@.skip(i + 1));
        if same_text(section.segment.as_str(), "__DATA") && same_text(
            section.name.as_str(),
            "__data",
        ) && section.synthetic_data.len() as u64 >= DYLD_PRIVATE_SIZE {
            return Some(section.addr.wrapping_add(section.synthetic_offset));
        }
        i += 1;
    }
    None
}

impl SyntheticAddressMaps {
    /// The maps are those of this plan in this layout.
    pub open spec fn of(self, sections: Seq<OutputSection>, plan: SyntheticPlan) -> bool {
        &&& self.stub_addrs@ == table_addresses(
            sections,
            "__TEXT"@,
            "__stubs"@,
            0,
            STUB_SIZE,
            plan.stubs.entries@,
        )
        &&& self.got_addrs@ == table_addresses(
            sections,
            "__DATA_CONST"@,
            "__got"@,
            0,
            8,
            plan.got.entries@,
        )
        &&& self.thread_pointer_addrs@ == table_addresses(
            sections,
            "__DATA"@,
            "__thread_ptrs"@,
            0,
            8,
            plan.thread_pointers.entries@,
        )
        &&& self.lazy_pointer_addrs@ == table_addresses(
            sections,
            "__DATA"@,
            "__la_symbol_ptr"@,
            0,
            8,
            plan.lazy_pointers.entries@,
        )
        &&& self.stub_helper_entry_addrs@ == table_addresses(
            sections,
            "__TEXT"@,
            "__stub_helper"@,
            STUB_HELPER_HEADER_SIZE,
            STUB_HELPER_ENTRY_SIZE,
            plan.lazy_pointers.entries@,
        )
        &&& self.stub_helper_header_addr == match layout::section_at(
            sections,
            "__TEXT"@,
            "__stub_helper"@,
        ) {
            Some(i) => Some(sections[i].addr),
            None => None::<u64>,
        }
        &&& self.dyld_private_addr == private_slot(sections)
    }

    /// The maps are empty.
    pub open spec fn nothing(self) -> bool {
        &&& self.stub_addrs@ == Map::<u32, u64>::empty()
        &&& self.got_addrs@ == Map::<u32, u64>::empty()
        &&& self.thread_pointer_addrs@ == Map::<u32, u64>::empty()
        &&& self.lazy_pointer_addrs@ == Map::<u32, u64>::empty()
        &&& self.stub_helper_entry_addrs@ == Map::<u32, u64>::empty()
        &&& self.stub_helper_header_addr is None
        &&& self.dyld_private_addr is None
    }

    /// The maps are those of the plan; empty without one.
    pub open spec fn of_plan(self, sections: Seq<OutputSection>, plan: Option<&SyntheticPlan>) -> bool {
        match plan {
            Some(plan) => self.of(sections, *plan),
            None => self.nothing(),
        }
    }
}

pub fn synthetic_address_maps(layout: &Layout, synthetic_plan: Option<&SyntheticPlan>) -> (r:
    SyntheticAddressMaps)
    ensures
        r.of_plan(layout.sections@, synthetic_plan),
{
    let plan = match synthetic_plan {
        Some(plan) => plan,
        None => {
            return SyntheticAddressMaps {
                stub_addrs: HashMap::new(),
                got_addrs: HashMap::new(),
                thread_pointer_addrs: HashMap::new(),
                lazy_pointer_addrs: HashMap::new(),
                stub_helper_entry_addrs: HashMap::new(),
                stub_helper_header_addr: None,
                dyld_private_addr: None,
            };
        },
    };
    SyntheticAddressMaps {
        stub_addrs: table_address_map(
            layout,
            "__TEXT",
            "__stubs",
            0,
            STUB_SIZE,
            &plan.stubs.entries,
        ),
        got_addrs: table_address_map(layout, "__DATA_CONST", "__got", 0, 8, &plan.got.entries),
        thread_pointer_addrs: table_address_map(
            layout,
            "__DATA",
            "__thread_ptrs",
            0,
            8,
            &plan.thread_pointers.entries,
        ),
        lazy_pointer_addrs: table_address_map(
            layout,
            "__DATA",
            "__la_symbol_ptr",
            0,
            8,
            &plan.lazy_pointers.entries,
        ),
        stub_helper_entry_addrs: table_address_map(
            layout,
            "__TEXT",
            "__stub_helper",
            STUB_HELPER_HEADER_SIZE,
            STUB_HELPER_ENTRY_SIZE,
            &plan.lazy_pointers.entries,
        ),
        stub_helper_header_addr: match layout.find_section("__TEXT", "__stub_helper") {
            Some(i) => Some(layout.sections[i].addr),
            None => None,
        },
        dyld_private_addr: find_private_slot(layout),
    }
}

/// Everything that relocations of this link can refer to.
pub open spec fn targets_of(
    sections: Seq<OutputSection>,
    atoms: Seq<Atom>,
    symbols: TableState,
    plan: Option<&SyntheticPlan>,
    redirects: Map<u32, u32>,
) -> Targets {
    let nothing = Targets {
        symbols,
        atoms,
        atom_addrs: atom_addresses(sections),
        section_addrs: section_addresses(sections, atoms),
        stub_addrs: Map::empty(),
        got_addrs: Map::empty(),
        thread_pointer_addrs: Map::empty(),
        lazy_pointer_addrs: Map::empty(),
        stub_helper_entry_addrs: Map::empty(),
        stub_helper_header_addr: None,
        dyld_private_addr: None,
        redirects,
    };
    match plan {
        None => nothing,
        Some(plan) => Targets {
            stub_addrs: table_addresses(
                sections,
                "__TEXT"@,
                "__stubs"@,
                0,
                STUB_SIZE,
                plan.stubs.entries@,
            ),
            got_addrs: table_addresses(
                sections,
                "__DATA_CONST"@,
                "__got"@,
                0,
                8,
                plan.got.entries@,
            ),
            thread_pointer_addrs: table_addresses(
                sections,
                "__DATA"@,
                "__thread_ptrs"@,
                0,
                8,
                plan.thread_pointers.entries@,
            ),
            lazy_pointer_addrs: table_addresses(
                sections,
                "__DATA"@,
                "__la_symbol_ptr"@,
                0,
                8,
                plan.lazy_pointers.entries@,
            ),
            stub_helper_entry_addrs: table_addresses(
                sections,
                "__TEXT"@,
                "__stub_helper"@,
                STUB_HELPER_HEADER_SIZE,
                STUB_HELPER_ENTRY_SIZE,
                plan.lazy_pointers.entries@,
            ),
            stub_helper_header_addr: match layout::section_at(
                sections,
                "__TEXT"@,
                "__stub_helper"@,
            ) {
                Some(i) => Some(sections[i].addr),
                None => None,
            },
            dyld_private_addr: private_slot(sections),
            ..nothing
        },
    }
}

/// A relocation lies within an atom.
pub open spec fn applies(reloc: Reloc, atom: Atom) -> bool {
    atom.input_offset <= reloc.offset && reloc.offset + reloc.length.spec_byte_width()
        <= atom.input_offset + atom.size
}

pub fn reloc_applies(reloc: &Reloc, atom: &Atom) -> (r: bool)
    ensures
        r == applies(*reloc, *atom),
{
    reloc.offset >= atom.input_offset && reloc.offset as u64 + reloc.length.byte_width() as u64
        <= atom.input_offset as u64 + atom.size as u64
}

/// The relocations of an atom, of those of its section.
pub fn relocs_for_atom(relocs: &Vec<Reloc>, atom: &Atom) -> (r: Vec<Reloc>)
    ensures
        r@ == relocs@.filter(|reloc: Reloc| applies(reloc, *atom)),
{
    let mut out: Vec<Reloc> = Vec::new();
    let ghost inside = |reloc: Reloc| applies(reloc, *atom);
    let mut i: usize = 0;
    assert(relocs@.take(0).filter(inside) =~= Seq::<Reloc>::empty()) by {
        reveal(Seq::filter);
    }
    while i < relocs.len()
        invariant
            i <= relocs@.len(),
            inside == (|reloc: Reloc| applies(reloc, *atom)),
            out@ == relocs@.take(i as int).filter(inside),
        decreases relocs@.len() - i,
    {
        proof {
            reveal(Seq::filter);
            assert(relocs@.take(i + 1).drop_last() =~= relocs@.take(i as int));
        }
        if reloc_applies(&relocs[i], atom) {
            out.push(relocs[i]);
        }
        i += 1;
    }
    assert(relocs@.take(i as int) =~= relocs@);
    out
}

/// The relocations of an atom, as the cache has them.
pub open spec fn relocs_of(cache: Map<u64, Vec<Reloc>>, atom: Atom) -> Seq<Reloc> {
    reloc::cached(cache, atom::section_key(atom.origin, atom.input_section)).filter(
        |reloc: Reloc| applies(reloc, atom),
    )
}

pub fn cached_relocs_for_atom(cache: &ParsedRelocCache, atom: &Atom) -> (r: Vec<Reloc>)
    ensures
        r@ == relocs_of(cache@, *atom),
{
    match cache.get(&key_of_section(atom.origin, atom.input_section)) {
        Some(relocs) => relocs_for_atom(relocs, atom),
        None => {
            assert(Seq::<Reloc>::empty().filter(|reloc: Reloc| applies(reloc, *atom))
                =~= Seq::<Reloc>::empty()) by {
                reveal(Seq::filter);
            }
            Vec::new()
        },
    }
}

} // verus!
