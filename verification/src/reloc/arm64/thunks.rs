//! Branch thunks: short jumps that carry a branch further than its own reach.

use std::collections::HashMap;
use vstd::prelude::*;
use crate::atom;
use crate::atom::{Atom, AtomTable};
use crate::bytes;
use crate::bytes::push_zeros;
use crate::input::ObjectFile;
use crate::layout::{ExtraOutputSection, ExtraSectionAnchor, Layout, LayoutInput};
use crate::macho::constants::{S_ATTR_PURE_INSTRUCTIONS, S_ATTR_SOME_INSTRUCTIONS, S_REGULAR};
use crate::options::{LinkOptions, ThunkMode};
use crate::reloc;
use crate::reloc::arm64::encode;
use crate::reloc::arm64::encode::{branch26_in_range, BRANCH26_MAX_FORWARD_DELTA_BYTES};
use crate::reloc::arm64::maps;
use crate::reloc::arm64::maps::{
    atom_address_map, atom_output_segment_map, cached_relocs_for_atom, input_section_address_map,
    synthetic_address_maps,
    InputMap,
};
use crate::reloc::arm64::targets;
use crate::reloc::arm64::targets::{
    find_addr, resolve_branch_target_from_key, resolve_branch_target_key, BranchTargetKey,
    ResolveView, Targets,
};
use crate::reloc::arm64::{RelocError, RelocFault};
use crate::reloc::{ParsedRelocCache, Reloc, RelocKind};
use crate::resolve::{AtomId, SymbolTable};
use crate::section::{OutputSection, SectionKind};
use crate::synth::SyntheticPlan;
use crate::text::same_text;

verus! {

broadcast use vstd::std_specs::hash::group_hash_axioms;

/// Bytes of one thunk.
pub const THUNK_SIZE: u64 = 12;

/// A place for thunks: behind an atom, in its segment.
#[derive(Debug, Clone, PartialEq, Eq)]
pub struct ThunkIsland {
    pub segment: String,
    pub after_atom: AtomId,
}

/// A thunk, by its island and its place there.
#[derive(Debug, Clone, Copy, PartialEq, Eq, Structural)]
pub struct ThunkEntry {
    pub island: usize,
    pub slot_in_island: usize,
    pub target: BranchTargetKey,
}

/// Which branches go through which thunks, and where those stand.
#[derive(Debug, PartialEq, Eq)]
pub struct ThunkPlan {
    /// The thunk of each redirected branch, by `branch_key`.
    pub redirects: HashMap<u64, usize>,
    pub islands: Vec<ThunkIsland>,
    pub entries: Vec<ThunkEntry>,
}

/// A `ThunkPlan` as mathematical values.
#[verifier::ext_equal]
pub struct ThunkModel {
    pub redirects: Map<u64, usize>,
    pub islands: Seq<(Seq<char>, AtomId)>,
    pub entries: Seq<ThunkEntry>,
}

pub open spec fn islands_view(islands: Seq<ThunkIsland>) -> Seq<(Seq<char>, AtomId)> {
    islands.map_values(|i: ThunkIsland| (i.segment@, i.after_atom))
}

impl View for ThunkPlan {
    type V = ThunkModel;

    open spec fn view(&self) -> ThunkModel {
        ThunkModel {
            redirects: self.redirects@,
            islands: islands_view(self.islands@),
            entries: self.entries@,
        }
    }
}

/// A branch of an atom as one number.
pub open spec fn branch_at(atom: AtomId, atom_offset: u32) -> u64 {
    (atom.0 * 0x1_0000_0000 + atom_offset) as u64
}

fn branch_number(atom: AtomId, atom_offset: u32) -> (r: u64)
    ensures
        r == branch_at(atom, atom_offset),
{
    atom.0 as u64 * 0x1_0000_0000 + atom_offset as u64
}

/// The island behind an atom.
pub open spec fn island_of(islands: Seq<(Seq<char>, AtomId)>, atom: AtomId) -> Option<int>
    decreases islands.len(),
{
    if islands.len() == 0 {
        None
    } else {
        match island_of(islands.drop_last(), atom) {
            Some(i) => Some(i),
            None => if islands.last().1 == atom {
                Some(islands.len() - 1)
            } else {
                None
            },
        }
    }
}

/// The thunk to this target in this island.
pub open spec fn entry_of(entries: Seq<ThunkEntry>, island: usize, target: BranchTargetKey) -> Option<
    int,
>
    decreases entries.len(),
{
    if entries.len() == 0 {
        None
    } else {
        match entry_of(entries.drop_last(), island, target) {
            Some(i) => Some(i),
            None => if entries.last().island == island && entries.last().target == target {
                Some(entries.len() - 1)
            } else {
                None
            },
        }
    }
}

/// How many thunks an island has.
pub open spec fn entry_count(entries: Seq<ThunkEntry>, island: usize) -> nat
    decreases entries.len(),
{
    if entries.len() == 0 {
        0
    } else {
        entry_count(entries.drop_last(), island) + if entries.last().island == island {
            1nat
        } else {
            0nat
        }
    }
}

pub proof fn lemma_entry_count(entries: Seq<ThunkEntry>, island: usize)
    ensures
        entry_count(entries, island) <= entries.len(),
    decreases entries.len(),
{
    if entries.len() > 0 {
        lemma_entry_count(entries.drop_last(), island);
    }
}

proof fn lemma_island_of(islands: Seq<(Seq<char>, AtomId)>, atom: AtomId)
    ensures
        match island_of(islands, atom) {
            Some(i) => 0 <= i < islands.len() && islands[i].1 == atom && forall|k: int|
                0 <= k < i ==> (#[trigger] islands[k]).1 != atom,
            None => forall|k: int| 0 <= k < islands.len() ==> (#[trigger] islands[k]).1 != atom,
        },
    decreases islands.len(),
{
    if islands.len() > 0 {
        lemma_island_of(islands.drop_last(), atom);
        assert forall|k: int| 0 <= k < islands.len() - 1 implies islands.drop_last()[k]
            == #[trigger] islands[k] by {}
    }
}

fn find_island(islands: &Vec<ThunkIsland>, atom: AtomId) -> (r: Option<usize>)
    ensures
        match r {
            Some(i) => island_of(islands_view(islands@), atom) == Some(i as int),
            None => island_of(islands_view(islands@), atom) is None,
        },
{
    proof {
        lemma_island_of(islands_view(islands@), atom);
    }
    let mut i: usize = 0;
    while i < islands.len()
        invariant
            i <= islands@.len(),
            forall|k: int| 0 <= k < i ==> (#[trigger] islands_view(islands@)[k]).1 != atom,
            match island_of(islands_view(islands@), atom) {
                Some(j) => 0 <= j < islands@.len() && islands_view(islands@)[j].1 == atom
                    && forall|k: int|
                    0 <= k < j ==> (#[trigger] islands_view(islands@)[k]).1 != atom,
                None => forall|k: int|
                    0 <= k < islands@.len() ==> (#[trigger] islands_view(islands@)[k]).1 != atom,
            },
        decreases islands@.len() - i,
    {
        assert(islands_view(islands@)[i as int].1 == islands@[i as int].after_atom);
        if islands[i].after_atom == atom {
            return Some(i);
        }
        i += 1;
    }
    None
}

proof fn lemma_entry_of(entries: Seq<ThunkEntry>, island: usize, target: BranchTargetKey)
    ensures
        match entry_of(entries, island, target) {
            Some(i) => 0 <= i < entries.len() && entries[i].island == island && entries[i].target
                == target && forall|k: int|
                0 <= k < i ==> !((#[trigger] entries[k]).island == island && entries[k].target
                    == target),
            None => forall|k: int|
                0 <= k < entries.len() ==> !((#[trigger] entries[k]).island == island
                    && entries[k].target == target),
        },
    decreases entries.len(),
{
    if entries.len() > 0 {
        lemma_entry_of(entries.drop_last(), island, target);
        assert forall|k: int| 0 <= k < entries.len() - 1 implies entries.drop_last()[k]
            == #[trigger] entries[k] by {}
    }
}

fn find_entry(entries: &Vec<ThunkEntry>, island: usize, target: BranchTargetKey) -> (r: Option<
    usize,
>)
    ensures
        match r {
            Some(i) => entry_of(entries@, island, target) == Some(i as int),
            None => entry_of(entries@, island, target) is None,
        },
{
    proof {
        lemma_entry_of(entries@, island, target);
    }
    let mut i: usize = 0;
    while i < entries.len()
        invariant
            i <= entries@.len(),
            forall|k: int|
                0 <= k < i ==> !((#[trigger] entries@[k]).island == island && entries@[k].target
                    == target),
            match entry_of(entries@, island, target) {
                Some(j) => 0 <= j < entries@.len() && entries@[j].island == island
                    && entries@[j].target == target && forall|k: int|
                    0 <= k < j ==> !((#[trigger] entries@[k]).island == island && entries@[k].target
                        == target),
                None => forall|k: int|
                    0 <= k < entries@.len() ==> !((#[trigger] entries@[k]).island == island
                        && entries@[k].target == target),
            },
        decreases entries@.len() - i,
    {
        if entries[i].island == island && entries[i].target == target {
            return Some(i);
        }
        i += 1;
    }
    None
}

fn count_entries(entries: &Vec<ThunkEntry>, island: usize) -> (r: usize)
    ensures
        r == entry_count(entries@, island),
{
    let mut n: usize = 0;
    let mut i: usize = 0;
    while i < entries.len()
        invariant
            i <= entries@.len(),
            n <= i,
            n == entry_count(entries@.take(i as int), island),
        decreases entries@.len() - i,
    {
        assert(entries@.take(i + 1).drop_last() =~= entries@.take(i as int));
        if entries[i].island == island {
            n += 1;
        }
        i += 1;
    }
    assert(entries@.take(i as int) =~= entries@);
    n
}

impl ThunkModel {
    /// The plan with one more branch redirected. Branches of one atom to one target
    /// share a thunk.
    pub open spec fn with_branch(
        self,
        segment: Seq<char>,
        atom: AtomId,
        atom_offset: u32,
        target: BranchTargetKey,
    ) -> ThunkModel {
        let island = match island_of(self.islands, atom) {
            Some(i) => i as usize,
            None => self.islands.len() as usize,
        };
        let islands = match island_of(self.islands, atom) {
            Some(_) => self.islands,
            None => self.islands.push((segment, atom)),
        };
        let index = match entry_of(self.entries, island, target) {
            Some(i) => i as usize,
            None => self.entries.len() as usize,
        };
        let entries = match entry_of(self.entries, island, target) {
            Some(_) => self.entries,
            None => self.entries.push(
                ThunkEntry {
                    island,
                    slot_in_island: entry_count(self.entries, island) as usize,
                    target,
                },
            ),
        };
        ThunkModel {
            redirects: self.redirects.insert(branch_at(atom, atom_offset), index),
            islands,
            entries,
        }
    }

    pub open spec fn empty() -> ThunkModel {
        ThunkModel { redirects: Map::empty(), islands: seq![], entries: seq![] }
    }

    /// No two islands stand behind one atom, every thunk's island exists, the thunks
    /// of an island fill its slots from zero on, and every redirected branch has a
    /// thunk.
    pub open spec fn wf(self) -> bool {
        &&& forall|i: int, j: int|
            0 <= i < j < self.islands.len() ==> (#[trigger] self.islands[i]).1 != (
            #[trigger] self.islands[j]).1
        &&& forall|i: int|
            0 <= i < self.entries.len() ==> (#[trigger] self.entries[i]).island
                < self.islands.len()
        &&& forall|i: int|
            0 <= i < self.entries.len() ==> (#[trigger] self.entries[i]).slot_in_island
                == entry_count(self.entries.take(i), self.entries[i].island)
        &&& forall|k: u64| #[trigger]
            self.redirects.contains_key(k) ==> self.redirects[k] < self.entries.len()
    }

    /// Every symbol that a thunk goes to is in a table of this size.
    pub open spec fn symbols_known(self, count: nat) -> bool {
        forall|i: int|
            0 <= i < self.entries.len() ==> match (#[trigger] self.entries[i]).target {
                BranchTargetKey::Symbol(id) => id.0 < count,
                _ => true,
            }
    }
}

/// Redirecting a branch keeps a plan well formed.
pub proof fn lemma_with_branch_wf(
    m: ThunkModel,
    segment: Seq<char>,
    atom: AtomId,
    atom_offset: u32,
    target: BranchTargetKey,
)
    requires
        m.wf(),
        m.islands.len() <= usize::MAX,
        m.entries.len() <= usize::MAX,
    ensures
        m.with_branch(segment, atom, atom_offset, target).wf(),
{
    let n = m.with_branch(segment, atom, atom_offset, target);
    lemma_island_of(m.islands, atom);
    let island = match island_of(m.islands, atom) {
        Some(i) => i as usize,
        None => m.islands.len() as usize,
    };
    lemma_entry_of(m.entries, island, target);
    lemma_entry_count(m.entries, island);
    assert forall|i: int| 0 <= i < n.entries.len() implies (#[trigger] n.entries[i]).slot_in_island
        == entry_count(n.entries.take(i), n.entries[i].island) by {
        assert(n.entries.take(i) =~= m.entries.take(i));
        if i == m.entries.len() {
            assert(m.entries.take(i) =~= m.entries);
        } else {
            assert(n.entries[i] == m.entries[i]);
        }
    }
}

impl ThunkPlan {
    /// How many thunks an island has.
    pub fn entries_in(&self, island: usize) -> (r: usize)
        ensures
            r == entry_count(self@.entries, island),
    {
        count_entries(&self.entries, island)
    }

    /// The atoms that sections are split behind.
    pub fn split_after_atoms(&self) -> (r: Vec<AtomId>)
        ensures
            r@ == self@.islands.map_values(|i: (Seq<char>, AtomId)| i.1),
    {
        let mut out: Vec<AtomId> = Vec::new();
        let mut i: usize = 0;
        while i < self.islands.len()
            invariant
                i <= self.islands@.len(),
                out@.len() == i,
                forall|k: int| 0 <= k < i ==> out@[k] == (#[trigger] self.islands@[k]).after_atom,
            decreases self.islands@.len() - i,
        {
            out.push(self.islands[i].after_atom);
            i += 1;
        }
        assert(out@ =~= self@.islands.map_values(|i: (Seq<char>, AtomId)| i.1)) by {
            assert forall|k: int| 0 <= k < out@.len() implies out@[k] == self@.islands[k].1 by {
                assert(self.islands@[k].after_atom == self@.islands[k].1);
            }
        }
        out
    }

    /// The thunk that a branch goes through.
    pub fn redirect_for(&self, atom: AtomId, atom_offset: u32) -> (r: Option<usize>)
        ensures
            r == targets::lookup(self@.redirects, branch_at(atom, atom_offset)),
    {
        match self.redirects.get(&branch_number(atom, atom_offset)) {
            Some(index) => Some(*index),
            None => None,
        }
    }
}

/// The islands that have thunks, each with their number.
pub open spec fn filled_islands(m: ThunkModel, n: int) -> Seq<(Seq<char>, AtomId, nat)>
    decreases n,
{
    if n <= 0 {
        seq![]
    } else {
        let count = entry_count(m.entries, (n - 1) as usize);
        if count == 0 {
            filled_islands(m, n - 1)
        } else {
            filled_islands(m, n - 1).push((m.islands[n - 1].0, m.islands[n - 1].1, count))
        }
    }
}

/// The output section for `count` thunks behind an atom.
pub open spec fn is_thunk_section(
    s: ExtraOutputSection,
    segment: Seq<char>,
    atom: AtomId,
    count: nat,
) -> bool {
    &&& s.after_section == Some(ExtraSectionAnchor::AfterAtom(atom))
    &&& s.section.segment@ == segment
    &&& s.section.name@ == "__thunks"@
    &&& s.section.kind == SectionKind::Text
    &&& s.section.align_pow2 == 2
    &&& s.section.flags == S_REGULAR | S_ATTR_PURE_INSTRUCTIONS | S_ATTR_SOME_INSTRUCTIONS
    &&& s.section.reserved1 == 0
    &&& s.section.reserved2 == 0
    &&& s.section.reserved3 == 0
    &&& s.section.atoms@.len() == 0
    &&& s.section.synthetic_offset == 0
    &&& s.section.synthetic_data@ == bytes::zeros(count * THUNK_SIZE)
    &&& s.section.addr == 0
    &&& s.section.size == count * THUNK_SIZE
    &&& s.section.file_off == 0
}

impl ThunkPlan {
    /// The sections that the plan adds to the layout: one for each island with thunks.
    pub fn output_sections(&self) -> (r: Vec<ExtraOutputSection>)
        requires
            self@.wf(),
            self@.entries.len() * THUNK_SIZE <= usize::MAX,
        ensures
            r@.len() == filled_islands(self@, self@.islands.len() as int).len(),
            forall|i: int|
                0 <= i < r@.len() ==> {
                    let want = filled_islands(self@, self@.islands.len() as int)[i];
                    is_thunk_section(#[trigger] r@[i], want.0, want.1, want.2)
                },
    {
        let mut out: Vec<ExtraOutputSection> = Vec::new();
        let mut i: usize = 0;
        while i < self.islands.len()
            invariant
                i <= self.islands@.len(),
                self@.entries.len() * THUNK_SIZE <= usize::MAX,
                out@.len() == filled_islands(self@, i as int).len(),
                forall|k: int|
                    0 <= k < out@.len() ==> {
                        let want = filled_islands(self@, i as int)[k];
                        is_thunk_section(#[trigger] out@[k], want.0, want.1, want.2)
                    },
            decreases self.islands@.len() - i,
        {
            let count: usize = count_entries(&self.entries, i);
            proof {
                lemma_entry_count(self.entries@, i);
                assert(self@.islands[i as int] == (
                    self.islands@[i as int].segment@,
                    self.islands@[i as int].after_atom,
                ));
                assert(count * THUNK_SIZE <= self@.entries.len() * THUNK_SIZE);
            }
            if count > 0 {
                let mut synthetic_data: Vec<u8> = Vec::new();
                push_zeros(&mut synthetic_data, count * THUNK_SIZE as usize);
                assert(synthetic_data@ =~= bytes::zeros(count * THUNK_SIZE));
                out.push(
                    ExtraOutputSection {
                        after_section: Some(
                            ExtraSectionAnchor::AfterAtom(self.islands[i].after_atom),
                        ),
                        section: OutputSection {
                            segment: self.islands[i].segment.clone(),
                            name: "__thunks".to_owned(),
                            kind: SectionKind::Text,
                            align_pow2: 2,
                            flags: S_REGULAR | S_ATTR_PURE_INSTRUCTIONS | S_ATTR_SOME_INSTRUCTIONS,
                            reserved1: 0,
                            reserved2: 0,
                            reserved3: 0,
                            atoms: Vec::new(),
                            synthetic_offset: 0,
                            synthetic_data,
                            addr: 0,
                            size: count as u64 * THUNK_SIZE,
                            file_off: 0,
                        },
                    },
                );
            }
            i += 1;
        }
        out
    }
}

/// A section holds the thunks of the island behind `atom`: it is called `__thunks`
/// and follows, in the same segment, the section that ends with that atom.
pub open spec fn follows_island(
    prev: OutputSection,
    section: OutputSection,
    segment: Seq<char>,
    atom: AtomId,
) -> bool {
    &&& prev.segment@ == segment
    &&& prev.atoms@.len() > 0
    &&& prev.atoms@.last().atom == atom
    &&& section.segment@ == segment
    &&& section.name@ == "__thunks"@
}

/// The first section that holds the thunks of the island behind `atom`.
pub open spec fn thunk_section(sections: Seq<OutputSection>, segment: Seq<char>, atom: AtomId) -> Option<
    int,
>
    decreases sections.len(),
{
    if sections.len() < 2 {
        None
    } else {
        match thunk_section(sections.drop_last(), segment, atom) {
            Some(i) => Some(i),
            None => if follows_island(
                sections[sections.len() - 2],
                sections.last(),
                segment,
                atom,
            ) {
                Some(sections.len() - 1)
            } else {
                None
            },
        }
    }
}

pub proof fn lemma_thunk_section(sections: Seq<OutputSection>, segment: Seq<char>, atom: AtomId)
    ensures
        match thunk_section(sections, segment, atom) {
            Some(i) => 1 <= i < sections.len() && follows_island(
                sections[i - 1],
                sections[i],
                segment,
                atom,
            ),
            None => true,
        },
    decreases sections.len(),
{
    if sections.len() >= 2 {
        lemma_thunk_section(sections.drop_last(), segment, atom);
    }
}

proof fn lemma_thunk_section_found(
    sections: Seq<OutputSection>,
    segment: Seq<char>,
    atom: AtomId,
    n: int,
)
    requires
        0 <= n <= sections.len(),
        thunk_section(sections.take(n), segment, atom) is Some,
    ensures
        thunk_section(sections, segment, atom) == thunk_section(sections.take(n), segment, atom),
    decreases sections.len() - n,
{
    if n < sections.len() {
        assert(sections.take(n + 1).drop_last() =~= sections.take(n));
        lemma_thunk_section_found(sections, segment, atom, n + 1);
    } else {
        assert(sections.take(n) =~= sections);
    }
}

pub fn find_thunk_section_index(layout: &Layout, island: &ThunkIsland) -> (r: Option<usize>)
    ensures
        match r {
            Some(i) => thunk_section(layout.sections@, island.segment@, island.after_atom) == Some(
                i as int,
            ) && 1 <= i < layout.sections@.len(),
            None => thunk_section(layout.sections@, island.segment@, island.after_atom) is None,
        },
{
    let mut i: usize = 1;
    while i < layout.sections.len()
        invariant
            1 <= i,
            i <= layout.sections@.len() || i == 1,
            thunk_section(
                layout.sections@.take(
                    if i <= layout.sections@.len() {
                        i as int
                    } else {
                        layout.sections@.len() as int
                    },
                ),
                island.segment@,
                island.after_atom,
            ) is None,
        decreases layout.sections@.len() - i,
    {
        let prev = &layout.sections[i - 1];
        let section = &layout.sections[i];
        let ghost up_to = layout.sections@.take(i + 1);
        assert(up_to.drop_last() =~= layout.sections@.take(i as int));
        assert(up_to[up_to.len() - 2] == *prev && up_to.last() == *section);
        if prev.atoms.len() > 0 && prev.atoms[prev.atoms.len() - 1].atom == island.after_atom
            && same_text(prev.segment.as_str(), island.segment.as_str()) && same_text(
            section.segment.as_str(),
            island.segment.as_str(),
        ) && same_text(section.name.as_str(), "__thunks") {
            proof {
                lemma_thunk_section_found(
                    layout.sections@,
                    island.segment@,
                    island.after_atom,
                    i + 1,
                );
            }
            return Some(i);
        }
        i += 1;
    }
    assert(layout.sections@.take(layout.sections@.len() as int) =~= layout.sections@);
    None
}

/// The final address of a thunk, if its island's section is in the image.
pub open spec fn thunk_address(m: ThunkModel, sections: Seq<OutputSection>, index: int) -> Option<
    u64,
> {
    let entry = m.entries[index];
    let island = m.islands[entry.island as int];
    match thunk_section(sections, island.0, island.1) {
        Some(i) => Some(
            sections[i].addr.wrapping_add((entry.slot_in_island as u64).wrapping_mul(THUNK_SIZE)),
        ),
        None => None,
    }
}

impl ThunkPlan {
    /// The final address of each thunk.
    pub fn thunk_addrs(&self, layout: &Layout) -> (r: Vec<Option<u64>>)
        requires
            self@.wf(),
        ensures
            r@ == Seq::new(
                self@.entries.len(),
                |i: int| thunk_address(self@, layout.sections@, i),
            ),
    {
        let mut out: Vec<Option<u64>> = Vec::new();
        let mut i: usize = 0;
        while i < self.entries.len()
            invariant
                i <= self.entries@.len(),
                self@.wf(),
                out@.len() == i,
                forall|k: int|
                    0 <= k < i ==> #[trigger] out@[k] == thunk_address(
                        self@,
                        layout.sections@,
                        k,
                    ),
            decreases self.entries@.len() - i,
        {
            let entry = self.entries[i];
            assert(self@.entries[i as int].island < self@.islands.len());
            let island = &self.islands[entry.island];
            assert(self@.islands[entry.island as int] == (island.segment@, island.after_atom));
            let addr: Option<u64> = match find_thunk_section_index(layout, island) {
                Some(section) => Some(
                    layout.sections[section].addr.wrapping_add(
                        (entry.slot_in_island as u64).wrapping_mul(THUNK_SIZE),
                    ),
                ),
                None => None,
            };
            out.push(addr);
            i += 1;
        }
        assert(out@ =~= Seq::new(
            self@.entries.len(),
            |i: int| thunk_address(self@, layout.sections@, i),
        ));
        out
    }
}

/// A section counts towards the span that branches have to cross.
pub open spec fn spans(s: OutputSection) -> bool {
    s.segment@ != "__LINKEDIT"@ && s.size != 0
}

/// The lowest address of those sections.
pub open spec fn lowest(sections: Seq<OutputSection>) -> u64
    decreases sections.len(),
{
    if sections.len() == 0 {
        u64::MAX
    } else {
        let rest = lowest(sections.drop_last());
        if spans(sections.last()) && sections.last().addr < rest {
            sections.last().addr
        } else {
            rest
        }
    }
}

/// The highest end of those sections.
pub open spec fn highest(sections: Seq<OutputSection>) -> u64
    decreases sections.len(),
{
    if sections.len() == 0 {
        0
    } else {
        let rest = highest(sections.drop_last());
        let end = sections.last().addr.saturating_add(sections.last().size);
        if spans(sections.last()) && end > rest {
            end
        } else {
            rest
        }
    }
}

/// The whole image is within a branch's reach.
pub open spec fn fits_branch26(sections: Seq<OutputSection>) -> bool {
    lowest(sections) == u64::MAX || highest(sections).saturating_sub(lowest(sections))
        <= BRANCH26_MAX_FORWARD_DELTA_BYTES
}

pub fn layout_fits_branch26_span(layout: &Layout) -> (r: bool)
    ensures
        r == fits_branch26(layout.sections@),
{
    let mut min_addr: u64 = u64::MAX;
    let mut max_addr: u64 = 0;
    let mut i: usize = 0;
    while i < layout.sections.len()
        invariant
            i <= layout.sections@.len(),
            min_addr == lowest(layout.sections@.take(i as int)),
            max_addr == highest(layout.sections@.take(i as int)),
        decreases layout.sections@.len() - i,
    {
        let section = &layout.sections[i];
        assert(layout.sections@.take(i + 1).drop_last() =~= layout.sections@.take(i as int));
        if !same_text(section.segment.as_str(), "__LINKEDIT") && section.size != 0 {
            if section.addr < min_addr {
                min_addr = section.addr;
            }
            let end: u64 = section.addr.saturating_add(section.size);
            if end > max_addr {
                max_addr = end;
            }
        }
        i += 1;
    }
    assert(layout.sections@.take(i as int) =~= layout.sections@);
    min_addr == u64::MAX || max_addr.saturating_sub(min_addr) <= BRANCH26_MAX_FORWARD_DELTA_BYTES
}

proof fn lemma_span_bounds(sections: Seq<OutputSection>, k: int)
    requires
        0 <= k < sections.len(),
        spans(sections[k]),
    ensures
        lowest(sections) <= sections[k].addr,
        sections[k].addr.saturating_add(sections[k].size) <= highest(sections),
    decreases sections.len(),
{
    if k < sections.len() - 1 {
        assert(sections.drop_last()[k] == sections[k]);
        lemma_span_bounds(sections.drop_last(), k);
    }
}

proof fn lemma_near_is_in_range(place: u64, target: u64)
    requires
        -0x07ff_fffc <= target - place <= 0x07ff_fffc,
        place % 4 == 0,
        target % 4 == 0,
    ensures
        encode::branch26_reaches(place, target),
{
    let delta: i64 = target.wrapping_sub(place) as i64;
    encode::lemma_signed_fits(delta >> 2);
    let d: u64 = target.wrapping_sub(place);
    assert(d == (if target >= place {
        target - place
    } else {
        0x1_0000_0000_0000_0000 + target - place
    }));
    assert(d % 4 == 0);
    assert((d as i64) & 0b11 == 0 && (-0x200_0000) <= ((d as i64) >> 2) && ((d as i64) >> 2)
        < 0x200_0000) by (bit_vector)
        requires
            d % 4 == 0,
            d <= 0x07ff_fffc || d >= 0xffff_ffff_f800_0004,
    ;
}

/// In an image that a branch can span, every branch between two sections reaches its
/// target: leaving out the thunks is safe.
pub proof fn law_spanned_image_needs_no_thunks(
    sections: Seq<OutputSection>,
    from: int,
    to: int,
    place: u64,
    target: u64,
)
    requires
        fits_branch26(sections),
        0 <= from < sections.len(),
        0 <= to < sections.len(),
        spans(sections[from]),
        spans(sections[to]),
        sections[from].addr <= place <= sections[from].addr + sections[from].size,
        sections[to].addr <= target <= sections[to].addr + sections[to].size,
        place % 4 == 0,
        target % 4 == 0,
    ensures
        encode::branch26_reaches(place, target),
{
    lemma_span_bounds(sections, from);
    lemma_span_bounds(sections, to);
    lemma_near_is_in_range(place, target);
}

/// Everything that decides which branches need thunks.
#[derive(Clone, Copy)]
pub struct ThunkPlanningContext<'a> {
    pub layout: &'a Layout,
    pub inputs: &'a [LayoutInput<'a>],
    pub atoms: &'a AtomTable,
    pub sym_table: &'a SymbolTable,
    pub synthetic_plan: Option<&'a SyntheticPlan>,
    pub icf_redirects: Option<&'a HashMap<u32, u32>>,
    pub parsed_relocs: &'a ParsedRelocCache,
}

impl<'a> ThunkPlanningContext<'a> {
    pub open spec fn targets(self) -> Targets {
        maps::targets_of(
            self.layout.sections@,
            self.atoms@,
            self.sym_table@,
            self.synthetic_plan,
            targets::redirect_map(self.icf_redirects),
        )
    }

    pub open spec fn wf(self) -> bool {
        &&& self.atoms.wf()
        &&& self.sym_table.wf()
        &&& maps::atoms_known(self.layout.sections@, self.atoms@)
        &&& targets::redirections_end(targets::redirect_map(self.icf_redirects))
    }
}

/// A branch at `place` to `target` gets a thunk.
pub open spec fn needs_thunk(mode: ThunkMode, place: u64, target: u64) -> bool {
    match mode {
        ThunkMode::Never => false,
        ThunkMode::Safe => !encode::branch26_reaches(place, target),
        ThunkMode::All => true,
    }
}

/// The plan after one more relocation of an atom.
pub open spec fn after_reloc(
    ctx: ThunkPlanningContext,
    mode: ThunkMode,
    m: ThunkModel,
    obj: ObjectFile,
    atom: Atom,
    reloc: Reloc,
) -> Result<ThunkModel, RelocFault> {
    let t = ctx.targets();
    let local = targets::offset_in_atom(reloc, atom);
    if reloc.kind != RelocKind::Branch26 {
        Ok(m)
    } else {
        match (
            t.atom_addr(atom.id),
            targets::lookup(maps::atom_sections(ctx.layout.sections@), atom.id.0),
        ) {
            (Some(base), Some(section)) => match targets::branch_key(t, obj, atom, reloc) {
                Err(e) => Err(e),
                Ok(key) => match targets::branch_key_target(t, obj, atom, reloc, key) {
                    Err(e) => Err(e),
                    Ok(target) => Ok(
                        if needs_thunk(mode, base.wrapping_add(local as u64), target) {
                            m.with_branch(
                                ctx.layout.sections@[section as int].segment@,
                                atom.id,
                                local,
                                key,
                            )
                        } else {
                            m
                        },
                    ),
                },
            },
            _ => Ok(m),
        }
    }
}

/// The plan after an atom's relocations.
pub open spec fn after_relocs(
    ctx: ThunkPlanningContext,
    mode: ThunkMode,
    m: ThunkModel,
    obj: ObjectFile,
    atom: Atom,
    relocs: Seq<Reloc>,
) -> Result<ThunkModel, RelocFault>
    decreases relocs.len(),
{
    if relocs.len() == 0 {
        Ok(m)
    } else {
        match after_relocs(ctx, mode, m, obj, atom, relocs.drop_last()) {
            Err(e) => Err(e),
            Ok(before) => after_reloc(ctx, mode, before, obj, atom, relocs.last()),
        }
    }
}

/// The plan after these atoms, in their order; atoms of unknown inputs are passed over.
pub open spec fn after_atoms(ctx: ThunkPlanningContext, mode: ThunkMode, atoms: Seq<Atom>) -> Result<
    ThunkModel,
    RelocFault,
>
    decreases atoms.len(),
{
    if atoms.len() == 0 {
        Ok(ThunkModel::empty())
    } else {
        match after_atoms(ctx, mode, atoms.drop_last()) {
            Err(e) => Err(e),
            Ok(m) => match maps::object_for(ctx.inputs@, atoms.last().origin) {
                None => Ok(m),
                Some(obj) => after_relocs(
                    ctx,
                    mode,
                    m,
                    obj,
                    atoms.last(),
                    maps::relocs_of(ctx.parsed_relocs@, atoms.last()),
                ),
            },
        }
    }
}

/// The thunks of a link; none where no branch needs one.
pub open spec fn thunk_plan(mode: ThunkMode, ctx: ThunkPlanningContext) -> Result<
    Option<ThunkModel>,
    RelocFault,
> {
    if mode == ThunkMode::Never || mode == ThunkMode::Safe && fits_branch26(
        ctx.layout.sections@,
    ) {
        Ok(None)
    } else {
        match after_atoms(ctx, mode, ctx.atoms@) {
            Err(e) => Err(e),
            Ok(m) => Ok(
                if m.entries.len() == 0 {
                    None
                } else {
                    Some(m)
                },
            ),
        }
    }
}

impl ThunkPlan {
    fn add_branch(
        &mut self,
        segment: &String,
        atom: AtomId,
        atom_offset: u32,
        target: BranchTargetKey,
    )
        requires
            old(self)@.wf(),
        ensures
            final(self)@ == old(self)@.with_branch(segment@, atom, atom_offset, target),
            final(self)@.wf(),
    {
        assert(self.entries.len() == self.entries@.len());
        assert(self.islands.len() == self.islands@.len());
        let ghost before = self@;
        let ghost before_islands = self.islands@;
        let island: usize = match find_island(&self.islands, atom) {
            Some(island) => island,
            None => {
                let next: usize = self.islands.len();
                self.islands.push(ThunkIsland { segment: segment.clone(), after_atom: atom });
                assert(islands_view(self.islands@) =~= islands_view(before_islands).push(
                    (segment@, atom),
                ));
                next
            },
        };
        let index: usize = match find_entry(&self.entries, island, target) {
            Some(index) => index,
            None => {
                let next: usize = self.entries.len();
                let slot_in_island: usize = count_entries(&self.entries, island);
                self.entries.push(ThunkEntry { island, slot_in_island, target });
                next
            },
        };
        self.redirects.insert(branch_number(atom, atom_offset), index);
        proof {
            assert(self@ =~= before.with_branch(segment@, atom, atom_offset, target));
            lemma_with_branch_wf(before, segment@, atom, atom_offset, target);
        }
    }
}

/// Adds the thunks that the branches of one atom need.
fn plan_atom(
    plan: &mut ThunkPlan,
    mode: ThunkMode,
    ctx: &ThunkPlanningContext<'_>,
    v: &ResolveView<'_>,
    atom_sections: &HashMap<u32, usize>,
    obj: &ObjectFile,
    atom: &Atom,
) -> (r: Result<(), RelocError>)
    requires
        old(plan)@.wf(),
        old(plan)@.symbols_known(ctx.sym_table@.symbols.len()),
        v.wf(),
        v@ == ctx.targets(),
        atom_sections@ == maps::atom_sections(ctx.layout.sections@),
    ensures
        match (
            r,
            after_relocs(
                *ctx,
                mode,
                old(plan)@,
                *obj,
                *atom,
                maps::relocs_of(ctx.parsed_relocs@, *atom),
            ),
        ) {
            (Ok(_), Ok(m)) => final(plan)@ == m && m.wf() && m.symbols_known(
                ctx.sym_table@.symbols.len(),
            ),
            (Err(e), Err(f)) => e@ == f,
            _ => false,
        },
{
    let relocs = cached_relocs_for_atom(ctx.parsed_relocs, atom);
    let ghost start = plan@;
    let ghost all = relocs@;
    let mut i: usize = 0;
    while i < relocs.len()
        invariant
            i <= relocs@.len(),
            relocs@ == all,
            start == old(plan)@,
            all == maps::relocs_of(ctx.parsed_relocs@, *atom),
            plan@.wf(),
            plan@.symbols_known(ctx.sym_table@.symbols.len()),
            v.wf(),
            v@ == ctx.targets(),
            atom_sections@ == maps::atom_sections(ctx.layout.sections@),
            after_relocs(*ctx, mode, start, *obj, *atom, all.take(i as int)) == Ok::<_, RelocFault>(
                plan@,
            ),
        decreases relocs@.len() - i,
    {
        let reloc = relocs[i];
        proof {
            assert(all.take(i + 1).drop_last() =~= all.take(i as int));
            assert(all.take(i + 1).last() == reloc);
        }
        let step = plan_branch(plan, mode, ctx, v, atom_sections, obj, atom, reloc);
        if let Err(e) = step {
            proof {
                lemma_relocs_fault(*ctx, mode, start, *obj, *atom, all, i + 1);
            }
            return Err(e);
        }
        i += 1;
    }
    assert(all.take(i as int) =~= all);
    Ok(())
}

/// An error among the first relocations is the error of them all.
proof fn lemma_relocs_fault(
    ctx: ThunkPlanningContext,
    mode: ThunkMode,
    m: ThunkModel,
    obj: ObjectFile,
    atom: Atom,
    relocs: Seq<Reloc>,
    n: int,
)
    requires
        0 <= n <= relocs.len(),
        after_relocs(ctx, mode, m, obj, atom, relocs.take(n)) is Err,
    ensures
        after_relocs(ctx, mode, m, obj, atom, relocs) == after_relocs(
            ctx,
            mode,
            m,
            obj,
            atom,
            relocs.take(n),
        ),
    decreases relocs.len() - n,
{
    if n < relocs.len() {
        assert(relocs.take(n + 1).drop_last() =~= relocs.take(n));
        lemma_relocs_fault(ctx, mode, m, obj, atom, relocs, n + 1);
    } else {
        assert(relocs.take(n) =~= relocs);
    }
}

fn plan_branch(
    plan: &mut ThunkPlan,
    mode: ThunkMode,
    ctx: &ThunkPlanningContext<'_>,
    v: &ResolveView<'_>,
    atom_sections: &HashMap<u32, usize>,
    obj: &ObjectFile,
    atom: &Atom,
    reloc: Reloc,
) -> (r: Result<(), RelocError>)
    requires
        old(plan)@.wf(),
        old(plan)@.symbols_known(ctx.sym_table@.symbols.len()),
        v.wf(),
        v@ == ctx.targets(),
        atom_sections@ == maps::atom_sections(ctx.layout.sections@),
    ensures
        match (r, after_reloc(*ctx, mode, old(plan)@, *obj, *atom, reloc)) {
            (Ok(_), Ok(m)) => final(plan)@ == m && m.wf() && m.symbols_known(
                ctx.sym_table@.symbols.len(),
            ),
            (Err(e), Err(f)) => e@ == f && final(plan)@ == old(plan)@,
            _ => false,
        },
{
    if reloc.kind != RelocKind::Branch26 {
        return Ok(());
    }
    let local_offset: u32 = reloc.offset.saturating_sub(atom.input_offset);
    let base: u64 = match find_addr(v.atom_addrs, atom.id.0) {
        Some(base) => base,
        None => {
            return Ok(());
        },
    };
    let section: usize = match atom_sections.get(&atom.id.0) {
        Some(section) => *section,
        None => {
            return Ok(());
        },
    };
    proof {
        assert(ctx.layout.sections.len() == ctx.layout.sections@.len());
        maps::lemma_atom_sections(ctx.layout.sections@, atom.id.0);
    }
    let place: u64 = base.wrapping_add(local_offset as u64);
    let key = match resolve_branch_target_key(obj, atom, reloc, v) {
        Ok(key) => key,
        Err(e) => {
            return Err(e);
        },
    };
    let target: u64 = match resolve_branch_target_from_key(obj, atom, reloc, key, v) {
        Ok(target) => target,
        Err(e) => {
            return Err(e);
        },
    };
    let needed = match mode {
        ThunkMode::Never => false,
        ThunkMode::Safe => !branch26_in_range(place, target),
        ThunkMode::All => true,
    };
    if needed {
        let ghost before = plan@;
        plan.add_branch(&ctx.layout.sections[section].segment, atom.id, local_offset, key);
        assert(plan@.symbols_known(ctx.sym_table@.symbols.len())) by {
            assert forall|i: int| 0 <= i < plan@.entries.len() implies match (
            #[trigger] plan@.entries[i]).target {
                BranchTargetKey::Symbol(id) => id.0 < ctx.sym_table@.symbols.len(),
                _ => true,
            } by {
                if i < before.entries.len() {
                    assert(plan@.entries[i] == before.entries[i]);
                }
            }
        }
    }
    Ok(())
}

/// Decides which branches go through thunks.
pub fn plan_thunks(opts: &LinkOptions, ctx: ThunkPlanningContext<'_>) -> (r: Result<
    Option<ThunkPlan>,
    RelocError,
>)
    requires
        ctx.wf(),
    ensures
        match (r, thunk_plan(opts.thunks, ctx)) {
            (Ok(Some(plan)), Ok(Some(m))) => plan@ == m && m.wf() && m.symbols_known(
                ctx.sym_table@.symbols.len(),
            ),
            (Ok(None), Ok(None)) => true,
            (Err(e), Err(f)) => e@ == f,
            _ => false,
        },
{
    if opts.thunks == ThunkMode::Never {
        return Ok(None);
    }
    if opts.thunks == ThunkMode::Safe && layout_fits_branch26_span(ctx.layout) {
        return Ok(None);
    }
    let input_map = InputMap::new(ctx.inputs);
    let atom_addrs = atom_address_map(ctx.layout);
    let atom_sections = atom_output_segment_map(ctx.layout);
    let atoms_by_input_section = ctx.atoms.by_input_section();
    let section_addrs = input_section_address_map(ctx.layout, ctx.atoms);
    let synth_addrs = synthetic_address_maps(ctx.layout, ctx.synthetic_plan);
    let v = ResolveView {
        sym_table: ctx.sym_table,
        atom_table: ctx.atoms,
        atoms_by_input_section: &atoms_by_input_section,
        atom_addrs: &atom_addrs,
        section_addrs: &section_addrs,
        stub_addrs: &synth_addrs.stub_addrs,
        got_addrs: &synth_addrs.got_addrs,
        thread_pointer_addrs: &synth_addrs.thread_pointer_addrs,
        lazy_pointer_addrs: &synth_addrs.lazy_pointer_addrs,
        stub_helper_entry_addrs: &synth_addrs.stub_helper_entry_addrs,
        stub_helper_header_addr: synth_addrs.stub_helper_header_addr,
        dyld_private_addr: synth_addrs.dyld_private_addr,
        icf_redirects: ctx.icf_redirects,
    };
    assert(v@ =~= ctx.targets());
    let mut plan = ThunkPlan {
        redirects: HashMap::new(),
        islands: Vec::new(),
        entries: Vec::new(),
    };
    let ghost table = ctx.atoms@;
    let mode = opts.thunks;
    assert(plan@ =~= ThunkModel::empty());
    let mut i: usize = 0;
    while i < ctx.atoms.len()
        invariant
            i <= table.len(),
            table == ctx.atoms@,
            mode == opts.thunks,
            mode != ThunkMode::Never,
            !(mode == ThunkMode::Safe && fits_branch26(ctx.layout.sections@)),
            ctx.atoms.wf(),
            plan@.wf(),
            plan@.symbols_known(ctx.sym_table@.symbols.len()),
            v.wf(),
            v@ == ctx.targets(),
            input_map.wf(),
            input_map@ == ctx.inputs@,
            atom_sections@ == maps::atom_sections(ctx.layout.sections@),
            after_atoms(ctx, mode, table.take(i as int)) == Ok::<_, RelocFault>(plan@),
        decreases table.len() - i,
    {
        let atom = ctx.atoms.get(AtomId((i + 1) as u32));
        proof {
            assert(table.take(i + 1).drop_last() =~= table.take(i as int));
            assert(table.take(i + 1).last() == *atom);
        }
        if let Some(obj) = input_map.get(atom.origin) {
            let step = plan_atom(&mut plan, mode, &ctx, &v, &atom_sections, obj, atom);
            if let Err(e) = step {
                proof {
                    lemma_atoms_fault(ctx, mode, table, i + 1);
                }
                return Err(e);
            }
        }
        i += 1;
    }
    assert(table.take(i as int) =~= table);
    if plan.entries.len() == 0 {
        Ok(None)
    } else {
        Ok(Some(plan))
    }
}

/// An error among the first atoms is the error of them all.
proof fn lemma_atoms_fault(ctx: ThunkPlanningContext, mode: ThunkMode, atoms: Seq<Atom>, n: int)
    requires
        0 <= n <= atoms.len(),
        after_atoms(ctx, mode, atoms.take(n)) is Err,
    ensures
        after_atoms(ctx, mode, atoms) == after_atoms(ctx, mode, atoms.take(n)),
    decreases atoms.len() - n,
{
    if n < atoms.len() {
        assert(atoms.take(n + 1).drop_last() =~= atoms.take(n));
        lemma_atoms_fault(ctx, mode, atoms, n + 1);
    } else {
        assert(atoms.take(n) =~= atoms);
    }
}

} // verus!
