//! The output layout: which sections and segments the image has, and where.

use vstd::prelude::*;
use crate::input::ObjectFile;
use crate::options::OutputKind;
use crate::resolve::{AtomId, InputId};
use crate::section::{OutputAtom, OutputSection, OutputSegment};
use crate::text::same_text;

verus! {

/// Segments start at multiples of this.
pub const PAGE_SIZE: u64 = 0x4000;

#[derive(Debug)]
pub struct Layout {
    pub kind: OutputKind,
    pub segments: Vec<OutputSegment>,
    pub sections: Vec<OutputSection>,
}

/// An object file that takes part in the link.
#[derive(Debug, Clone, Copy)]
pub struct LayoutInput<'a> {
    pub id: InputId,
    pub object: &'a ObjectFile,
    pub load_order: usize,
    pub archive_member_offset: Option<u32>,
}

/// Where an extra output section goes.
#[derive(Debug, Clone, Copy, PartialEq, Eq, Structural)]
pub enum ExtraSectionAnchor {
    AfterAtom(AtomId),
}

/// A section that is added to the layout.
#[derive(Debug)]
pub struct ExtraOutputSection {
    pub after_section: Option<ExtraSectionAnchor>,
    pub section: OutputSection,
}

/// A section's segment and name.
pub open spec fn is_section(s: OutputSection, segment: Seq<char>, name: Seq<char>) -> bool {
    s.segment@ == segment && s.name@ == name
}

/// The first section of that segment and name.
pub open spec fn section_at(sections: Seq<OutputSection>, segment: Seq<char>, name: Seq<char>) -> Option<
    int,
>
    decreases sections.len(),
{
    if sections.len() == 0 {
        None
    } else {
        match section_at(sections.drop_last(), segment, name) {
            Some(i) => Some(i),
            None => if is_section(sections.last(), segment, name) {
                Some(sections.len() - 1)
            } else {
                None
            },
        }
    }
}

pub proof fn lemma_section_at(sections: Seq<OutputSection>, segment: Seq<char>, name: Seq<char>)
    ensures
        match section_at(sections, segment, name) {
            Some(i) => 0 <= i < sections.len() && is_section(sections[i], segment, name)
                && forall|k: int| 0 <= k < i ==> !is_section(#[trigger] sections[k], segment, name),
            None => forall|k: int|
                0 <= k < sections.len() ==> !is_section(#[trigger] sections[k], segment, name),
        },
    decreases sections.len(),
{
    if sections.len() > 0 {
        lemma_section_at(sections.drop_last(), segment, name);
        assert forall|k: int| 0 <= k < sections.len() - 1 implies sections.drop_last()[k]
            == #[trigger] sections[k] by {}
    }
}

/// The first segment of that name.
pub open spec fn segment_at(segments: Seq<OutputSegment>, name: Seq<char>) -> Option<int>
    decreases segments.len(),
{
    if segments.len() == 0 {
        None
    } else {
        match segment_at(segments.drop_last(), name) {
            Some(i) => Some(i),
            None => if segments.last().name@ == name {
                Some(segments.len() - 1)
            } else {
                None
            },
        }
    }
}

pub proof fn lemma_segment_at(segments: Seq<OutputSegment>, name: Seq<char>)
    ensures
        match segment_at(segments, name) {
            Some(i) => 0 <= i < segments.len() && segments[i].name@ == name && forall|k: int|
                0 <= k < i ==> (#[trigger] segments[k]).name@ != name,
            None => forall|k: int|
                0 <= k < segments.len() ==> (#[trigger] segments[k]).name@ != name,
        },
    decreases segments.len(),
{
    if segments.len() > 0 {
        lemma_segment_at(segments.drop_last(), name);
        assert forall|k: int| 0 <= k < segments.len() - 1 implies segments.drop_last()[k]
            == #[trigger] segments[k] by {}
    }
}

/// Where an atom stands in a section's list: its first entry.
pub open spec fn atom_at(atoms: Seq<OutputAtom>, atom: AtomId) -> Option<int>
    decreases atoms.len(),
{
    if atoms.len() == 0 {
        None
    } else {
        match atom_at(atoms.drop_last(), atom) {
            Some(i) => Some(i),
            None => if atoms.last().atom == atom {
                Some(atoms.len() - 1)
            } else {
                None
            },
        }
    }
}

pub proof fn lemma_atom_at(atoms: Seq<OutputAtom>, atom: AtomId)
    ensures
        match atom_at(atoms, atom) {
            Some(i) => 0 <= i < atoms.len() && atoms[i].atom == atom && forall|k: int|
                0 <= k < i ==> (#[trigger] atoms[k]).atom != atom,
            None => forall|k: int| 0 <= k < atoms.len() ==> (#[trigger] atoms[k]).atom != atom,
        },
    decreases atoms.len(),
{
    if atoms.len() > 0 {
        lemma_atom_at(atoms.drop_last(), atom);
        assert forall|k: int| 0 <= k < atoms.len() - 1 implies atoms.drop_last()[k]
            == #[trigger] atoms[k] by {}
    }
}

/// The file offset of an atom in the first section that holds it.
pub open spec fn atom_file_offset_in(sections: Seq<OutputSection>, atom: AtomId) -> Option<u64>
    decreases sections.len(),
{
    if sections.len() == 0 {
        None
    } else {
        match atom_at(sections.first().atoms@, atom) {
            Some(k) => Some(
                sections.first().file_off.wrapping_add(sections.first().atoms@[k].offset),
            ),
            None => atom_file_offset_in(sections.drop_first(), atom),
        }
    }
}

impl Layout {
    pub fn find_section(&self, segment: &str, name: &str) -> (r: Option<usize>)
        ensures
            match r {
                Some(i) => section_at(self.sections@, segment@, name@) == Some(i as int) && i
                    < self.sections@.len(),
                None => section_at(self.sections@, segment@, name@) is None,
            },
    {
        let mut i: usize = 0;
        proof {
            lemma_section_at(self.sections@, segment@, name@);
        }
        while i < self.sections.len()
            invariant
                i <= self.sections@.len(),
                forall|k: int|
                    0 <= k < i ==> !is_section(#[trigger] self.sections@[k], segment@, name@),
                match section_at(self.sections@, segment@, name@) {
                    Some(j) => 0 <= j < self.sections@.len() && is_section(
                        self.sections@[j],
                        segment@,
                        name@,
                    ) && forall|k: int|
                        0 <= k < j ==> !is_section(#[trigger] self.sections@[k], segment@, name@),
                    None => forall|k: int|
                        0 <= k < self.sections@.len() ==> !is_section(
                            #[trigger] self.sections@[k],
                            segment@,
                            name@,
                        ),
                },
            decreases self.sections@.len() - i,
        {
            if same_text(self.sections[i].segment.as_str(), segment) && same_text(
                self.sections[i].name.as_str(),
                name,
            ) {
                assert(is_section(self.sections@[i as int], segment@, name@));
                return Some(i);
            }
            i += 1;
        }
        None
    }

    pub fn find_segment(&self, name: &str) -> (r: Option<usize>)
        ensures
            match r {
                Some(i) => segment_at(self.segments@, name@) == Some(i as int) && i
                    < self.segments@.len(),
                None => segment_at(self.segments@, name@) is None,
            },
    {
        let mut i: usize = 0;
        proof {
            lemma_segment_at(self.segments@, name@);
        }
        while i < self.segments.len()
            invariant
                i <= self.segments@.len(),
                forall|k: int| 0 <= k < i ==> (#[trigger] self.segments@[k]).name@ != name@,
                match segment_at(self.segments@, name@) {
                    Some(j) => 0 <= j < self.segments@.len() && self.segments@[j].name@ == name@
                        && forall|k: int|
                        0 <= k < j ==> (#[trigger] self.segments@[k]).name@ != name@,
                    None => forall|k: int|
                        0 <= k < self.segments@.len() ==> (#[trigger] self.segments@[k]).name@
                            != name@,
                },
            decreases self.segments@.len() - i,
        {
            if same_text(self.segments[i].name.as_str(), name) {
                return Some(i);
            }
            i += 1;
        }
        None
    }

    /// The segment of that name.
    pub fn segment(&self, name: &str) -> (r: Option<&OutputSegment>)
        ensures
            match r {
                Some(segment) => segment_at(self.segments@, name@) is Some && *segment
                    == self.segments@[segment_at(self.segments@, name@)->0],
                None => segment_at(self.segments@, name@) is None,
            },
    {
        match self.find_segment(name) {
            Some(i) => Some(&self.segments[i]),
            None => None,
        }
    }

    /// Where an atom stands in the file, by the first section that holds it.
    pub fn atom_file_offset(&self, atom: AtomId) -> (r: Option<u64>)
        ensures
            r == atom_file_offset_in(self.sections@, atom),
    {
        let mut i: usize = 0;
        assert(self.sections@.skip(0) =~= self.sections@);
        while i < self.sections.len()
            invariant
                i <= self.sections@.len(),
                atom_file_offset_in(self.sections@, atom) == atom_file_offset_in(
                    self.sections@.skip(i as int),
                    atom,
                ),
            decreases self.sections@.len() - i,
        {
            let section = &self.sections[i];
            assert(self.sections@.skip(i as int).first() == *section);
            assert(self.sections@.skip(i as int).drop_first() =~= self.sections@.skip(i + 1));
            if let Some(k) = find_atom(&section.atoms, atom) {
                return Some(section.file_off.wrapping_add(section.atoms[k].offset));
            }
            i += 1;
        }
        None
    }
}

fn find_atom(atoms: &Vec<OutputAtom>, atom: AtomId) -> (r: Option<usize>)
    ensures
        match r {
            Some(k) => atom_at(atoms@, atom) == Some(k as int) && k < atoms@.len(),
            None => atom_at(atoms@, atom) is None,
        },
{
    proof {
        lemma_atom_at(atoms@, atom);
    }
    let mut k: usize = 0;
    while k < atoms.len()
        invariant
            k <= atoms@.len(),
            forall|j: int| 0 <= j < k ==> (#[trigger] atoms@[j]).atom != atom,
            match atom_at(atoms@, atom) {
                Some(j) => 0 <= j < atoms@.len() && atoms@[j].atom == atom && forall|m: int|
                    0 <= m < j ==> (#[trigger] atoms@[m]).atom != atom,
                None => forall|m: int| 0 <= m < atoms@.len() ==> (#[trigger] atoms@[m]).atom
                    != atom,
            },
        decreases atoms@.len() - k,
    {
        if atoms[k].atom == atom {
            return Some(k);
        }
        k += 1;
    }
    None
}

} // verus!
