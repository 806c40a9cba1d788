//! Which atom covers a part of an input section.

use std::collections::HashMap;
use vstd::prelude::*;
use crate::atom;
use crate::atom::{key_of_section, Atom, AtomTable, SectionIndex};
use crate::reloc::arm64::targets;
use crate::reloc::arm64::targets::canonical_atom;
use crate::resolve::{AtomId, InputId};
use crate::sorting;
use crate::sorting::{stable_sort, Order};

verus! {

broadcast use vstd::std_specs::hash::group_hash_axioms;

/// The part of an input section that an atom covers; `atom` is the one that stands for
/// it in the output.
#[derive(Debug, Clone, Copy, PartialEq, Eq, Structural)]
pub struct AtomRange {
    pub atom: AtomId,
    pub start: u32,
    pub end: u32,
}

/// Ranges by where they start, then by where they end.
pub struct ByStart;

impl Order<AtomRange> for ByStart {
    open spec fn less(a: AtomRange, b: AtomRange) -> bool {
        a.start < b.start || a.start == b.start && a.end < b.end
    }

    fn is_less(a: &AtomRange, b: &AtomRange) -> (r: bool) {
        a.start < b.start || a.start == b.start && a.end < b.end
    }

    proof fn law_asymmetric(a: AtomRange, b: AtomRange) {
    }

    proof fn law_transitive(a: AtomRange, b: AtomRange, c: AtomRange) {
    }
}

/// The range of an atom.
pub open spec fn range_of(atoms: Seq<Atom>, redirects: Map<u32, u32>, id: AtomId) -> AtomRange {
    let a = atoms[id.0 - 1];
    AtomRange {
        atom: targets::canonical(redirects, id),
        start: a.input_offset,
        end: targets::atom_end(a),
    }
}

/// The ranges of an input section's atoms, in order.
pub open spec fn section_ranges(atoms: Seq<Atom>, redirects: Map<u32, u32>, key: u64) -> Seq<
    AtomRange,
> {
    sorting::stable_sorted::<AtomRange, ByStart>(
        atom::section_atoms(atoms, key).map_values(|id: AtomId| range_of(atoms, redirects, id)),
    )
}

/// The ranges of every input section.
#[derive(Debug)]
pub struct AtomRangeIndex {
    map: HashMap<u64, Vec<AtomRange>>,
}

impl AtomRangeIndex {
    /// The ranges of an input section.
    pub closed spec fn ranges(self, key: u64) -> Seq<AtomRange> {
        if self.map@.contains_key(key) {
            self.map@[key]@
        } else {
            seq![]
        }
    }

    /// The ranges of each section are in order.
    pub open spec fn wf(self) -> bool {
        forall|key: u64|
            sorting::in_order::<AtomRange, ByStart>(#[trigger] self.ranges(key))
    }

    /// The index holds the ranges of these atoms.
    pub open spec fn indexes(self, atoms: Seq<Atom>, redirects: Map<u32, u32>) -> bool {
        forall|key: u64| #[trigger]
            self.ranges(key) == section_ranges(atoms, redirects, key)
    }
}

proof fn lemma_no_atom(atoms: Seq<Atom>, key: u64)
    requires
        forall|i: int|
            0 <= i < atoms.len() ==> atom::section_key(
                (#[trigger] atoms[i]).origin,
                atoms[i].input_section,
            ) != key,
    ensures
        atom::section_atoms(atoms, key).len() == 0,
    decreases atoms.len(),
{
    if atoms.len() > 0 {
        assert(atoms.last() == atoms[atoms.len() - 1]);
        assert forall|i: int| 0 <= i < atoms.len() - 1 implies atom::section_key(
            (#[trigger] atoms.drop_last()[i]).origin,
            atoms.drop_last()[i].input_section,
        ) != key by {
            assert(atoms.drop_last()[i] == atoms[i]);
        }
        lemma_no_atom(atoms.drop_last(), key);
    }
}

fn ranges_in_section(
    atom_table: &AtomTable,
    index: &SectionIndex,
    origin: InputId,
    section: u8,
    icf_redirects: Option<&HashMap<u32, u32>>,
) -> (r: Vec<AtomRange>)
    requires
        atom_table.wf(),
        index.lists(atom_table@),
        targets::redirections_end(targets::redirect_map(icf_redirects)),
    ensures
        r@ == section_ranges(
            atom_table@,
            targets::redirect_map(icf_redirects),
            atom::section_key(origin, section),
        ),
{
    let ghost key = atom::section_key(origin, section);
    let ghost redirects = targets::redirect_map(icf_redirects);
    let ghost all = atom::section_atoms(atom_table@, key);
    let ghost f = |id: AtomId| range_of(atom_table@, redirects, id);
    let mut ranges: Vec<AtomRange> = Vec::new();
    if let Some(ids) = index.get(origin, section, Ghost(atom_table@)) {
        let mut i: usize = 0;
        while i < ids.len()
            invariant
                i <= ids@.len(),
                ids@ == all,
                all == atom::section_atoms(atom_table@, key),
                atom_table.wf(),
                redirects == targets::redirect_map(icf_redirects),
                targets::redirections_end(redirects),
                ranges@.len() == i,
                forall|k: int|
                    0 <= k < i ==> #[trigger] ranges@[k] == range_of(
                        atom_table@,
                        redirects,
                        all[k],
                    ),
            decreases ids@.len() - i,
        {
            proof {
                targets::lemma_section_atoms_exist(atom_table@, key, i as int);
            }
            let a = atom_table.get(ids[i]);
            ranges.push(
                AtomRange {
                    atom: canonical_atom(ids[i], icf_redirects),
                    start: a.input_offset,
                    end: a.input_offset.saturating_add(a.size),
                },
            );
            i += 1;
        }
    }
    assert(ranges@ =~= all.map_values(f));
    stable_sort::<AtomRange, ByStart>(&mut ranges);
    ranges
}

pub fn build_atom_range_index(
    atom_table: &AtomTable,
    atoms_by_input_section: &SectionIndex,
    icf_redirects: Option<&HashMap<u32, u32>>,
) -> (r: AtomRangeIndex)
    requires
        atom_table.wf(),
        atoms_by_input_section.lists(atom_table@),
        targets::redirections_end(targets::redirect_map(icf_redirects)),
    ensures
        r.wf(),
        r.indexes(atom_table@, targets::redirect_map(icf_redirects)),
{
    let ghost redirects = targets::redirect_map(icf_redirects);
    let ghost atoms = atom_table@;
    let mut map: HashMap<u64, Vec<AtomRange>> = HashMap::new();
    let mut i: usize = 0;
    while i < atom_table.len()
        invariant
            i <= atoms.len(),
            atoms == atom_table@,
            atom_table.wf(),
            atoms_by_input_section.lists(atoms),
            redirects == targets::redirect_map(icf_redirects),
            targets::redirections_end(redirects),
            forall|key: u64|
                #![trigger map@.contains_key(key)]
                map@.contains_key(key) ==> map@[key]@ == section_ranges(atoms, redirects, key),
            forall|k: int|
                0 <= k < i ==> map@.contains_key(
                    atom::section_key((#[trigger] atoms[k]).origin, atoms[k].input_section),
                ),
        decreases atoms.len() - i,
    {
        let a = atom_table.get(AtomId((i + 1) as u32));
        let key: u64 = key_of_section(a.origin, a.input_section);
        if !map.contains_key(&key) {
            let ranges = ranges_in_section(
                atom_table,
                atoms_by_input_section,
                a.origin,
                a.input_section,
                icf_redirects,
            );
            map.insert(key, ranges);
        }
        i += 1;
    }
    let r = AtomRangeIndex { map };
    proof {
        assert forall|key: u64| #[trigger] r.ranges(key) == section_ranges(
            atoms,
            redirects,
            key,
        ) by {
            if !r.map@.contains_key(key) {
                lemma_no_atom(atoms, key);
                let f = |id: AtomId| range_of(atoms, redirects, id);
                assert(atom::section_atoms(atoms, key).map_values(f) =~= seq![]);
            }
        }
        assert forall|key: u64| sorting::in_order::<AtomRange, ByStart>(
            #[trigger] r.ranges(key),
        ) by {
            let f = |id: AtomId| range_of(atoms, redirects, id);
            sorting::law_sorted::<AtomRange, ByStart>(
                atom::section_atoms(atoms, key).map_values(f),
            );
        }
    }
    r
}

/// The last range that starts at or before `offset`.
pub open spec fn last_start(ranges: Seq<AtomRange>, offset: u32) -> Option<int>
    decreases ranges.len(),
{
    if ranges.len() == 0 {
        None
    } else if ranges.last().start <= offset {
        Some(ranges.len() - 1)
    } else {
        last_start(ranges.drop_last(), offset)
    }
}

/// The atom whose range holds `len` bytes from `offset` on, and how far into it they
/// start.
pub open spec fn containing(ranges: Seq<AtomRange>, offset: u32, len: u32) -> Option<(AtomId, u32)> {
    match last_start(ranges, offset) {
        None => None,
        Some(i) => if offset + len <= u32::MAX && offset + len <= ranges[i].end {
            Some((ranges[i].atom, (offset - ranges[i].start) as u32))
        } else {
            None
        },
    }
}

proof fn lemma_last_start(ranges: Seq<AtomRange>, offset: u32, n: int)
    requires
        0 <= n <= ranges.len(),
        n == 0 || ranges[n - 1].start <= offset,
        forall|k: int| n <= k < ranges.len() ==> (#[trigger] ranges[k]).start > offset,
    ensures
        last_start(ranges, offset) == if n == 0 {
            None
        } else {
            Some(n - 1)
        },
    decreases ranges.len(),
{
    if ranges.len() > n {
        assert(ranges.last() == ranges[ranges.len() - 1]);
        lemma_last_start(ranges.drop_last(), offset, n);
    } else if n > 0 {
        assert(ranges.last() == ranges[n - 1]);
    }
}

/// How many of the ranges start at or before `offset`; they are the first.
fn starts_up_to(ranges: &Vec<AtomRange>, offset: u32) -> (n: usize)
    requires
        sorting::in_order::<AtomRange, ByStart>(ranges@),
    ensures
        n <= ranges@.len(),
        n == 0 || ranges@[n - 1].start <= offset,
        forall|k: int| n <= k < ranges@.len() ==> (#[trigger] ranges@[k]).start > offset,
{
    let mut lo: usize = 0;
    let mut hi: usize = ranges.len();
    while lo < hi
        invariant
            lo <= hi <= ranges@.len(),
            sorting::in_order::<AtomRange, ByStart>(ranges@),
            lo == 0 || ranges@[lo - 1].start <= offset,
            forall|k: int| hi <= k < ranges@.len() ==> (#[trigger] ranges@[k]).start > offset,
        decreases hi - lo,
    {
        let mid: usize = lo + (hi - lo) / 2;
        if ranges[mid].start <= offset {
            lo = mid + 1;
        } else {
            assert forall|k: int| mid <= k < ranges@.len() implies (#[trigger] ranges@[k]).start
                > offset by {
                if k > mid {
                    assert(!ByStart::less(ranges@[k], ranges@[mid as int]));
                }
            }
            hi = mid;
        }
    }
    lo
}

/// Finds the atom that covers `len` bytes of an input section from `offset` on.
pub fn find_containing_atom_range(
    atom_ranges: &AtomRangeIndex,
    input_id: InputId,
    input_section: u8,
    offset: u32,
    len: u32,
) -> (r: Option<(AtomId, u32)>)
    requires
        atom_ranges.wf(),
    ensures
        r == containing(
            atom_ranges.ranges(atom::section_key(input_id, input_section)),
            offset,
            len,
        ),
{
    let ghost key = atom::section_key(input_id, input_section);
    assert(sorting::in_order::<AtomRange, ByStart>(atom_ranges.ranges(key)));
    let ranges = match atom_ranges.map.get(&key_of_section(input_id, input_section)) {
        Some(ranges) => ranges,
        None => {
            return None;
        },
    };
    let n: usize = starts_up_to(ranges, offset);
    proof {
        lemma_last_start(ranges@, offset, n as int);
    }
    if len > u32::MAX - offset || n == 0 {
        return None;
    }
    let range = ranges[n - 1];
    if offset + len <= range.end {
        Some((range.atom, offset - range.start))
    } else {
        None
    }
}

/// Finds the atom that covers the byte of an input section at `offset`.
pub fn find_containing_atom(
    atom_ranges: &AtomRangeIndex,
    input_id: InputId,
    input_section: u8,
    offset: u32,
) -> (r: Option<(AtomId, u32)>)
    requires
        atom_ranges.wf(),
    ensures
        r == containing(
            atom_ranges.ranges(atom::section_key(input_id, input_section)),
            offset,
            1,
        ),
{
    find_containing_atom_range(atom_ranges, input_id, input_section, offset, 1)
}

} // verus!
