//! The function starts of an image: the sorted places where code is entered, each
//! written as its distance from the one before.

use std::collections::HashMap;
use vstd::prelude::*;
use crate::atom;
use crate::atom::{key_of_section, AltEntry, Atom, AtomTable};
use crate::bytes;
use crate::bytes::push_zeros;
use crate::input::ObjectFile;
use crate::layout;
use crate::layout::{Layout, LayoutInput};
use crate::leb;
use crate::leb::write_uleb;
use crate::macho::writer;
use crate::macho::writer::{WriteError, WriteFault};
use crate::reloc::arm64::maps;
use crate::reloc::arm64::targets;
use crate::resolve::InputId;
use crate::section;
use crate::section::{is_executable, OutputAtom, OutputSection};
use crate::sorting;
use crate::sorting::{sort_distinct, Ascending, Order};
use crate::symbol::{InputSymbol, SymKind};
use crate::text::{chars_of, same_text};

verus! {

broadcast use vstd::std_specs::hash::group_hash_axioms;

/// A name that the assembler makes up for itself.
pub open spec fn temporary_name(name: Seq<char>) -> bool {
    name.len() >= 1 && name[0] == 'L' || name.len() >= 4 && name.take(4) == "ltmp"@
}

pub fn is_assembler_temporary_symbol(name: &str) -> (r: bool)
    ensures
        r == temporary_name(name@),
{
    let chars = chars_of(name);
    proof {
        reveal_strlit("ltmp");
        if name@.len() >= 4 {
            assert(name@.take(4) == "ltmp"@ <==> name@[0] == 'l' && name@[1] == 't' && name@[2]
                == 'm' && name@[3] == 'p') by {
                let t = name@.take(4);
                if name@[0] == 'l' && name@[1] == 't' && name@[2] == 'm' && name@[3] == 'p' {
                    assert(t =~= "ltmp"@);
                } else if t == "ltmp"@ {
                    assert(t[0] == 'l' && t[1] == 't' && t[2] == 'm' && t[3] == 'p');
                }
            }
        }
    }
    if chars.len() >= 1 && chars[0] == 'L' {
        return true;
    }
    chars.len() >= 4 && chars[0] == 'l' && chars[1] == 't' && chars[2] == 'm' && chars[3] == 'p'
}

/// A symbol that names a place in a section of its file.
pub open spec fn names_code(obj: ObjectFile, sym: InputSymbol) -> bool {
    &&& !sym.is_stab()
    &&& sym.spec_kind() == SymKind::Sect
    &&& !sym.spec_alt_entry()
    &&& match obj.name_of(sym) {
        Ok(name) => !temporary_name(name),
        Err(_) => false,
    }
    &&& obj.section_index(sym) is Some
}

fn symbol_names_code(obj: &ObjectFile, sym: &InputSymbol) -> (r: bool)
    ensures
        r == names_code(*obj, *sym),
{
    if sym.stab_kind().is_some() || sym.kind() != SymKind::Sect || sym.alt_entry() {
        return false;
    }
    match obj.symbol_name(sym) {
        Ok(name) => !is_assembler_temporary_symbol(name) && obj.section_for_symbol(sym).is_some(),
        Err(_) => false,
    }
}

/// The places that the symbols of one file name in one section.
pub open spec fn file_offsets(
    obj: ObjectFile,
    id: InputId,
    symbols: Seq<InputSymbol>,
    key: u64,
) -> Seq<u64>
    decreases symbols.len(),
{
    if symbols.len() == 0 {
        seq![]
    } else {
        let rest = file_offsets(obj, id, symbols.drop_last(), key);
        let sym = symbols.last();
        if names_code(obj, sym) && atom::section_key(id, sym.raw.n_sect) == key {
            rest.push(targets::section_relative(obj, sym))
        } else {
            rest
        }
    }
}

/// The places that symbols name in one input section.
pub open spec fn named_offsets(inputs: Seq<LayoutInput>, key: u64) -> Seq<u64>
    decreases inputs.len(),
{
    if inputs.len() == 0 {
        seq![]
    } else {
        let input = inputs.last();
        named_offsets(inputs.drop_last(), key) + file_offsets(
            *input.object,
            input.id,
            input.object.symbols@,
            key,
        )
    }
}

/// The places that symbols name in each input section.
pub struct FunctionStartSymbolIndex {
    map: HashMap<u64, Vec<u64>>,
}

impl FunctionStartSymbolIndex {
    pub closed spec fn offsets(self, key: u64) -> Seq<u64> {
        if self.map@.contains_key(key) {
            self.map@[key]@
        } else {
            seq![]
        }
    }

    fn add(&mut self, key: u64, offset: u64)
        ensures
            forall|k: u64| #[trigger]
                final(self).offsets(k) == if k == key {
                    old(self).offsets(k).push(offset)
                } else {
                    old(self).offsets(k)
                },
    {
        let ghost before = *self;
        let mut list: Vec<u64> = match self.map.remove(&key) {
            Some(list) => list,
            None => Vec::new(),
        };
        assert(list@ =~= before.offsets(key));
        list.push(offset);
        self.map.insert(key, list);
        assert forall|k: u64| #[trigger]
            self.offsets(k) == if k == key {
                before.offsets(k).push(offset)
            } else {
                before.offsets(k)
            } by {
            if k != key {
                assert(self.map@.contains_key(k) == before.map@.contains_key(k));
            }
        }
    }
}

pub fn build_function_start_symbol_index(inputs: &[LayoutInput<'_>]) -> (r: FunctionStartSymbolIndex)
    ensures
        forall|key: u64| #[trigger] r.offsets(key) == named_offsets(inputs@, key),
{
    let mut out = FunctionStartSymbolIndex { map: HashMap::new() };
    let mut i: usize = 0;
    while i < inputs.len()
        invariant
            i <= inputs@.len(),
            forall|key: u64| #[trigger]
                out.offsets(key) == named_offsets(inputs@.take(i as int), key),
        decreases inputs@.len() - i,
    {
        let input = &inputs[i];
        let obj = input.object;
        let ghost before = out;
        assert(forall|key: u64| #[trigger]
            before.offsets(key) == named_offsets(inputs@.take(i as int), key));
        let mut k: usize = 0;
        assert forall|key: u64| #[trigger] out.offsets(key) == before.offsets(key) + file_offsets(
            *obj,
            input.id,
            obj.symbols@.take(0),
            key,
        ) by {
            assert(before.offsets(key) + Seq::<u64>::empty() =~= before.offsets(key));
        }
        while k < obj.symbols.len()
            invariant
                k <= obj.symbols@.len(),
                forall|key: u64| #[trigger]
                    out.offsets(key) == before.offsets(key) + file_offsets(
                        *obj,
                        input.id,
                        obj.symbols@.take(k as int),
                        key,
                    ),
            decreases obj.symbols@.len() - k,
        {
            let sym = &obj.symbols[k];
            let ghost prev = out;
            proof {
                assert(forall|key: u64| #[trigger]
                    prev.offsets(key) == before.offsets(key) + file_offsets(
                        *obj,
                        input.id,
                        obj.symbols@.take(k as int),
                        key,
                    ));
                assert(obj.symbols@.take(k + 1).drop_last() =~= obj.symbols@.take(k as int));
                assert(obj.symbols@.take(k + 1).last() == *sym);
            }
            if symbol_names_code(obj, sym) {
                if let Some(s) = obj.section_for_symbol(sym) {
                    let offset: u64 = sym.value().saturating_sub(s.addr);
                    out.add(key_of_section(input.id, sym.sect_idx()), offset);
                }
            }
            proof {
                assert forall|key: u64| #[trigger]
                    out.offsets(key) == before.offsets(key) + file_offsets(
                        *obj,
                        input.id,
                        obj.symbols@.take(k + 1),
                        key,
                    ) by {
                    assert(prev.offsets(key) == before.offsets(key) + file_offsets(
                        *obj,
                        input.id,
                        obj.symbols@.take(k as int),
                        key,
                    ));
                    assert(out.offsets(key) =~= before.offsets(key) + file_offsets(
                        *obj,
                        input.id,
                        obj.symbols@.take(k + 1),
                        key,
                    ));
                }
            }
            k += 1;
        }
        proof {
            assert(obj.symbols@.take(k as int) =~= obj.symbols@);
            assert(inputs@.take(i + 1).drop_last() =~= inputs@.take(i as int));
            assert(inputs@.take(i + 1).last() == inputs@[i as int]);
            assert forall|key: u64| #[trigger]
                out.offsets(key) == named_offsets(inputs@.take(i + 1), key) by {
                assert(before.offsets(key) == named_offsets(inputs@.take(i as int), key));
            }
        }
        i += 1;
    }
    assert(inputs@.take(i as int) =~= inputs@);
    out
}

/// The other entries of an atom that stands at `at`.
pub open spec fn alt_starts(at: u64, alts: Seq<AltEntry>, base: u64) -> Seq<u64> {
    alts.map_values(
        |alt: AltEntry|
            at.wrapping_add(alt.offset_within_atom as u64).wrapping_sub(base),
    )
}

/// The places that symbols name inside an atom that stands at `at`, but for its start.
pub open spec fn inner_starts(at: u64, atom: Atom, offsets: Seq<u64>, base: u64) -> Seq<u64>
    decreases offsets.len(),
{
    if offsets.len() == 0 {
        seq![]
    } else {
        let rest = inner_starts(at, atom, offsets.drop_last(), base);
        let offset = offsets.last();
        if atom.input_offset < offset < atom.input_offset + atom.size {
            rest.push(at.wrapping_add((offset - atom.input_offset) as u64).wrapping_sub(base))
        } else {
            rest
        }
    }
}

/// Where the code of a placed atom is entered, from the start of the image.
pub open spec fn atom_starts(
    section_addr: u64,
    placed: OutputAtom,
    atoms: Seq<Atom>,
    inputs: Seq<LayoutInput>,
    base: u64,
) -> Seq<u64> {
    let at = section_addr.wrapping_add(placed.offset);
    let a = atoms[placed.atom.0 - 1];
    seq![at.wrapping_sub(base)] + alt_starts(at, a.alt_entries@, base) + inner_starts(
        at,
        a,
        named_offsets(inputs, atom::section_key(a.origin, a.input_section)),
        base,
    )
}

pub open spec fn section_starts(
    section_addr: u64,
    placed: Seq<OutputAtom>,
    atoms: Seq<Atom>,
    inputs: Seq<LayoutInput>,
    base: u64,
) -> Seq<u64>
    decreases placed.len(),
{
    if placed.len() == 0 {
        seq![]
    } else {
        section_starts(section_addr, placed.drop_last(), atoms, inputs, base) + atom_starts(
            section_addr,
            placed.last(),
            atoms,
            inputs,
            base,
        )
    }
}

/// A section whose code counts.
pub open spec fn has_code(s: OutputSection) -> bool {
    s.segment@ == "__TEXT"@ && section::kind_is_executable(s.kind)
}

/// Where code is entered, in the order of the sections.
pub open spec fn all_starts(
    sections: Seq<OutputSection>,
    atoms: Seq<Atom>,
    inputs: Seq<LayoutInput>,
    base: u64,
) -> Seq<u64>
    decreases sections.len(),
{
    if sections.len() == 0 {
        seq![]
    } else {
        let rest = all_starts(sections.drop_last(), atoms, inputs, base);
        let s = sections.last();
        if has_code(s) {
            rest + section_starts(s.addr, s.atoms@, atoms, inputs, base)
        } else {
            rest
        }
    }
}

/// The distances between ascending numbers, from zero on.
pub open spec fn deltas(starts: Seq<u64>) -> Seq<u8>
    decreases starts.len(),
{
    if starts.len() == 0 {
        seq![]
    } else {
        let prev = if starts.len() >= 2 {
            starts[starts.len() - 2]
        } else {
            0
        };
        deltas(starts.drop_last()) + leb::uleb((starts.last() - prev) as nat)
    }
}

/// The bytes with at least one zero behind them, up to a multiple of eight.
pub open spec fn terminated(s: Seq<u8>) -> Seq<u8> {
    s + bytes::zeros((s.len() + 8) / 8 * 8 - s.len())
}

/// The table for these starts.
pub open spec fn starts_table(starts: Seq<u64>) -> Seq<u8> {
    if starts.len() == 0 {
        seq![]
    } else {
        terminated(deltas(starts))
    }
}

/// The function starts of an image.
pub open spec fn function_starts(
    layout: Layout,
    atoms: Seq<Atom>,
    inputs: Seq<LayoutInput>,
) -> Result<Seq<u8>, WriteFault> {
    match layout::segment_at(layout.segments@, "__TEXT"@) {
        None => Err(WriteFault::MissingSegment("__TEXT"@)),
        Some(i) => Ok(
            starts_table(
                sorting::distinct::<u64, Ascending>(
                    all_starts(
                        layout.sections@,
                        atoms,
                        inputs,
                        layout.segments@[i].vm_addr,
                    ),
                ),
            ),
        ),
    }
}

fn push_atom_starts(
    out: &mut Vec<u64>,
    section_addr: u64,
    placed: &OutputAtom,
    atom_table: &AtomTable,
    index: &FunctionStartSymbolIndex,
    base: u64,
    Ghost(inputs): Ghost<Seq<LayoutInput<'_>>>,
)
    requires
        1 <= placed.atom.0 <= atom_table@.len(),
        forall|key: u64| #[trigger] index.offsets(key) == named_offsets(inputs, key),
    ensures
        final(out)@ == old(out)@ + atom_starts(
            section_addr,
            *placed,
            atom_table@,
            inputs,
            base,
        ),
{
    let at: u64 = section_addr.wrapping_add(placed.offset);
    let a = atom_table.get(placed.atom);
    let ghost before = out@;
    out.push(at.wrapping_sub(base));
    let ghost first = out@;
    let mut i: usize = 0;
    assert(out@ =~= first + alt_starts(at, a.alt_entries@.take(0), base));
    while i < a.alt_entries.len()
        invariant
            i <= a.alt_entries@.len(),
            out@ == first + alt_starts(at, a.alt_entries@.take(i as int), base),
        decreases a.alt_entries@.len() - i,
    {
        out.push(
            at.wrapping_add(a.alt_entries[i].offset_within_atom as u64).wrapping_sub(base),
        );
        assert(out@ =~= first + alt_starts(at, a.alt_entries@.take(i + 1), base));
        i += 1;
    }
    assert(a.alt_entries@.take(i as int) =~= a.alt_entries@);
    let ghost second = out@;
    let ghost key = atom::section_key(a.origin, a.input_section);
    let ghost offsets = named_offsets(inputs, key);
    assert(index.offsets(key) == offsets);
    if let Some(list) = index.map.get(&key_of_section(a.origin, a.input_section)) {
        let start: u64 = a.input_offset as u64;
        let end: u64 = start + a.size as u64;
        let mut k: usize = 0;
        assert(out@ =~= second + inner_starts(at, *a, offsets.take(0), base));
        while k < list.len()
            invariant
                k <= list@.len(),
                list@ == offsets,
                start == a.input_offset,
                end == a.input_offset + a.size,
                out@ == second + inner_starts(at, *a, offsets.take(k as int), base),
            decreases list@.len() - k,
        {
            assert(offsets.take(k + 1).drop_last() =~= offsets.take(k as int));
            if list[k] > start && list[k] < end {
                out.push(at.wrapping_add(list[k] - start).wrapping_sub(base));
                assert(out@ =~= second + inner_starts(at, *a, offsets.take(k + 1), base));
            }
            k += 1;
        }
        assert(offsets.take(k as int) =~= offsets);
    } else {
        assert(out@ =~= second + inner_starts(at, *a, offsets, base));
    }
    assert(out@ =~= before + atom_starts(section_addr, *placed, atom_table@, inputs, base));
}

fn collect_starts(
    layout: &Layout,
    atom_table: &AtomTable,
    index: &FunctionStartSymbolIndex,
    base: u64,
    Ghost(inputs): Ghost<Seq<LayoutInput<'_>>>,
) -> (r: Vec<u64>)
    requires
        maps::atoms_known(layout.sections@, atom_table@),
        forall|key: u64| #[trigger] index.offsets(key) == named_offsets(inputs, key),
    ensures
        r@ == all_starts(layout.sections@, atom_table@, inputs, base),
{
    let mut out: Vec<u64> = Vec::new();
    let mut i: usize = 0;
    while i < layout.sections.len()
        invariant
            i <= layout.sections@.len(),
            maps::atoms_known(layout.sections@, atom_table@),
            forall|key: u64| #[trigger] index.offsets(key) == named_offsets(inputs, key),
            out@ == all_starts(layout.sections@.take(i as int), atom_table@, inputs, base),
        decreases layout.sections@.len() - i,
    {
        let s = &layout.sections[i];
        proof {
            assert(layout.sections@.take(i + 1).drop_last() =~= layout.sections@.take(i as int));
            assert(layout.sections@.take(i + 1).last() == *s);
            assert(maps::all_known(layout.sections@[i as int].atoms@, atom_table@));
        }
        if same_text(s.segment.as_str(), "__TEXT") && is_executable(s.kind) {
            let ghost before = out@;
            let mut k: usize = 0;
            assert(out@ =~= before + section_starts(
                s.addr,
                s.atoms@.take(0),
                atom_table@,
                inputs,
                base,
            ));
            while k < s.atoms.len()
                invariant
                    k <= s.atoms@.len(),
                    maps::all_known(s.atoms@, atom_table@),
                    forall|key: u64| #[trigger] index.offsets(key) == named_offsets(inputs, key),
                    out@ == before + section_starts(
                        s.addr,
                        s.atoms@.take(k as int),
                        atom_table@,
                        inputs,
                        base,
                    ),
                decreases s.atoms@.len() - k,
            {
                proof {
                    assert(s.atoms@.take(k + 1).drop_last() =~= s.atoms@.take(k as int));
                    assert(1 <= s.atoms@[k as int].atom.0 <= atom_table@.len());
                }
                push_atom_starts(
                    &mut out,
                    s.addr,
                    &s.atoms[k],
                    atom_table,
                    index,
                    base,
                    Ghost(inputs),
                );
                assert(out@ =~= before + section_starts(
                    s.addr,
                    s.atoms@.take(k + 1),
                    atom_table@,
                    inputs,
                    base,
                ));
                k += 1;
            }
            assert(s.atoms@.take(k as int) =~= s.atoms@);
        }
        i += 1;
    }
    assert(layout.sections@.take(i as int) =~= layout.sections@);
    out
}

pub fn build_function_starts(
    layout: &Layout,
    inputs: &[LayoutInput<'_>],
    atom_table: &AtomTable,
) -> (r: Result<Vec<u8>, WriteError>)
    requires
        maps::atoms_known(layout.sections@, atom_table@),
    ensures
        writer::same_list(r, function_starts(*layout, atom_table@, inputs@)),
{
    let base: u64 = match layout.segment("__TEXT") {
        Some(segment) => segment.vm_addr,
        None => {
            return Err(WriteError::MissingSegment("__TEXT"));
        },
    };
    let index = build_function_start_symbol_index(inputs);
    let all = collect_starts(layout, atom_table, &index, base, Ghost(inputs@));
    let ghost collected = all@;
    let starts = sort_distinct::<u64, Ascending>(all);
    if starts.len() == 0 {
        return Ok(Vec::new());
    }
    let mut out: Vec<u8> = Vec::new();
    let mut i: usize = 0;
    let mut previous: u64 = 0;
    while i < starts.len()
        invariant
            i <= starts@.len(),
            starts@ == sorting::distinct::<u64, Ascending>(collected),
            previous == if i == 0 {
                0
            } else {
                starts@[i - 1]
            },
            out@ == deltas(starts@.take(i as int)),
        decreases starts@.len() - i,
    {
        proof {
            sorting::law_distinct_is_strict::<u64, Ascending>(collected);
            assert(starts@.take(i + 1).drop_last() =~= starts@.take(i as int));
            if i > 0 {
                let d = sorting::distinct::<u64, Ascending>(collected);
                assert(Ascending::less(d[i - 1], d[i as int]));
            }
        }
        write_uleb(starts[i] - previous, &mut out);
        previous = starts[i];
        i += 1;
    }
    assert(starts@.take(i as int) =~= starts@);
    let n: usize = 8 - out.len() % 8;
    proof {
        let len = out@.len() as int;
        assert((len + 8) / 8 * 8 - len == 8 - len % 8);
    }
    push_zeros(&mut out, n);
    Ok(out)
}

/// What a reader of the table finds: the running sums, up to the first zero.
pub open spec fn decoded(s: Seq<u8>, current: nat) -> Seq<nat>
    decreases s.len(),
{
    match leb::read64(s) {
        None => seq![],
        Some((delta, used)) => if delta == 0 || used == 0 || used > s.len() {
            seq![]
        } else {
            seq![current + delta as nat] + decoded(s.skip(used as int), current + delta as nat)
        },
    }
}

/// The deltas of the starts from the `k`th on.
spec fn deltas_from(starts: Seq<u64>, k: int) -> Seq<u8>
    decreases starts.len() - k,
{
    if k < 0 || k >= starts.len() {
        seq![]
    } else {
        let prev = if k > 0 {
            starts[k - 1]
        } else {
            0
        };
        leb::uleb((starts[k] - prev) as nat) + deltas_from(starts, k + 1)
    }
}

proof fn lemma_deltas_split(starts: Seq<u64>, k: int)
    requires
        0 <= k <= starts.len(),
    ensures
        deltas(starts) == deltas(starts.take(k)) + deltas_from(starts, k),
    decreases starts.len() - k,
{
    if k < starts.len() {
        lemma_deltas_split(starts, k + 1);
        let t = starts.take(k + 1);
        assert(t.drop_last() =~= starts.take(k));
        assert(t.last() == starts[k]);
        if k > 0 {
            assert(t[t.len() - 2] == starts[k - 1]);
        }
        assert(deltas(starts) =~= deltas(starts.take(k)) + deltas_from(starts, k));
    } else {
        assert(starts.take(k) =~= starts);
        assert(deltas(starts) =~= deltas(starts) + deltas_from(starts, k));
    }
}

proof fn lemma_decoded_from(starts: Seq<u64>, k: int, rest: Seq<u8>)
    requires
        0 <= k <= starts.len(),
        starts.len() > 0 ==> starts[0] > 0,
        forall|i: int| 0 < i < starts.len() ==> #[trigger] starts[i - 1] < starts[i],
        rest.len() > 0,
        rest[0] == 0,
    ensures
        decoded(
            deltas_from(starts, k) + rest,
            (if k > 0 {
                starts[k - 1]
            } else {
                0
            }) as nat,
        ) == starts.skip(k).map_values(|v: u64| v as nat),
    decreases starts.len() - k,
{
    let f = |v: u64| v as nat;
    let current = (if k > 0 {
        starts[k - 1]
    } else {
        0
    }) as nat;
    if k < starts.len() {
        let delta = (starts[k] - current) as u64;
        if k > 0 {
            assert(starts[k - 1] < starts[k]);
        }
        let more = deltas_from(starts, k + 1) + rest;
        let s = deltas_from(starts, k) + rest;
        assert(s =~= leb::uleb(delta as nat) + more);
        leb::law_uleb_read_of_write(delta, more);
        let used = leb::uleb(delta as nat).len();
        assert(used <= s.len());
        leb::lemma_uleb_nonempty(delta as nat);
        leb::lemma_uleb_short(delta);
        assert(s.skip(used as int) =~= more);
        lemma_decoded_from(starts, k + 1, rest);
        assert(starts.skip(k).map_values(f) =~= seq![starts[k] as nat] + starts.skip(
            k + 1,
        ).map_values(f));
    } else {
        assert(deltas_from(starts, k) + rest =~= rest);
        assert(leb::read64(rest) == Some((0u64, 1usize)));
        assert(starts.skip(k).map_values(f) =~= seq![]);
    }
}

/// A reader of the table finds the starts again, where none of them is the very start of
/// the image.
pub proof fn law_function_starts_read_back(starts: Seq<u64>)
    requires
        starts.len() > 0,
        starts[0] > 0,
        forall|i: int| 0 < i < starts.len() ==> #[trigger] starts[i - 1] < starts[i],
    ensures
        decoded(starts_table(starts), 0) == starts.map_values(|v: u64| v as nat),
{
    lemma_deltas_split(starts, 0);
    assert(starts.take(0) =~= seq![]);
    let d = deltas(starts);
    assert(d =~= deltas_from(starts, 0));
    let pad = bytes::zeros((d.len() + 8) / 8 * 8 - d.len());
    lemma_decoded_from(starts, 0, pad);
    assert(starts.skip(0) =~= starts);
}

} // verus!
