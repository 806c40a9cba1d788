//! Places of the inputs and where they end up: offsets of input sections, local symbols,
//! data in code and the starts of functions.

use vstd::prelude::*;
use crate::atom;
use crate::atom::Atom;
use crate::input::{DataInCodeEntry, ObjectFile};
use crate::layout;
use crate::layout::{Layout, LayoutInput};
use crate::macho::writer::data_in_code;
use crate::macho::writer::ranges;
use crate::macho::writer::ranges::{AtomRange, ByStart};
use crate::macho::writer::starts;
use crate::macho::writer::symbols;
use crate::macho::writer::symbols::SymbolEnv;
use crate::reloc::arm64::places;
use crate::reloc::arm64::targets;
use crate::resolve::{AtomId, InputId};
use crate::section::{OutputAtom, OutputSection, SectionKind};
use crate::sorting;
use crate::sorting::Ascending;
use crate::symbol::{InputSymbol, SymKind};

verus! {

/// Ids count from one, in the order of the table.
pub open spec fn numbered(atoms: Seq<Atom>) -> bool {
    &&& atoms.len() < u32::MAX
    &&& forall|i: int| 0 <= i < atoms.len() ==> (#[trigger] atoms[i]).id.0 == i + 1
}

/// The atom `x` holds the `len` bytes from `offset` on of the input's section, and no other
/// atom of the section starts between its start and `offset`.
pub open spec fn holds(
    atoms: Seq<Atom>,
    x: int,
    origin: InputId,
    section: u8,
    offset: u32,
    len: u32,
) -> bool {
    &&& 0 <= x < atoms.len()
    &&& atoms[x].origin == origin
    &&& atoms[x].input_section == section
    &&& atoms[x].input_offset <= offset
    &&& offset + len <= atoms[x].input_offset + atoms[x].size <= u32::MAX
    &&& forall|y: int|
        0 <= y < atoms.len() && y != x && (#[trigger] atoms[y]).origin == origin
            && atoms[y].input_section == section ==> atoms[y].input_offset < atoms[x].input_offset
            || offset < atoms[y].input_offset
}

/// No atom was folded into another.
pub open spec fn stays(redirects: Map<u32, u32>, a: u32) -> bool {
    !redirects.contains_key(a)
}

pub proof fn lemma_section_atoms(atoms: Seq<Atom>, all: Seq<Atom>, key: u64)
    requires
        atoms.len() <= all.len(),
        forall|i: int| 0 <= i < atoms.len() ==> #[trigger] atoms[i] == all[i],
        numbered(all),
    ensures
        forall|id: AtomId| #[trigger]
            atom::section_atoms(atoms, key).contains(id) <==> 1 <= id.0 <= atoms.len()
                && atom::section_key(all[id.0 - 1].origin, all[id.0 - 1].input_section) == key,
    decreases atoms.len(),
{
    let out = atom::section_atoms(atoms, key);
    if atoms.len() > 0 {
        let front = atoms.drop_last();
        assert forall|i: int| 0 <= i < front.len() implies #[trigger] front[i] == all[i] by {
            assert(front[i] == atoms[i]);
        }
        lemma_section_atoms(front, all, key);
        let rest = atom::section_atoms(front, key);
        let last = atoms.len() - 1;
        assert(atoms[last] == all[last]);
        assert(all[last].id.0 == last + 1);
        assert forall|id: AtomId| #[trigger] out.contains(id) <==> 1 <= id.0 <= atoms.len()
            && atom::section_key(all[id.0 - 1].origin, all[id.0 - 1].input_section) == key by {
            if out.contains(id) {
                let j = choose|j: int| 0 <= j < out.len() && out[j] == id;
                if j < rest.len() {
                    assert(rest[j] == id);
                    assert(rest.contains(id));
                } else {
                    assert(id == atoms.last().id);
                }
            }
            if 1 <= id.0 <= atoms.len() && atom::section_key(
                all[id.0 - 1].origin,
                all[id.0 - 1].input_section,
            ) == key {
                if id.0 <= front.len() {
                    assert(rest.contains(id));
                    let j = choose|j: int| 0 <= j < rest.len() && rest[j] == id;
                    assert(out[j] == id);
                } else {
                    assert(id == atoms.last().id);
                    assert(out[out.len() - 1] == id);
                }
            }
        }
    }
}

pub proof fn lemma_key(a: InputId, s: u8, b: InputId, r: u8)
    ensures
        atom::section_key(a, s) == atom::section_key(b, r) <==> a == b && s == r,
{
}

proof fn lemma_last_start(rs: Seq<AtomRange>, offset: u32)
    ensures
        match ranges::last_start(rs, offset) {
            Some(i) => 0 <= i < rs.len() && rs[i].start <= offset && forall|k: int|
                i < k < rs.len() ==> (#[trigger] rs[k]).start > offset,
            None => forall|k: int| 0 <= k < rs.len() ==> (#[trigger] rs[k]).start > offset,
        },
    decreases rs.len(),
{
    if rs.len() > 0 {
        lemma_last_start(rs.drop_last(), offset);
        assert forall|k: int| 0 <= k < rs.len() - 1 implies rs.drop_last()[k] == #[trigger] rs[k] by {}
    }
}

/// An offset of an input section is found in the atom that holds it, as far into it as it
/// lies behind the atom's start.
pub proof fn law_offset_is_found(
    atoms: Seq<Atom>,
    redirects: Map<u32, u32>,
    x: int,
    origin: InputId,
    section: u8,
    offset: u32,
    len: u32,
)
    requires
        numbered(atoms),
        holds(atoms, x, origin, section, offset, len),
        stays(redirects, (x + 1) as u32),
    ensures
        ranges::containing(
            ranges::section_ranges(atoms, redirects, atom::section_key(origin, section)),
            offset,
            len,
        ) == Some((AtomId((x + 1) as u32), (offset - atoms[x].input_offset) as u32)),
{
    broadcast use vstd::seq_lib::group_to_multiset_ensures;

    let key = atom::section_key(origin, section);
    let ids = atom::section_atoms(atoms, key);
    let f = |id: AtomId| ranges::range_of(atoms, redirects, id);
    let found = ids.map_values(f);
    let rs = ranges::section_ranges(atoms, redirects, key);
    let own = AtomId((x + 1) as u32);
    let range = ranges::range_of(atoms, redirects, own);
    lemma_section_atoms(atoms, atoms, key);
    sorting::law_sorted::<AtomRange, ByStart>(found);
    assert(ids.contains(own));
    let j = choose|j: int| 0 <= j < ids.len() && ids[j] == own;
    assert(found[j] == range);
    assert(found.to_multiset().contains(range));
    assert(rs.to_multiset().contains(range));
    assert(rs.contains(range));
    let p = choose|p: int| 0 <= p < rs.len() && rs[p] == range;
    lemma_last_start(rs, offset);
    let i = ranges::last_start(rs, offset)->0;
    assert(rs[p].start <= offset);
    assert(p <= i);
    assert(rs.contains(rs[i]));
    assert(rs.to_multiset().contains(rs[i]));
    assert(found.to_multiset().contains(rs[i]));
    assert(found.contains(rs[i]));
    let q = choose|q: int| 0 <= q < found.len() && found[q] == rs[i];
    let other = ids[q];
    assert(ids.contains(other));
    let y = other.0 - 1;
    lemma_key(atoms[y].origin, atoms[y].input_section, origin, section);
    assert(rs[i].start == atoms[y].input_offset);
    if p < i {
        assert(!<ByStart as sorting::Order<AtomRange>>::less(rs[i], rs[p]));
    }
    assert(y == x);
    assert(targets::canonical(redirects, own) == own);
}

/// A local symbol of an input that the output keeps names the same place: its value is the
/// address of the atom that holds it plus its offset there, and its section is the atom's.
pub proof fn law_local_symbol_keeps_its_place(
    env: SymbolEnv,
    sections: Seq<OutputSection>,
    id: InputId,
    file_index: usize,
    obj: ObjectFile,
    sym: InputSymbol,
    section: int,
    x: int,
    i: int,
    k: int,
)
    requires
        env == symbols::env_of(sections, env.atoms, env.redirects),
        symbols::is_local(obj, sym),
        sym.spec_kind() == SymKind::Sect,
        obj.section_index(sym) == Some(section),
        numbered(env.atoms),
        obj.sections@[section].addr <= sym.raw.n_value,
        sym.raw.n_value - obj.sections@[section].addr <= u32::MAX,
        holds(
            env.atoms,
            x,
            id,
            sym.raw.n_sect,
            (sym.raw.n_value - obj.sections@[section].addr) as u32,
            1,
        ),
        stays(env.redirects, (x + 1) as u32),
        places::stands_at(sections, i, k, (x + 1) as u32),
        sections.len() < 0xff,
    ensures
        ({
            let r = symbols::local_symbol(env, id, file_index, obj, sym);
            let m = r->Ok_0->0;
            &&& r is Ok
            &&& r->Ok_0 is Some
            &&& m.partition is Local
            &&& m.n_sect == i + 1
            &&& m.n_desc == sym.raw.n_desc
            &&& obj.name_of(sym) is Ok ==> m.name == obj.name_of(sym)->Ok_0
            &&& m.n_value == (places::final_address(sections, i, k) + (sym.raw.n_value
                - obj.sections@[section].addr) - env.atoms[x].input_offset)
                % 0x1_0000_0000_0000_0000
        }),
{
    let offset = (sym.raw.n_value - obj.sections@[section].addr) as u32;
    law_offset_is_found(env.atoms, env.redirects, x, id, sym.raw.n_sect, offset, 1);
    places::law_atom_address(sections, i, k, (x + 1) as u32);
    places::law_atom_section(sections, i, k, (x + 1) as u32);
}

pub proof fn lemma_file_offset(sections: Seq<OutputSection>, i: int, k: int, a: u32)
    requires
        places::stands_at(sections, i, k, a),
    ensures
        layout::atom_file_offset_in(sections, AtomId(a)) == Some(
            sections[i].file_off.wrapping_add(sections[i].atoms@[k].offset),
        ),
    decreases sections.len(),
{
    let first = sections.first();
    layout::lemma_atom_at(first.atoms@, AtomId(a));
    if i == 0 {
        assert(first.atoms@[k].atom == AtomId(a));
        let l = layout::atom_at(first.atoms@, AtomId(a))->0;
        assert(sections[0].atoms@[l].atom.0 == a);
    } else {
        let rest = sections.drop_first();
        assert(layout::atom_at(first.atoms@, AtomId(a)) is None) by {
            if layout::atom_at(first.atoms@, AtomId(a)) is Some {
                let l = layout::atom_at(first.atoms@, AtomId(a))->0;
                assert(sections[0].atoms@[l].atom.0 == a);
            }
        }
        assert(rest[i - 1] == sections[i]);
        assert forall|j: int, l: int|
            0 <= j < rest.len() && 0 <= l < rest[j].atoms@.len() && (
            #[trigger] rest[j].atoms@[l]).atom.0 == a implies j == i - 1 && l == k by {
            assert(rest[j] == sections[j + 1]);
            assert(sections[j + 1].atoms@[l].atom.0 == a);
        }
        lemma_file_offset(rest, i - 1, k, a);
    }
}

proof fn lemma_holders(
    sections: Seq<crate::section::InputSection>,
    entry: DataInCodeEntry,
    z: int,
)
    requires
        0 <= z < sections.len(),
        data_in_code::holds_entry(sections[z], entry),
        forall|w: int|
            0 <= w < sections.len() && w != z ==> !data_in_code::holds_entry(
                #[trigger] sections[w],
                entry,
            ),
    ensures
        data_in_code::holders(sections, entry) == seq![z],
    decreases sections.len(),
{
    let front = sections.drop_last();
    if z < front.len() {
        assert(front[z] == sections[z]);
        assert(!data_in_code::holds_entry(sections[sections.len() - 1], entry));
        assert forall|w: int| 0 <= w < front.len() && w != z implies !data_in_code::holds_entry(
            #[trigger] front[w],
            entry,
        ) by {
            assert(front[w] == sections[w]);
        }
        lemma_holders(front, entry, z);
    } else {
        assert forall|w: int| 0 <= w < front.len() implies !data_in_code::holds_entry(
            #[trigger] front[w],
            entry,
        ) by {
            assert(front[w] == sections[w]);
        }
        lemma_no_holders(front, entry);
        assert(Seq::<int>::empty().push(z) =~= seq![z]);
    }
}

proof fn lemma_no_holders(sections: Seq<crate::section::InputSection>, entry: DataInCodeEntry)
    requires
        forall|w: int|
            0 <= w < sections.len() ==> !data_in_code::holds_entry(#[trigger] sections[w], entry),
    ensures
        data_in_code::holders(sections, entry) == Seq::<int>::empty(),
    decreases sections.len(),
{
    if sections.len() > 0 {
        let front = sections.drop_last();
        assert(!data_in_code::holds_entry(sections[sections.len() - 1], entry));
        assert forall|w: int| 0 <= w < front.len() implies !data_in_code::holds_entry(
            #[trigger] front[w],
            entry,
        ) by {
            assert(front[w] == sections[w]);
        }
        lemma_no_holders(front, entry);
    }
}

/// A range of data in the code of an input is listed where it ends up in the file: at the
/// file offset of the atom that holds it, as far behind it as it was, with its length and
/// kind.
pub proof fn law_data_in_code_keeps_its_place(
    sections: Seq<OutputSection>,
    atoms: Seq<Atom>,
    redirects: Map<u32, u32>,
    input: LayoutInput,
    entry: DataInCodeEntry,
    z: int,
    x: int,
    i: int,
    k: int,
)
    requires
        0 <= z < input.object.sections@.len(),
        z < 0xff,
        data_in_code::holds_entry(input.object.sections@[z], entry),
        forall|w: int|
            0 <= w < input.object.sections@.len() && w != z ==> !data_in_code::holds_entry(
                #[trigger] input.object.sections@[w],
                entry,
            ),
        numbered(atoms),
        holds(
            atoms,
            x,
            input.id,
            (z + 1) as u8,
            (entry.offset - input.object.sections@[z].addr) as u32,
            entry.length as u32,
        ),
        stays(redirects, (x + 1) as u32),
        places::stands_at(sections, i, k, (x + 1) as u32),
        sections[i].file_off + sections[i].atoms@[k].offset + entry.offset <= u32::MAX,
    ensures
        ({
            let r = data_in_code::remapped(sections, atoms, redirects, input, entry);
            &&& r is Ok
            &&& (r->Ok_0).length == entry.length
            &&& (r->Ok_0).kind == entry.kind
            &&& (r->Ok_0).offset == sections[i].file_off + sections[i].atoms@[k].offset + (
            entry.offset - input.object.sections@[z].addr) - atoms[x].input_offset
        }),
{
    lemma_holders(input.object.sections@, entry, z);
    let offset = (entry.offset - input.object.sections@[z].addr) as u32;
    law_offset_is_found(
        atoms,
        redirects,
        x,
        input.id,
        (z + 1) as u8,
        offset,
        entry.length as u32,
    );
    lemma_file_offset(sections, i, k, (x + 1) as u32);
}

proof fn lemma_section_starts(
    addr: u64,
    placed: Seq<OutputAtom>,
    atoms: Seq<Atom>,
    inputs: Seq<LayoutInput>,
    base: u64,
    k: int,
    v: u64,
)
    requires
        0 <= k < placed.len(),
        starts::atom_starts(addr, placed[k], atoms, inputs, base).contains(v),
    ensures
        starts::section_starts(addr, placed, atoms, inputs, base).contains(v),
    decreases placed.len(),
{
    let front = placed.drop_last();
    let rest = starts::section_starts(addr, front, atoms, inputs, base);
    let more = starts::atom_starts(addr, placed.last(), atoms, inputs, base);
    if k < front.len() {
        assert(front[k] == placed[k]);
        lemma_section_starts(addr, front, atoms, inputs, base, k, v);
        let j = choose|j: int| 0 <= j < rest.len() && rest[j] == v;
        assert((rest + more)[j] == v);
    } else {
        let j = choose|j: int| 0 <= j < more.len() && more[j] == v;
        assert((rest + more)[rest.len() + j] == v);
    }
}

proof fn lemma_all_starts(
    sections: Seq<OutputSection>,
    atoms: Seq<Atom>,
    inputs: Seq<LayoutInput>,
    base: u64,
    i: int,
    v: u64,
)
    requires
        0 <= i < sections.len(),
        starts::has_code(sections[i]),
        starts::section_starts(
            sections[i].addr,
            sections[i].atoms@,
            atoms,
            inputs,
            base,
        ).contains(v),
    ensures
        starts::all_starts(sections, atoms, inputs, base).contains(v),
    decreases sections.len(),
{
    let front = sections.drop_last();
    let rest = starts::all_starts(front, atoms, inputs, base);
    let s = sections.last();
    let out = starts::all_starts(sections, atoms, inputs, base);
    if i < front.len() {
        assert(front[i] == sections[i]);
        lemma_all_starts(front, atoms, inputs, base, i, v);
        let j = choose|j: int| 0 <= j < rest.len() && rest[j] == v;
        assert(out[j] == v);
    } else {
        let more = starts::section_starts(s.addr, s.atoms@, atoms, inputs, base);
        let j = choose|j: int| 0 <= j < more.len() && more[j] == v;
        assert(out[rest.len() + j] == v);
    }
}

/// The place `v` is one where the code of a placed atom is entered: its start, one of its
/// other entries, or a place inside it that a symbol of the input names.
pub open spec fn entered_at(
    layout: Layout,
    atoms: Seq<Atom>,
    inputs: Seq<LayoutInput>,
    i: int,
    k: int,
    place: int,
) -> bool {
    let placed = layout.sections@[i].atoms@[k];
    let a = atoms[placed.atom.0 - 1];
    let at = layout.sections@[i].addr + placed.offset;
    let named = starts::named_offsets(
        inputs,
        (a.origin.0 * 0x100 + a.input_section) as u64,
    );
    ||| place == at
    ||| exists|e: int|
        0 <= e < a.alt_entries@.len() && place == at + (
        #[trigger] a.alt_entries@[e]).offset_within_atom
    ||| exists|q: int|
        0 <= q < named.len() && a.input_offset < #[trigger] named[q] < a.input_offset + a.size
            && place == at + (named[q] - a.input_offset)
}

proof fn lemma_inner(at: u64, a: Atom, offsets: Seq<u64>, base: u64, q: int)
    requires
        0 <= q < offsets.len(),
        a.input_offset < offsets[q] < a.input_offset + a.size,
    ensures
        starts::inner_starts(at, a, offsets, base).contains(
            at.wrapping_add((offsets[q] - a.input_offset) as u64).wrapping_sub(base),
        ),
    decreases offsets.len(),
{
    let front = offsets.drop_last();
    let rest = starts::inner_starts(at, a, front, base);
    let out = starts::inner_starts(at, a, offsets, base);
    let v = at.wrapping_add((offsets[q] - a.input_offset) as u64).wrapping_sub(base);
    if q < front.len() {
        assert(front[q] == offsets[q]);
        lemma_inner(at, a, front, base, q);
        let j = choose|j: int| 0 <= j < rest.len() && rest[j] == v;
        assert(out[j] == v);
    } else {
        assert(out[out.len() - 1] == v);
    }
}

proof fn lemma_entered(
    layout: Layout,
    atoms: Seq<Atom>,
    inputs: Seq<LayoutInput>,
    base: u64,
    i: int,
    k: int,
    place: int,
)
    requires
        0 <= i < layout.sections@.len(),
        0 <= k < layout.sections@[i].atoms@.len(),
        entered_at(layout, atoms, inputs, i, k, place),
        base <= place <= u64::MAX,
    ensures
        starts::atom_starts(
            layout.sections@[i].addr,
            layout.sections@[i].atoms@[k],
            atoms,
            inputs,
            base,
        ).contains((place - base) as u64),
{
    let placed = layout.sections@[i].atoms@[k];
    let a = atoms[placed.atom.0 - 1];
    let at = layout.sections@[i].addr.wrapping_add(placed.offset);
    let named = starts::named_offsets(inputs, (a.origin.0 * 0x100 + a.input_section) as u64);
    let alts = starts::alt_starts(at, a.alt_entries@, base);
    let inner = starts::inner_starts(at, a, named, base);
    let out = starts::atom_starts(layout.sections@[i].addr, placed, atoms, inputs, base);
    let v = (place - base) as u64;
    if place == layout.sections@[i].addr + placed.offset {
        assert(out[0] == v);
    } else if exists|e: int|
        0 <= e < a.alt_entries@.len() && place == layout.sections@[i].addr + placed.offset + (
        #[trigger] a.alt_entries@[e]).offset_within_atom {
        let e = choose|e: int|
            0 <= e < a.alt_entries@.len() && place == layout.sections@[i].addr + placed.offset + (
            #[trigger] a.alt_entries@[e]).offset_within_atom;
        assert(alts[e] == v);
        assert(out[1 + e] == v);
    } else {
        let q = choose|q: int|
            0 <= q < named.len() && a.input_offset < #[trigger] named[q] < a.input_offset + a.size
                && place == layout.sections@[i].addr + placed.offset + (named[q] - a.input_offset);
        lemma_inner(at, a, named, base, q);
        let j = choose|j: int| 0 <= j < inner.len() && inner[j] == v;
        assert(out[1 + alts.len() + j] == v);
    }
}

/// Every place where code is entered is among the function starts that a reader of the
/// table finds, counted from the start of `__TEXT`, where nothing starts at the very start of
/// the image.
pub proof fn law_code_starts_are_listed(
    layout: Layout,
    atoms: Seq<Atom>,
    inputs: Seq<LayoutInput>,
    text: int,
    i: int,
    k: int,
    place: int,
)
    requires
        0 <= text < layout.segments@.len(),
        layout.segments@[text].name@ == "__TEXT"@,
        forall|m: int| 0 <= m < text ==> (#[trigger] layout.segments@[m]).name@ != "__TEXT"@,
        0 <= i < layout.sections@.len(),
        layout.sections@[i].segment@ == "__TEXT"@,
        layout.sections@[i].kind == SectionKind::Text || layout.sections@[i].kind
            == SectionKind::SymbolStubs || layout.sections@[i].kind == SectionKind::Coalesced,
        0 <= k < layout.sections@[i].atoms@.len(),
        entered_at(layout, atoms, inputs, i, k, place),
        layout.segments@[text].vm_addr <= place <= u64::MAX,
        !starts::all_starts(
            layout.sections@,
            atoms,
            inputs,
            layout.segments@[text].vm_addr,
        ).contains(0),
    ensures
        starts::function_starts(layout, atoms, inputs) is Ok,
        starts::decoded(starts::function_starts(layout, atoms, inputs)->Ok_0, 0).contains(
            (place - layout.segments@[text].vm_addr) as nat,
        ),
{
    layout::lemma_segment_at(layout.segments@, "__TEXT"@);
    let base = layout.segments@[text].vm_addr;
    assert(layout::segment_at(layout.segments@, "__TEXT"@) == Some(text));
    let all = starts::all_starts(layout.sections@, atoms, inputs, base);
    let v = (place - base) as u64;
    lemma_entered(layout, atoms, inputs, base, i, k, place);
    lemma_section_starts(
        layout.sections@[i].addr,
        layout.sections@[i].atoms@,
        atoms,
        inputs,
        base,
        k,
        v,
    );
    lemma_all_starts(layout.sections@, atoms, inputs, base, i, v);
    let d = sorting::distinct::<u64, Ascending>(all);
    assert forall|a: u64, b: u64|
        !<Ascending as sorting::Order<u64>>::less(a, b) && !(
        #[trigger] <Ascending as sorting::Order<u64>>::less(b, a)) implies a == b by {}
    sorting::law_distinct_keeps_all::<u64, Ascending>(all);
    sorting::law_distinct_is_strict::<u64, Ascending>(all);
    assert(d.contains(v));
    let j = choose|j: int| 0 <= j < d.len() && d[j] == v;
    assert(d.contains(d[0]));
    assert(all.contains(d[0]));
    assert forall|q: int| 0 < q < d.len() implies #[trigger] d[q - 1] < d[q] by {
        assert(<Ascending as sorting::Order<u64>>::less(d[q - 1], d[q]));
    }
    starts::law_function_starts_read_back(d);
    let read = starts::decoded(starts::starts_table(d), 0);
    assert(read[j] == v as nat);
}

} // verus!
