//! Data between instructions: where the runs that the inputs list are in the output.

use std::collections::HashMap;
use vstd::prelude::*;
use crate::atom;
use crate::atom::{Atom, AtomTable};
use crate::bytes;
use crate::bytes::{push_u16, push_u32};
use crate::input::{DataInCodeEntry, ObjectFile};
use crate::layout;
use crate::layout::{Layout, LayoutInput};
use crate::macho::writer;
use crate::macho::writer::ranges;
use crate::macho::writer::ranges::{
    build_atom_range_index, find_containing_atom_range, AtomRangeIndex,
};
use crate::macho::writer::{describe_atom, u32_fit, WriteError, WriteFault};
use crate::reloc::arm64::targets;
use crate::section;
use crate::section::{is_executable, InputSection, OutputSection};
use crate::sorting;
use crate::sorting::{stable_sort, Order};
use crate::text;
use crate::text::dec_string;

verus! {

/// A section of code that holds the whole of an entry.
pub open spec fn holds_entry(s: InputSection, entry: DataInCodeEntry) -> bool {
    &&& s.data@.len() > 0
    &&& section::kind_is_executable(s.kind)
    &&& s.addr + s.size <= u64::MAX
    &&& s.addr <= entry.offset
    &&& entry.offset + entry.length <= s.addr + s.size
}

/// The sections that hold an entry.
pub open spec fn holders(sections: Seq<InputSection>, entry: DataInCodeEntry) -> Seq<int>
    decreases sections.len(),
{
    if sections.len() == 0 {
        seq![]
    } else {
        let rest = holders(sections.drop_last(), entry);
        if holds_entry(sections.last(), entry) {
            rest.push(sections.len() - 1)
        } else {
            rest
        }
    }
}

pub open spec fn entry_text(entry: DataInCodeEntry) -> Seq<char> {
    "entry at input offset "@ + text::dec(entry.offset as nat) + " (len "@ + text::dec(
        entry.length as nat,
    )
}

fn describe_entry(front: &str, entry: DataInCodeEntry, back: &str) -> (r: String)
    ensures
        r@ == front@ + text::dec(entry.offset as nat) + " (len "@ + text::dec(entry.length as nat)
            + back@,
{
    let mut s = front.to_owned();
    s.append(dec_string(entry.offset as u64).as_str());
    s.append(" (len ");
    s.append(dec_string(entry.length as u64).as_str());
    s.append(back);
    s
}

/// The one section that an entry lies in, counted from one, and how far into it.
pub open spec fn entry_section(obj: ObjectFile, entry: DataInCodeEntry) -> Result<
    (u8, u32),
    WriteFault,
> {
    let found = holders(obj.sections@, entry);
    if found.len() == 1 {
        Ok(
            (
                (found[0] + 1) as u8,
                (entry.offset - obj.sections@[found[0]].addr) as u32,
            ),
        )
    } else if found.len() == 0 {
        Err(
            WriteFault::MalformedDataInCode(
                obj.path@,
                entry_text(entry)
                    + ") does not map to any executable input section range"@,
            ),
        )
    } else {
        Err(
            WriteFault::MalformedDataInCode(
                obj.path@,
                entry_text(entry)
                    + ") ambiguously matches multiple executable input sections"@,
            ),
        )
    }
}

proof fn lemma_holders(sections: Seq<InputSection>, entry: DataInCodeEntry)
    ensures
        forall|k: int|
            0 <= k < holders(sections, entry).len() ==> 0 <= #[trigger] holders(sections, entry)[k]
                < sections.len() && holds_entry(sections[holders(sections, entry)[k]], entry),
    decreases sections.len(),
{
    if sections.len() > 0 {
        lemma_holders(sections.drop_last(), entry);
        let rest = holders(sections.drop_last(), entry);
        let all = holders(sections, entry);
        assert forall|k: int| 0 <= k < all.len() implies 0 <= #[trigger] all[k] < sections.len()
            && holds_entry(sections[all[k]], entry) by {
            if k < rest.len() {
                assert(all[k] == rest[k]);
                assert(sections.drop_last()[rest[k]] == sections[all[k]]);
            }
        }
    }
}

pub fn remap_data_in_code_to_section(object: &ObjectFile, entry: DataInCodeEntry) -> (r: Result<
    (u8, u32),
    WriteError,
>)
    ensures
        writer::same_result(r, entry_section(*object, entry)),
{
    let start: u64 = entry.offset as u64;
    let end: u64 = start + entry.length as u64;
    let mut found: usize = 0;
    let mut place: usize = 0;
    let mut i: usize = 0;
    while i < object.sections.len()
        invariant
            i <= object.sections@.len(),
            start == entry.offset,
            end == entry.offset + entry.length,
            found <= i,
            found == holders(object.sections@.take(i as int), entry).len(),
            found > 0 ==> place < i && holders(object.sections@.take(i as int), entry).last()
                == place,
        decreases object.sections@.len() - i,
    {
        let s = &object.sections[i];
        assert(object.sections@.take(i + 1).drop_last() =~= object.sections@.take(i as int));
        if s.data.len() > 0 && is_executable(s.kind) && s.size <= u64::MAX - s.addr && s.addr
            <= start && end <= s.addr + s.size {
            found += 1;
            place = i;
        }
        i += 1;
    }
    assert(object.sections@.take(i as int) =~= object.sections@);
    if found == 1 {
        proof {
            lemma_holders(object.sections@, entry);
        }
        return Ok(((place + 1) as u8, (start - object.sections[place].addr) as u32));
    }
    let detail = if found == 0 {
        describe_entry(
            "entry at input offset ",
            entry,
            ") does not map to any executable input section range",
        )
    } else {
        describe_entry(
            "entry at input offset ",
            entry,
            ") ambiguously matches multiple executable input sections",
        )
    };
    Err(WriteError::MalformedDataInCode(object.path.clone(), detail))
}

/// An entry as it is in the output file.
pub open spec fn remapped(
    sections: Seq<OutputSection>,
    atoms: Seq<Atom>,
    redirects: Map<u32, u32>,
    input: LayoutInput,
    entry: DataInCodeEntry,
) -> Result<DataInCodeEntry, WriteFault> {
    match entry_section(*input.object, entry) {
        Err(e) => Err(e),
        Ok((section, offset)) => match ranges::containing(
            ranges::section_ranges(atoms, redirects, atom::section_key(input.id, section)),
            offset,
            entry.length as u32,
        ) {
            None => Err(
                WriteFault::MalformedDataInCode(
                    input.object.path@,
                    "entry at file offset "@ + text::dec(entry.offset as nat) + " (len "@
                        + text::dec(entry.length as nat) + ") did not land inside any atom"@,
                ),
            ),
            Some((id, delta)) => match layout::atom_file_offset_in(sections, id) {
                None => Err(
                    WriteFault::MalformedDataInCode(
                        input.object.path@,
                        "atom "@ + writer::atom_name(id) + " for entry at file offset "@
                            + text::dec(entry.offset as nat) + " is missing from final layout"@,
                    ),
                ),
                Some(base) => match writer::fit32(
                    base.wrapping_add(delta as u64),
                    "data-in-code output offset"@,
                ) {
                    Ok(offset) => Ok(
                        DataInCodeEntry { offset, length: entry.length, kind: entry.kind },
                    ),
                    Err(e) => Err(e),
                },
            },
        },
    }
}

fn remap_entry(
    layout: &Layout,
    index: &AtomRangeIndex,
    input: &LayoutInput<'_>,
    entry: DataInCodeEntry,
    Ghost(atoms): Ghost<Seq<Atom>>,
    Ghost(redirects): Ghost<Map<u32, u32>>,
) -> (r: Result<DataInCodeEntry, WriteError>)
    requires
        index.wf(),
        index.indexes(atoms, redirects),
    ensures
        writer::same_result(r, remapped(layout.sections@, atoms, redirects, *input, entry)),
{
    let (section, offset) = match remap_data_in_code_to_section(input.object, entry) {
        Ok(place) => place,
        Err(e) => {
            return Err(e);
        },
    };
    let (id, delta) = match find_containing_atom_range(
        index,
        input.id,
        section,
        offset,
        entry.length as u32,
    ) {
        Some(found) => found,
        None => {
            return Err(
                WriteError::MalformedDataInCode(
                    input.object.path.clone(),
                    describe_entry(
                        "entry at file offset ",
                        entry,
                        ") did not land inside any atom",
                    ),
                ),
            );
        },
    };
    let base: u64 = match layout.atom_file_offset(id) {
        Some(base) => base,
        None => {
            let mut s = "atom ".to_owned();
            s.append(describe_atom(id).as_str());
            s.append(" for entry at file offset ");
            s.append(dec_string(entry.offset as u64).as_str());
            s.append(" is missing from final layout");
            return Err(WriteError::MalformedDataInCode(input.object.path.clone(), s));
        },
    };
    match u32_fit(base.wrapping_add(delta as u64), "data-in-code output offset") {
        Ok(offset) => Ok(DataInCodeEntry { offset, length: entry.length, kind: entry.kind }),
        Err(e) => Err(e),
    }
}

/// The entries of one input, as they are in the output.
pub open spec fn input_remapped(
    sections: Seq<OutputSection>,
    atoms: Seq<Atom>,
    redirects: Map<u32, u32>,
    input: LayoutInput,
    entries: Seq<DataInCodeEntry>,
) -> Result<Seq<DataInCodeEntry>, WriteFault>
    decreases entries.len(),
{
    if entries.len() == 0 {
        Ok(seq![])
    } else {
        match input_remapped(sections, atoms, redirects, input, entries.drop_last()) {
            Err(e) => Err(e),
            Ok(rest) => match remapped(sections, atoms, redirects, input, entries.last()) {
                Err(e) => Err(e),
                Ok(entry) => Ok(rest.push(entry)),
            },
        }
    }
}

/// The entries of all inputs, one input after the other.
pub open spec fn all_remapped(
    sections: Seq<OutputSection>,
    atoms: Seq<Atom>,
    redirects: Map<u32, u32>,
    inputs: Seq<LayoutInput>,
) -> Result<Seq<DataInCodeEntry>, WriteFault>
    decreases inputs.len(),
{
    if inputs.len() == 0 {
        Ok(seq![])
    } else {
        match all_remapped(sections, atoms, redirects, inputs.drop_last()) {
            Err(e) => Err(e),
            Ok(rest) => match input_remapped(
                sections,
                atoms,
                redirects,
                inputs.last(),
                inputs.last().object.data_in_code@,
            ) {
                Err(e) => Err(e),
                Ok(more) => Ok(rest + more),
            },
        }
    }
}

proof fn lemma_input_fault(
    sections: Seq<OutputSection>,
    atoms: Seq<Atom>,
    redirects: Map<u32, u32>,
    input: LayoutInput,
    entries: Seq<DataInCodeEntry>,
    n: int,
)
    requires
        0 <= n <= entries.len(),
        input_remapped(sections, atoms, redirects, input, entries.take(n)) is Err,
    ensures
        input_remapped(sections, atoms, redirects, input, entries) == input_remapped(
            sections,
            atoms,
            redirects,
            input,
            entries.take(n),
        ),
    decreases entries.len() - n,
{
    if n < entries.len() {
        assert(entries.take(n + 1).drop_last() =~= entries.take(n));
        lemma_input_fault(sections, atoms, redirects, input, entries, n + 1);
    } else {
        assert(entries.take(n) =~= entries);
    }
}

proof fn lemma_all_fault(
    sections: Seq<OutputSection>,
    atoms: Seq<Atom>,
    redirects: Map<u32, u32>,
    inputs: Seq<LayoutInput>,
    n: int,
)
    requires
        0 <= n <= inputs.len(),
        all_remapped(sections, atoms, redirects, inputs.take(n)) is Err,
    ensures
        all_remapped(sections, atoms, redirects, inputs) == all_remapped(
            sections,
            atoms,
            redirects,
            inputs.take(n),
        ),
    decreases inputs.len() - n,
{
    if n < inputs.len() {
        assert(inputs.take(n + 1).drop_last() =~= inputs.take(n));
        lemma_all_fault(sections, atoms, redirects, inputs, n + 1);
    } else {
        assert(inputs.take(n) =~= inputs);
    }
}

/// Entries by where they are.
pub struct ByOffset;

impl Order<DataInCodeEntry> for ByOffset {
    open spec fn less(a: DataInCodeEntry, b: DataInCodeEntry) -> bool {
        a.offset < b.offset
    }

    fn is_less(a: &DataInCodeEntry, b: &DataInCodeEntry) -> (r: bool) {
        a.offset < b.offset
    }

    proof fn law_asymmetric(a: DataInCodeEntry, b: DataInCodeEntry) {
    }

    proof fn law_transitive(a: DataInCodeEntry, b: DataInCodeEntry, c: DataInCodeEntry) {
    }
}

/// The entries as they are written.
pub open spec fn entries_bytes(entries: Seq<DataInCodeEntry>) -> Seq<u8>
    decreases entries.len(),
{
    if entries.len() == 0 {
        seq![]
    } else {
        let e = entries.last();
        entries_bytes(entries.drop_last()) + bytes::le32_bytes(e.offset) + bytes::le16_bytes(
            e.length,
        ) + bytes::le16_bytes(e.kind)
    }
}

/// The table of the output: every entry, by its place in the file, and those at one
/// place in the order of the inputs.
pub open spec fn table(
    sections: Seq<OutputSection>,
    atoms: Seq<Atom>,
    redirects: Map<u32, u32>,
    inputs: Seq<LayoutInput>,
) -> Result<Seq<u8>, WriteFault> {
    match all_remapped(sections, atoms, redirects, inputs) {
        Err(e) => Err(e),
        Ok(all) => Ok(entries_bytes(sorting::stable_sorted::<DataInCodeEntry, ByOffset>(all))),
    }
}

fn remap_input(
    layout: &Layout,
    index: &AtomRangeIndex,
    input: &LayoutInput<'_>,
    out: &mut Vec<DataInCodeEntry>,
    Ghost(atoms): Ghost<Seq<Atom>>,
    Ghost(redirects): Ghost<Map<u32, u32>>,
) -> (r: Result<(), WriteError>)
    requires
        index.wf(),
        index.indexes(atoms, redirects),
    ensures
        match (
            r,
            input_remapped(
                layout.sections@,
                atoms,
                redirects,
                *input,
                input.object.data_in_code@,
            ),
        ) {
            (Ok(_), Ok(more)) => final(out)@ == old(out)@ + more,
            (Err(e), Err(f)) => e@ == f,
            _ => false,
        },
{
    let ghost before = out@;
    let ghost all = input.object.data_in_code@;
    let mut i: usize = 0;
    assert(out@ =~= before + Seq::<DataInCodeEntry>::empty());
    while i < input.object.data_in_code.len()
        invariant
            i <= all.len(),
            all == input.object.data_in_code@,
            before == old(out)@,
            index.wf(),
            index.indexes(atoms, redirects),
            match input_remapped(
                layout.sections@,
                atoms,
                redirects,
                *input,
                all.take(i as int),
            ) {
                Ok(more) => out@ == before + more,
                Err(_) => false,
            },
        decreases all.len() - i,
    {
        proof {
            assert(all.take(i + 1).drop_last() =~= all.take(i as int));
        }
        match remap_entry(
            layout,
            index,
            input,
            input.object.data_in_code[i],
            Ghost(atoms),
            Ghost(redirects),
        ) {
            Ok(entry) => {
                let ghost prev = out@;
                out.push(entry);
                proof {
                    let more = input_remapped(
                        layout.sections@,
                        atoms,
                        redirects,
                        *input,
                        all.take(i as int),
                    )->Ok_0;
                    assert(out@ =~= before + more.push(entry));
                }
            },
            Err(e) => {
                proof {
                    lemma_input_fault(
                        layout.sections@,
                        atoms,
                        redirects,
                        *input,
                        all,
                        i + 1,
                    );
                }
                return Err(e);
            },
        }
        i += 1;
    }
    assert(all.take(i as int) =~= all);
    Ok(())
}

pub fn build_data_in_code(
    layout: &Layout,
    inputs: &[LayoutInput<'_>],
    atom_table: &AtomTable,
    icf_redirects: Option<&HashMap<u32, u32>>,
) -> (r: Result<Vec<u8>, WriteError>)
    requires
        atom_table.wf(),
        targets::redirections_end(targets::redirect_map(icf_redirects)),
    ensures
        writer::same_list(
            r,
            table(
                layout.sections@,
                atom_table@,
                targets::redirect_map(icf_redirects),
                inputs@,
            ),
        ),
{
    let ghost redirects = targets::redirect_map(icf_redirects);
    let ghost atoms = atom_table@;
    let by_section = atom_table.by_input_section();
    let index = build_atom_range_index(atom_table, &by_section, icf_redirects);
    let mut all: Vec<DataInCodeEntry> = Vec::new();
    let mut i: usize = 0;
    while i < inputs.len()
        invariant
            i <= inputs@.len(),
            index.wf(),
            index.indexes(atoms, redirects),
            atoms == atom_table@,
            redirects == targets::redirect_map(icf_redirects),
            all_remapped(layout.sections@, atoms, redirects, inputs@.take(i as int)) == Ok::<
                _,
                WriteFault,
            >(all@),
        decreases inputs@.len() - i,
    {
        proof {
            assert(inputs@.take(i + 1).drop_last() =~= inputs@.take(i as int));
            assert(inputs@.take(i + 1).last() == inputs@[i as int]);
        }
        let step = remap_input(
            layout,
            &index,
            &inputs[i],
            &mut all,
            Ghost(atoms),
            Ghost(redirects),
        );
        if let Err(e) = step {
            proof {
                lemma_all_fault(layout.sections@, atoms, redirects, inputs@, i + 1);
            }
            return Err(e);
        }
        i += 1;
    }
    assert(inputs@.take(i as int) =~= inputs@);
    stable_sort::<DataInCodeEntry, ByOffset>(&mut all);
    let mut out: Vec<u8> = Vec::new();
    let mut k: usize = 0;
    while k < all.len()
        invariant
            k <= all@.len(),
            out@ == entries_bytes(all@.take(k as int)),
        decreases all@.len() - k,
    {
        assert(all@.take(k + 1).drop_last() =~= all@.take(k as int));
        push_u32(&mut out, all[k].offset);
        push_u16(&mut out, all[k].length);
        push_u16(&mut out, all[k].kind);
        k += 1;
    }
    assert(all@.take(k as int) =~= all@);
    Ok(out)
}

} // verus!
