//! The bytes of an image.

use vstd::prelude::*;
use crate::bytes;
use crate::bytes::{overwrite, push_zeros};
use crate::layout;
use crate::layout::Layout;
use crate::macho::command_laws;
use crate::macho::constants::{
    CPU_SUBTYPE_ARM64_ALL, CPU_TYPE_ARM64, MH_DYLIB, MH_EXECUTE, MH_MAGIC_64,
};
use crate::macho::dylib;
use crate::macho::dylib::DylibDependency;
use crate::macho::reader;
use crate::macho::reader::{
    write_commands, write_header, LoadCommand, MachHeader64, ReadError, HEADER_SIZE,
};
use crate::macho::writer::commands;
use crate::macho::writer::commands::{build_commands, header_flags, sum_sizes};
use crate::macho::writer::plan;
use crate::macho::writer::plan::{CodeSignaturePlan, LinkEditModel, LinkEditPlan, Places};
use crate::macho::writer::{EntryPoint, WriteError};
use crate::options::{LinkOptions, OutputKind};
use crate::section;
use crate::section::{OutputAtom, OutputSection, OutputSegment};

verus! {

/// Bytes, and where in the file they go.
pub struct Put {
    pub at: int,
    pub part: Seq<u8>,
}

/// The file with the bytes put in.
pub open spec fn put(s: Seq<u8>, w: Put) -> Seq<u8> {
    if w.part.len() == 0 {
        s
    } else {
        bytes::replaced(s, w.at, w.part)
    }
}

/// The file with everything put in, one after the other.
pub open spec fn put_all(s: Seq<u8>, w: Seq<Put>) -> Seq<u8>
    decreases w.len(),
{
    if w.len() == 0 {
        s
    } else {
        put(put_all(s, w.drop_last()), w.last())
    }
}

/// Everything has its place in a file of `size` bytes.
pub open spec fn within(w: Seq<Put>, size: int) -> bool {
    forall|i: int|
        0 <= i < w.len() && (#[trigger] w[i]).part.len() > 0 ==> 0 <= w[i].at && w[i].at
            + w[i].part.len() <= size
}

pub proof fn lemma_put_len(s: Seq<u8>, w: Seq<Put>)
    requires
        within(w, s.len() as int),
    ensures
        put_all(s, w).len() == s.len(),
    decreases w.len(),
{
    if w.len() > 0 {
        let rest = w.drop_last();
        assert forall|i: int| 0 <= i < rest.len() && (#[trigger] rest[i]).part.len()
            > 0 implies 0 <= rest[i].at && rest[i].at + rest[i].part.len() <= s.len() by {
            assert(rest[i] == w[i]);
        }
        lemma_put_len(s, rest);
        assert(w[w.len() - 1] == w.last());
    }
}

proof fn lemma_put_concat(s: Seq<u8>, a: Seq<Put>, b: Seq<Put>)
    ensures
        put_all(s, a + b) == put_all(put_all(s, a), b),
    decreases b.len(),
{
    if b.len() == 0 {
        assert(a + b =~= a);
    } else {
        assert((a + b).drop_last() =~= a + b.drop_last());
        lemma_put_concat(s, a, b.drop_last());
    }
}

/// The two do not overlap.
pub open spec fn apart(a: Put, b: Put) -> bool {
    a.part.len() == 0 || b.part.len() == 0 || a.at + a.part.len() <= b.at || b.at + b.part.len()
        <= a.at
}

/// What was put into the file stands there as long as nothing that was put in
/// later overlaps it.
pub proof fn law_put_stays(s: Seq<u8>, w: Seq<Put>, i: int)
    requires
        within(w, s.len() as int),
        0 <= i < w.len(),
        w[i].part.len() > 0,
        forall|j: int| i < j < w.len() ==> apart(w[i], #[trigger] w[j]),
    ensures
        put_all(s, w).subrange(w[i].at, w[i].at + w[i].part.len()) == w[i].part,
    decreases w.len(),
{
    let rest = w.drop_last();
    let file = put_all(s, w);
    let at = w[i].at;
    let part = w[i].part;
    assert forall|k: int| 0 <= k < rest.len() && (#[trigger] rest[k]).part.len() > 0 implies 0
        <= rest[k].at && rest[k].at + rest[k].part.len() <= s.len() by {
        assert(rest[k] == w[k]);
    }
    lemma_put_len(s, rest);
    let before = put_all(s, rest);
    if i == w.len() - 1 {
        assert(w.last() == w[i]);
        assert(file.subrange(at, at + part.len()) =~= part);
    } else {
        assert forall|j: int| i < j < rest.len() implies apart(rest[i], #[trigger] rest[j]) by {
            assert(rest[j] == w[j]);
        }
        assert(rest[i] == w[i]);
        law_put_stays(s, rest, i);
        let last = w.last();
        assert(last == w[w.len() - 1]);
        assert(apart(w[i], last));
        if last.part.len() > 0 {
            bytes::lemma_replaced(before, last.at, last.part);
            assert(file.subrange(at, at + part.len()) =~= before.subrange(at, at + part.len()));
        }
    }
}

/// Where an atom's bytes go.
pub open spec fn atom_put(section: OutputSection, atom: OutputAtom) -> Put {
    Put {
        at: (section.file_off.wrapping_add(atom.offset) as usize) as int,
        part: atom.data@,
    }
}

/// What a section puts into the file: what the linker made, then its atoms.
pub open spec fn section_puts(section: OutputSection) -> Seq<Put> {
    if section::kind_is_zerofill(section.kind) {
        seq![]
    } else {
        seq![
            Put {
                at: (section.file_off.wrapping_add(section.synthetic_offset) as usize) as int,
                part: section.synthetic_data@,
            },
        ] + section.atoms@.map_values(|a: OutputAtom| atom_put(section, a))
    }
}

pub open spec fn all_section_puts(sections: Seq<OutputSection>) -> Seq<Put>
    decreases sections.len(),
{
    if sections.len() == 0 {
        seq![]
    } else {
        all_section_puts(sections.drop_last()) + section_puts(sections.last())
    }
}

pub open spec fn put_at(at: u32, part: Seq<u8>) -> Put {
    Put { at: at as int, part }
}

/// What the link-edit data puts into the file.
pub open spec fn table_puts(l: LinkEditModel) -> Seq<Put> {
    seq![
        put_at(l.symtab.symoff, l.tables.symtab),
        put_at(l.dysymtab.indirectsymoff, l.tables.indirect),
        put_at(l.dyld_info.rebase_off, l.tables.rebase),
        put_at(l.dyld_info.bind_off, l.tables.bind),
        put_at(l.dyld_info.weak_bind_off, l.weak_bind_bytes),
        put_at(l.dyld_info.lazy_bind_off, l.tables.lazy_bind),
        put_at(l.dyld_info.export_off, l.tables.export),
        match l.loh {
            Some(loh) => put_at(loh.dataoff, l.loh_bytes),
            None => put_at(0, seq![]),
        },
        put_at(l.function_starts.dataoff, l.tables.function_starts),
        put_at(l.data_in_code.dataoff, l.tables.data_in_code),
        put_at(l.symtab.stroff, l.tables.strtab),
    ]
}

/// Where the file ends: behind every segment, and not empty.
pub open spec fn file_size(segments: Seq<OutputSegment>) -> u64
    decreases segments.len(),
{
    if segments.len() == 0 {
        1
    } else {
        let rest = file_size(segments.drop_last());
        let end = segments.last().file_off.wrapping_add(segments.last().file_size);
        if end > rest {
            end
        } else {
            rest
        }
    }
}

pub fn final_file_size(layout: &Layout) -> (r: u64)
    ensures
        r == file_size(layout.segments@),
{
    let mut size: u64 = 1;
    let mut i: usize = 0;
    while i < layout.segments.len()
        invariant
            i <= layout.segments@.len(),
            size == file_size(layout.segments@.take(i as int)),
        decreases layout.segments@.len() - i,
    {
        assert(layout.segments@.take(i + 1).drop_last() =~= layout.segments@.take(i as int));
        let end: u64 = layout.segments[i].file_off.wrapping_add(layout.segments[i].file_size);
        if end > size {
            size = end;
        }
        i += 1;
    }
    assert(layout.segments@.take(i as int) =~= layout.segments@);
    size
}

/// `s` cut off, or with zeros behind it, to be `n` bytes long.
pub open spec fn resized(s: Seq<u8>, n: int) -> Seq<u8> {
    if n <= s.len() {
        s.take(n)
    } else {
        s + bytes::zeros(n - s.len())
    }
}

fn resize(out: &mut Vec<u8>, n: usize)
    ensures
        final(out)@ == resized(old(out)@, n as int),
        final(out)@.len() == n,
{
    if n <= out.len() {
        out.truncate(n);
        assert(out@ =~= resized(old(out)@, n as int));
    } else {
        let more: usize = n - out.len();
        push_zeros(out, more);
    }
}

/// The header of an image.
pub open spec fn header(layout: Layout, kind: OutputKind, ncmds: u32, sizeofcmds: u32) -> MachHeader64 {
    MachHeader64 {
        magic: MH_MAGIC_64,
        cputype: CPU_TYPE_ARM64,
        cpusubtype: CPU_SUBTYPE_ARM64_ALL,
        filetype: match kind {
            OutputKind::Executable => MH_EXECUTE,
            OutputKind::Dylib => MH_DYLIB,
        },
        ncmds,
        sizeofcmds,
        flags: commands::flags(layout, kind),
        reserved: 0,
    }
}

/// The file before sections and tables are put in.
pub open spec fn skeleton(layout: Layout, kind: OutputKind, list: Seq<LoadCommand>) -> Seq<u8> {
    resized(
        header(
            layout,
            kind,
            list.len() as u32,
            commands::sizes(commands::commands_view(list)) as u32,
        ).encoded() + reader::commands_bytes(list),
        (file_size(layout.segments@) as usize) as int,
    )
}

/// The file with these load commands. Where a code signature is planned, its
/// place is left as it is.
pub open spec fn image(
    layout: Layout,
    kind: OutputKind,
    list: Seq<LoadCommand>,
    linkedit: LinkEditModel,
) -> Seq<u8> {
    put_all(
        skeleton(layout, kind, list),
        all_section_puts(layout.sections@) + table_puts(linkedit),
    )
}

fn put_bytes(out: &mut Vec<u8>, at: usize, part: &Vec<u8>)
    requires
        part@.len() > 0 ==> at + part@.len() <= old(out)@.len(),
    ensures
        final(out)@ == put(old(out)@, (Put { at: at as int, part: part@ })),
        final(out)@.len() == old(out)@.len(),
{
    if part.len() > 0 {
        overwrite(out, at, part.as_slice());
    }
}

proof fn lemma_within_part(a: Seq<Put>, b: Seq<Put>, size: int)
    requires
        within(a + b, size),
    ensures
        within(a, size),
        within(b, size),
{
    assert forall|i: int| 0 <= i < a.len() && (#[trigger] a[i]).part.len() > 0 implies 0 <= a[i].at
        && a[i].at + a[i].part.len() <= size by {
        assert((a + b)[i] == a[i]);
    }
    assert forall|i: int| 0 <= i < b.len() && (#[trigger] b[i]).part.len() > 0 implies 0 <= b[i].at
        && b[i].at + b[i].part.len() <= size by {
        assert((a + b)[a.len() + i] == b[i]);
    }
}

fn put_section(out: &mut Vec<u8>, section: &OutputSection)
    requires
        within(section_puts(*section), old(out)@.len() as int),
    ensures
        final(out)@ == put_all(old(out)@, section_puts(*section)),
        final(out)@.len() == old(out)@.len(),
{
    if section.is_zerofill() {
        return;
    }
    let ghost all = section_puts(*section);
    let ghost before = out@;
    let size: usize = out.len();
    let start: usize = section.file_off.wrapping_add(section.synthetic_offset) as usize;
    assert(all[0] == (Put { at: start as int, part: section.synthetic_data@ }));
    put_bytes(out, start, &section.synthetic_data);
    assert(all.take(1).drop_last() =~= seq![]);
    assert(put_all(before, all.take(1).drop_last()) == before);
    assert(out@ == put_all(before, all.take(1)));
    let mut i: usize = 0;
    while i < section.atoms.len()
        invariant
            i <= section.atoms@.len(),
            !section::kind_is_zerofill(section.kind),
            all == section_puts(*section),
            within(all, size as int),
            out@.len() == size,
            out@ == put_all(before, all.take(i + 1)),
        decreases section.atoms@.len() - i,
    {
        let atom = &section.atoms[i];
        let at: usize = section.file_off.wrapping_add(atom.offset) as usize;
        proof {
            assert(all.take(i + 2).drop_last() =~= all.take(i + 1));
            assert(all[i + 1] == atom_put(*section, *atom));
        }
        put_bytes(out, at, &atom.data);
        i += 1;
    }
    assert(all.take(i + 1) =~= all);
}

fn put_sections(out: &mut Vec<u8>, sections: &Vec<OutputSection>)
    requires
        within(all_section_puts(sections@), old(out)@.len() as int),
    ensures
        final(out)@ == put_all(old(out)@, all_section_puts(sections@)),
        final(out)@.len() == old(out)@.len(),
{
    let ghost before = out@;
    let size: usize = out.len();
    let mut i: usize = 0;
    while i < sections.len()
        invariant
            i <= sections@.len(),
            within(all_section_puts(sections@), size as int),
            out@.len() == size,
            out@ == put_all(before, all_section_puts(sections@.take(i as int))),
        decreases sections@.len() - i,
    {
        proof {
            let n = i + 1;
            assert(sections@.take(n).drop_last() =~= sections@.take(i as int));
            lemma_section_prefix(sections@, n, size as int);
            lemma_within_part(
                all_section_puts(sections@.take(i as int)),
                section_puts(sections@[i as int]),
                size as int,
            );
            lemma_put_concat(
                before,
                all_section_puts(sections@.take(i as int)),
                section_puts(sections@[i as int]),
            );
        }
        put_section(out, &sections[i]);
        i += 1;
    }
    assert(sections@.take(i as int) =~= sections@);
}

proof fn lemma_section_prefix(sections: Seq<OutputSection>, n: int, size: int)
    requires
        0 <= n <= sections.len(),
        within(all_section_puts(sections), size),
    ensures
        within(all_section_puts(sections.take(n)), size),
    decreases sections.len() - n,
{
    if n < sections.len() {
        lemma_section_prefix(sections, n + 1, size);
        assert(sections.take(n + 1).drop_last() =~= sections.take(n));
        lemma_within_part(
            all_section_puts(sections.take(n)),
            section_puts(sections[n]),
            size,
        );
    } else {
        assert(sections.take(n) =~= sections);
    }
}

fn put_tables(out: &mut Vec<u8>, l: &LinkEditPlan)
    requires
        within(table_puts(l@), old(out)@.len() as int),
    ensures
        final(out)@ == put_all(old(out)@, table_puts(l@)),
        final(out)@.len() == old(out)@.len(),
{
    let ghost all = table_puts(l@);
    let ghost s0 = out@;
    proof {
        lemma_steps(s0, all);
        assert(all[0] == put_at(l.symtab.symoff, l.symtab_bytes@));
        assert(all[1] == put_at(l.dysymtab.indirectsymoff, l.indirect_bytes@));
        assert(all[2] == put_at(l.dyld_info.rebase_off, l.rebase_bytes@));
        assert(all[3] == put_at(l.dyld_info.bind_off, l.bind_bytes@));
        assert(all[4] == put_at(l.dyld_info.weak_bind_off, l.weak_bind_bytes@));
        assert(all[5] == put_at(l.dyld_info.lazy_bind_off, l.lazy_bind_bytes@));
        assert(all[6] == put_at(l.dyld_info.export_off, l.export_bytes@));
        assert(all[8] == put_at(l.function_starts.dataoff, l.function_starts_bytes@));
        assert(all[9] == put_at(l.data_in_code.dataoff, l.data_in_code_bytes@));
        assert(all[10] == put_at(l.symtab.stroff, l.strtab_bytes@));
    }
    put_bytes(out, l.symtab.symoff as usize, &l.symtab_bytes);
    put_bytes(out, l.dysymtab.indirectsymoff as usize, &l.indirect_bytes);
    put_bytes(out, l.dyld_info.rebase_off as usize, &l.rebase_bytes);
    put_bytes(out, l.dyld_info.bind_off as usize, &l.bind_bytes);
    put_bytes(out, l.dyld_info.weak_bind_off as usize, &l.weak_bind_bytes);
    put_bytes(out, l.dyld_info.lazy_bind_off as usize, &l.lazy_bind_bytes);
    put_bytes(out, l.dyld_info.export_off as usize, &l.export_bytes);
    if let Some(loh) = l.loh {
        assert(all[7] == put_at(loh.dataoff, l.loh_bytes@));
        put_bytes(out, loh.dataoff as usize, &l.loh_bytes);
    }
    put_bytes(out, l.function_starts.dataoff as usize, &l.function_starts_bytes);
    put_bytes(out, l.data_in_code.dataoff as usize, &l.data_in_code_bytes);
    put_bytes(out, l.symtab.stroff as usize, &l.strtab_bytes);
}

/// Eleven steps, one after the other.
proof fn lemma_steps(s: Seq<u8>, w: Seq<Put>)
    requires
        w.len() == 11,
    ensures
        put_all(s, w) == put(
            put(
                put(
                    put(
                        put(put(put(put(put(put(put(s, w[0]), w[1]), w[2]), w[3]), w[4]), w[5]), w[6]),
                        w[7],
                    ),
                    w[8],
                ),
                w[9],
            ),
            w[10],
        ),
{
    lemma_step(s, w, 0);
    lemma_step(s, w, 1);
    lemma_step(s, w, 2);
    lemma_step(s, w, 3);
    lemma_step(s, w, 4);
    lemma_step(s, w, 5);
    lemma_step(s, w, 6);
    lemma_step(s, w, 7);
    lemma_step(s, w, 8);
    lemma_step(s, w, 9);
    lemma_step(s, w, 10);
    assert(w.take(0) =~= seq![]);
    assert(w.take(11) =~= w);
}

proof fn lemma_step(s: Seq<u8>, w: Seq<Put>, i: int)
    requires
        0 <= i < w.len(),
    ensures
        put_all(s, w.take(i + 1)) == put(put_all(s, w.take(i)), w[i]),
{
    assert(w.take(i + 1).drop_last() =~= w.take(i));
}

/// Everything that goes into the file has its place there.
pub open spec fn image_fits(layout: Layout, linkedit: LinkEditModel) -> bool {
    within(
        all_section_puts(layout.sections@) + table_puts(linkedit),
        (file_size(layout.segments@) as usize) as int,
    )
}

/// Writes an image. The bytes of a code signature are put in afterwards, since
/// they depend on the rest of the file.
pub fn write_finalized_with_linkedit(
    layout: &Layout,
    kind: OutputKind,
    opts: &LinkOptions,
    entry_point: Option<EntryPoint>,
    dylibs: &[DylibDependency],
    linkedit_plan: &LinkEditPlan,
    out: &mut Vec<u8>,
) -> (r: Result<(), WriteError>)
    requires
        commands::sections_listed(*layout),
        commands::commands_small(
            commands::commands(
                *layout,
                kind,
                *opts,
                entry_point,
                dylib::dependencies_view(dylibs@),
                linkedit_plan@,
            ),
        ),
        image_fits(*layout, linkedit_plan@),
    ensures
        match layout::segment_at(layout.segments@, "__LINKEDIT"@) {
            None => r == Err::<(), _>(WriteError::MissingSegment("__LINKEDIT")) && final(out)@
                == old(out)@,
            Some(_) => match (
                r,
                commands::commands(
                    *layout,
                    kind,
                    *opts,
                    entry_point,
                    dylib::dependencies_view(dylibs@),
                    linkedit_plan@,
                ),
            ) {
                (Ok(_), Ok(wanted)) => exists|list: Seq<LoadCommand>|
                    #![trigger commands::commands_view(list)]
                    commands::commands_view(list) == wanted && final(out)@ == image(
                        *layout,
                        kind,
                        list,
                        linkedit_plan@,
                    ),
                (Err(e), Err(f)) => e@ == f && final(out)@ == old(out)@,
                _ => false,
            },
        },
{
    if layout.find_segment("__LINKEDIT").is_none() {
        return Err(WriteError::MissingSegment("__LINKEDIT"));
    }
    let list = match build_commands(layout, kind, opts, entry_point, dylibs, linkedit_plan) {
        Ok(list) => list,
        Err(e) => {
            return Err(e);
        },
    };
    let sizeofcmds: u32 = sum_sizes(&list);
    proof {
        lemma_commands_fit(list@);
    }
    let header = MachHeader64 {
        magic: MH_MAGIC_64,
        cputype: CPU_TYPE_ARM64,
        cpusubtype: CPU_SUBTYPE_ARM64_ALL,
        filetype: match kind {
            OutputKind::Executable => MH_EXECUTE,
            OutputKind::Dylib => MH_DYLIB,
        },
        ncmds: list.len() as u32,
        sizeofcmds,
        flags: header_flags(layout, kind),
        reserved: 0,
    };
    let size: usize = final_file_size(layout) as usize;
    out.clear();
    write_header(&header, out);
    write_commands(list.as_slice(), out);
    assert(out@ =~= header.encoded() + reader::commands_bytes(list@));
    resize(out, size);
    let ghost start = out@;
    assert(start == skeleton(*layout, kind, list@));
    proof {
        lemma_within_part(
            all_section_puts(layout.sections@),
            table_puts(linkedit_plan@),
            size as int,
        );
        lemma_put_concat(start, all_section_puts(layout.sections@), table_puts(linkedit_plan@));
    }
    put_sections(out, &layout.sections);
    put_tables(out, linkedit_plan);
    assert(commands::commands_view(list@) == commands::commands_view(list@));
    Ok(())
}

proof fn lemma_commands_fit(list: Seq<LoadCommand>)
    requires
        commands::sizes(commands::commands_view(list)) <= u32::MAX,
    ensures
        reader::commands_fit(list),
{
    let all = commands::commands_view(list);
    assert forall|i: int| 0 <= i < list.len() implies (#[trigger] list[i]).spec_cmdsize()
        <= u32::MAX by {
        commands::lemma_one_size(all, i);
        commands::lemma_size(list[i]);
        assert(all[i] == list[i]@);
    }
}

/// Writes an image without symbols.
pub fn write_finalized_with_dylibs(
    layout: &Layout,
    kind: OutputKind,
    opts: &LinkOptions,
    entry_point: Option<EntryPoint>,
    dylibs: &[DylibDependency],
    signature: Option<CodeSignaturePlan>,
    out: &mut Vec<u8>,
) -> (r: Result<(), WriteError>)
    requires
        commands::sections_listed(*layout),
        match plan::linkedit_base(*layout) {
            Err(_) => true,
            Ok(base) => {
                let l = LinkEditModel { code_signature: signature, ..plan::minimal_plan(base) };
                &&& commands::commands_small(
                    commands::commands(
                        *layout,
                        kind,
                        *opts,
                        entry_point,
                        dylib::dependencies_view(dylibs@),
                        l,
                    ),
                )
                &&& image_fits(*layout, l)
            },
        },
    ensures
        match plan::linkedit_base(*layout) {
            Err(f) => match r {
                Err(e) => e@ == f && final(out)@ == old(out)@,
                Ok(_) => false,
            },
            Ok(base) => {
                let l = LinkEditModel { code_signature: signature, ..plan::minimal_plan(base) };
                match (
                    r,
                    commands::commands(
                        *layout,
                        kind,
                        *opts,
                        entry_point,
                        dylib::dependencies_view(dylibs@),
                        l,
                    ),
                ) {
                    (Ok(_), Ok(wanted)) => exists|list: Seq<LoadCommand>|
                        #![trigger commands::commands_view(list)]
                        commands::commands_view(list) == wanted && final(out)@ == image(
                            *layout,
                            kind,
                            list,
                            l,
                        ),
                    (Err(e), Err(f)) => e@ == f && final(out)@ == old(out)@,
                    _ => false,
                }
            },
        },
{
    let mut linkedit = match LinkEditPlan::minimal(layout) {
        Ok(plan) => plan,
        Err(e) => {
            return Err(e);
        },
    };
    linkedit.code_signature = signature;
    assert(linkedit@ =~= (LinkEditModel {
        code_signature: signature,
        ..plan::minimal_plan(plan::linkedit_base(*layout)->Ok_0)
    }));
    write_finalized_with_linkedit(layout, kind, opts, entry_point, dylibs, &linkedit, out)
}

/// Puts the bytes of a code signature into their place.
pub fn place_code_signature(out: &mut Vec<u8>, signature: &CodeSignaturePlan, bytes: &Vec<u8>)
    requires
        bytes@.len() > 0 ==> signature.dataoff + bytes@.len() <= old(out)@.len(),
    ensures
        final(out)@ == put(old(out)@, put_at(signature.dataoff, bytes@)),
{
    put_bytes(out, signature.dataoff as usize, bytes);
}

/// Which block of the plan a table's bytes belong to.
pub open spec fn block_of(i: int) -> int {
    if i == 0 {
        6
    } else if i == 1 {
        7
    } else if i == 2 {
        0
    } else if i == 3 {
        1
    } else if i == 5 {
        2
    } else if i == 6 {
        3
    } else if i == 8 {
        4
    } else if i == 9 {
        5
    } else {
        8
    }
}

/// The plan's commands point at these places.
pub open spec fn points_at(l: LinkEditModel, p: Places) -> bool {
    &&& l.symtab.symoff == p.symoff
    &&& l.symtab.stroff == p.stroff
    &&& l.dysymtab.indirectsymoff == p.indirectsymoff
    &&& l.dyld_info.rebase_off == p.rebase_off
    &&& l.dyld_info.bind_off == p.bind_off
    &&& l.dyld_info.lazy_bind_off == p.lazy_bind_off
    &&& l.dyld_info.export_off == p.export_off
    &&& l.function_starts.dataoff == p.function_starts_off
    &&& l.data_in_code.dataoff == p.data_in_code_off
    &&& l.loh is None
    &&& l.weak_bind_bytes.len() == 0
}

pub proof fn lemma_table_block(base: u32, l: LinkEditModel, i: int)
    requires
        plan::places(base, l.tables) is Ok,
        points_at(l, plan::places(base, l.tables)->Ok_0),
        0 <= i < 11,
    ensures
        ({
            let b = plan::blocks(plan::places(base, l.tables)->Ok_0, l.tables);
            let w = table_puts(l);
            w[i].part.len() > 0 ==> w[i].at == b[block_of(i)].0 && w[i].part.len()
                == b[block_of(i)].1
        }),
{
}

/// The tables of a planned image can be read back: each stands where the load
/// command that points at it says.
pub proof fn law_tables_read_back(
    layout: Layout,
    kind: OutputKind,
    list: Seq<LoadCommand>,
    base: u32,
    l: LinkEditModel,
)
    requires
        plan::sizes_fit(l.tables),
        plan::places(base, l.tables) is Ok,
        points_at(l, plan::places(base, l.tables)->Ok_0),
        image_fits(layout, l),
    ensures
        ({
            let file = image(layout, kind, list, l);
            forall|i: int|
                0 <= i < 11 && (#[trigger] table_puts(l)[i]).part.len() > 0 ==> file.subrange(
                    table_puts(l)[i].at,
                    table_puts(l)[i].at + table_puts(l)[i].part.len(),
                ) == table_puts(l)[i].part
        }),
{
    let start = skeleton(layout, kind, list);
    let a = all_section_puts(layout.sections@);
    let w = table_puts(l);
    let b = plan::blocks(plan::places(base, l.tables)->Ok_0, l.tables);
    plan::law_tables_apart(base, l.tables);
    assert forall|i: int| 0 <= i < 11 && (#[trigger] w[i]).part.len() > 0 implies image(
        layout,
        kind,
        list,
        l,
    ).subrange(w[i].at, w[i].at + w[i].part.len()) == w[i].part by {
        let all = a + w;
        let k = a.len() + i;
        assert(all[k] == w[i]);
        assert forall|j: int| k < j < all.len() implies apart(all[k], #[trigger] all[j]) by {
            let m = j - a.len();
            assert(all[j] == w[m]);
            lemma_table_block(base, l, i);
            lemma_table_block(base, l, m);
            if w[m].part.len() > 0 {
                let x = block_of(i);
                let y = block_of(m);
                assert(x != y);
                assert(b[x].1 > 0 && b[y].1 > 0);
                if x < y {
                    assert(b[x].0 + b[x].1 <= b[y].0);
                } else {
                    assert(b[y].0 + b[y].1 <= b[x].0);
                }
            }
        }
        law_put_stays(start, all, k);
    }
}

/// Nothing is put in before `from`.
pub open spec fn behind(w: Seq<Put>, from: int) -> bool {
    forall|i: int| 0 <= i < w.len() && (#[trigger] w[i]).part.len() > 0 ==> from <= w[i].at
}

proof fn lemma_front_stays(s: Seq<u8>, w: Seq<Put>, from: int)
    requires
        within(w, s.len() as int),
        behind(w, from),
        0 <= from <= s.len(),
    ensures
        put_all(s, w).len() == s.len(),
        put_all(s, w).take(from) == s.take(from),
    decreases w.len(),
{
    lemma_put_len(s, w);
    if w.len() > 0 {
        let rest = w.drop_last();
        assert forall|i: int| 0 <= i < rest.len() && (#[trigger] rest[i]).part.len() > 0 implies 0
            <= rest[i].at && rest[i].at + rest[i].part.len() <= s.len() && from <= rest[i].at by {
            assert(rest[i] == w[i]);
        }
        lemma_front_stays(s, rest, from);
        assert(w[w.len() - 1] == w.last());
        let before = put_all(s, rest);
        let after = put_all(s, w);
        if w.last().part.len() > 0 {
            assert(after.take(from) =~= before.take(from));
        }
    }
}

/// An image is a file that its header and its load commands can be read from again, if
/// they have room before the sections and tables.
pub proof fn law_image_reads_back(
    layout: Layout,
    kind: OutputKind,
    list: Seq<LoadCommand>,
    linkedit: LinkEditModel,
)
    requires
        image_fits(layout, linkedit),
        list.len() <= u32::MAX,
        forall|k: int| 0 <= k < list.len() ==> command_laws::readable(#[trigger] list[k]),
        HEADER_SIZE + reader::commands_bytes(list).len() <= file_size(layout.segments@) as usize,
        behind(
            all_section_puts(layout.sections@) + table_puts(linkedit),
            HEADER_SIZE + reader::commands_bytes(list).len() as int,
        ),
    ensures
        ({
            let file = image(layout, kind, list, linkedit);
            let size = commands::sizes(commands::commands_view(list)) as u32;
            &&& reader::header_of(file) == Ok::<MachHeader64, ReadError>(
                header(layout, kind, list.len() as u32, size),
            )
            &&& reader::commands_error(file, HEADER_SIZE as int, list.len()) is None
            &&& reader::commands_decode(list, file, list.len())
        }),
{
    let size = commands::sizes(commands::commands_view(list)) as u32;
    let hdr = header(layout, kind, list.len() as u32, size);
    let cmds = reader::commands_bytes(list);
    let front = hdr.encoded() + cmds;
    let start = skeleton(layout, kind, list);
    let n = HEADER_SIZE + cmds.len() as int;
    let file = image(layout, kind, list, linkedit);
    reader::law_header_read_of_write(hdr, seq![]);
    assert(hdr.encoded() + Seq::<u8>::empty() =~= hdr.encoded());
    assert(front.len() == n);
    assert(start.take(n) =~= front);
    lemma_front_stays(start, all_section_puts(layout.sections@) + table_puts(linkedit), n);
    let more = file.skip(n);
    assert(file =~= file.take(n) + more);
    assert(file =~= hdr.encoded() + cmds + more);
    assert(hdr.encoded() + (cmds + more) =~= file);
    reader::law_header_read_of_write(hdr, cmds + more);
    command_laws::law_commands_read_of_write(hdr, list, more);
}

} // verus!
