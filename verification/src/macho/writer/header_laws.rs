//! What the load commands of an image say of it.

use vstd::prelude::*;
use crate::bytes;
use crate::layout;
use crate::layout::Layout;
use crate::macho::dylib::DependencyModel;
use crate::macho::writer::commands;
use crate::macho::writer::commands::{CommandModel, SectionModel, SegmentModel};
use crate::macho::writer::place_laws;
use crate::macho::writer::plan::LinkEditModel;
use crate::macho::writer::EntryPoint;
use crate::options::{LinkOptions, OutputKind};
use crate::reloc::arm64::places;
use crate::section::{OutputSection, OutputSectionId, OutputSegment, SectionKind};
use crate::text;

verus! {

/// The header is that of the section: its place in memory and, unless it is filled with
/// zeros, in the file, its size and its marks.
pub open spec fn describes(h: SectionModel, s: OutputSection) -> bool {
    let zeros = s.kind == SectionKind::ZeroFill || s.kind == SectionKind::ThreadLocalZeroFill
        || s.kind == SectionKind::GbZeroFill;
    &&& h.sectname == commands::name_bytes(s.name@)
    &&& h.segname == commands::name_bytes(s.segment@)
    &&& h.addr == s.addr
    &&& h.size == s.size
    &&& zeros ==> h.offset == 0
    &&& !zeros ==> h.offset == s.file_off
    &&& h.align == s.align_pow2
    &&& h.nreloc == 0
    &&& h.flags == s.flags
    &&& h.reserved1 == s.reserved1
    &&& h.reserved2 == s.reserved2
    &&& h.reserved3 == s.reserved3
}

proof fn lemma_headers(sections: Seq<OutputSection>, ids: Seq<OutputSectionId>)
    requires
        commands::section_headers(sections, ids) is Ok,
    ensures
        (commands::section_headers(sections, ids)->Ok_0).len() == ids.len(),
        forall|q: int|
            0 <= q < ids.len() ==> describes(
                #[trigger] (commands::section_headers(sections, ids)->Ok_0)[q],
                sections[ids[q].0 as int],
            ),
    decreases ids.len(),
{
    if ids.len() > 0 {
        let front = ids.drop_last();
        lemma_headers(sections, front);
        let rest = commands::section_headers(sections, front)->Ok_0;
        let out = commands::section_headers(sections, ids)->Ok_0;
        assert forall|q: int| 0 <= q < ids.len() implies describes(
            #[trigger] out[q],
            sections[ids[q].0 as int],
        ) by {
            if q < front.len() {
                assert(out[q] == rest[q]);
                assert(front[q] == ids[q]);
            }
        }
    }
}

proof fn lemma_models(layout: Layout, segments: Seq<OutputSegment>)
    requires
        commands::segment_models(layout, segments) is Ok,
    ensures
        (commands::segment_models(layout, segments)->Ok_0).len() == segments.len(),
        forall|s: int|
            0 <= s < segments.len() ==> commands::segment_model(
                layout,
                (#[trigger] segments[s]).name@,
            ) is Ok && (commands::segment_models(layout, segments)->Ok_0)[s]
                == CommandModel::Segment64(
                commands::segment_model(layout, segments[s].name@)->Ok_0,
            ),
    decreases segments.len(),
{
    if segments.len() > 0 {
        let front = segments.drop_last();
        lemma_models(layout, front);
        let rest = commands::segment_models(layout, front)->Ok_0;
        let out = commands::segment_models(layout, segments)->Ok_0;
        assert forall|s: int| 0 <= s < segments.len() implies commands::segment_model(
            layout,
            (#[trigger] segments[s]).name@,
        ) is Ok && out[s] == CommandModel::Segment64(
            commands::segment_model(layout, segments[s].name@)->Ok_0,
        ) by {
            if s < front.len() {
                assert(front[s] == segments[s]);
                assert(out[s] == rest[s]);
            }
        }
    }
}

/// Each segment has its load command, in the order of the segments: with the segment's place
/// in memory and in the file, and the headers of its sections in their order.
pub proof fn law_segments_are_described(
    layout: Layout,
    kind: OutputKind,
    opts: LinkOptions,
    entry: Option<EntryPoint>,
    dylibs: Seq<DependencyModel>,
    linkedit: LinkEditModel,
    s: int,
    q: int,
)
    requires
        commands::commands(layout, kind, opts, entry, dylibs, linkedit) is Ok,
        0 <= s < layout.segments@.len(),
        forall|k: int|
            0 <= k < s ==> (#[trigger] layout.segments@[k]).name@ != layout.segments@[s].name@,
        0 <= q < layout.segments@[s].sections@.len(),
    ensures
        ({
            let c = commands::commands(layout, kind, opts, entry, dylibs, linkedit)->Ok_0;
            let segment = layout.segments@[s];
            let m = c[s]->Segment64_0;
            &&& s < c.len()
            &&& c[s] is Segment64
            &&& m.segname == commands::name_bytes(segment.name@)
            &&& m.vmaddr == segment.vm_addr
            &&& m.vmsize == segment.vm_size
            &&& m.fileoff == segment.file_off
            &&& m.filesize == segment.file_size
            &&& m.maxprot == segment.max_prot.0
            &&& m.initprot == segment.init_prot.0
            &&& m.flags == segment.flags
            &&& m.sections.len() == segment.sections@.len()
            &&& describes(m.sections[q], layout.sections@[segment.sections@[q].0 as int])
        }),
{
    let segment = layout.segments@[s];
    lemma_models(layout, layout.segments@);
    layout::lemma_segment_at(layout.segments@, segment.name@);
    assert(layout::segment_at(layout.segments@, segment.name@) == Some(s));
    lemma_headers(layout.sections@, segment.sections@);
    let models = commands::segment_models(layout, layout.segments@)->Ok_0;
    let c = commands::commands(layout, kind, opts, entry, dylibs, linkedit)->Ok_0;
    assert(c[s] == models[s]);
}

/// The commands name the tables of the link-edit data.
pub proof fn law_tables_are_named(
    layout: Layout,
    kind: OutputKind,
    opts: LinkOptions,
    entry: Option<EntryPoint>,
    dylibs: Seq<DependencyModel>,
    linkedit: LinkEditModel,
)
    requires
        commands::commands(layout, kind, opts, entry, dylibs, linkedit) is Ok,
    ensures
        ({
            let c = commands::commands(layout, kind, opts, entry, dylibs, linkedit)->Ok_0;
            &&& c.contains(CommandModel::DyldInfoOnly(linkedit.dyld_info))
            &&& c.contains(CommandModel::Symtab(linkedit.symtab))
            &&& c.contains(CommandModel::Dysymtab(linkedit.dysymtab))
            &&& c.contains(
                table_command(
                    0x26,
                    linkedit.function_starts.dataoff,
                    linkedit.function_starts.datasize,
                ),
            )
            &&& c.contains(
                table_command(0x29, linkedit.data_in_code.dataoff, linkedit.data_in_code.datasize),
            )
        }),
{
    let c = commands::commands(layout, kind, opts, entry, dylibs, linkedit)->Ok_0;
    let main = commands::entry_commands(layout, kind, entry)->Ok_0;
    let a = commands::segment_models(layout, layout.segments@)->Ok_0;
    let ids = commands::id_commands(kind, opts).len() as int;
    let b = commands::middle_commands(layout, kind, opts, main, linkedit);
    let d = commands::dependency_commands(dylibs);
    let e = commands::rpath_commands(text::texts(opts.rpaths@));
    let f = commands::tail_commands(linkedit);
    assert(b[ids] == CommandModel::DyldInfoOnly(linkedit.dyld_info));
    assert(b[ids + 1] == CommandModel::Symtab(linkedit.symtab));
    assert(b[ids + 2] == CommandModel::Dysymtab(linkedit.dysymtab));
    assert(c[a.len() as int + ids] == CommandModel::DyldInfoOnly(linkedit.dyld_info));
    assert(c[a.len() as int + ids + 1] == CommandModel::Symtab(linkedit.symtab));
    assert(c[a.len() as int + ids + 2] == CommandModel::Dysymtab(linkedit.dysymtab));
    let front = a.len() + b.len() + d.len() + e.len();
    let last = f.len();
    let starts = table_command(
        0x26,
        linkedit.function_starts.dataoff,
        linkedit.function_starts.datasize,
    );
    let inside = table_command(
        0x29,
        linkedit.data_in_code.dataoff,
        linkedit.data_in_code.datasize,
    );
    assert(f[last - 3] == starts);
    assert(f[last - 2] == inside);
    assert(c[front + last - 3] == starts);
    assert(c[front + last - 2] == inside);
}

/// A command of that number that gives a place in the file and a size.
pub open spec fn table_command(cmd: u32, dataoff: u32, datasize: u32) -> CommandModel {
    CommandModel::Raw {
        cmd,
        cmdsize: 16,
        data: bytes::le32_bytes(dataoff) + bytes::le32_bytes(datasize),
    }
}

/// A program starts at its entry: as far into the file as the atom of the entry lies, plus
/// the entry's offset in the atom.
pub proof fn law_program_starts_at_entry(
    layout: Layout,
    opts: LinkOptions,
    entry: EntryPoint,
    dylibs: Seq<DependencyModel>,
    linkedit: LinkEditModel,
    i: int,
    k: int,
)
    requires
        commands::commands(
            layout,
            OutputKind::Executable,
            opts,
            Some(entry),
            dylibs,
            linkedit,
        ) is Ok,
        places::stands_at(layout.sections@, i, k, entry.atom.0),
    ensures
        exists|x: int|
            0 <= x < (commands::commands(
                layout,
                OutputKind::Executable,
                opts,
                Some(entry),
                dylibs,
                linkedit,
            )->Ok_0).len() && starts_at(
                #[trigger] (commands::commands(
                    layout,
                    OutputKind::Executable,
                    opts,
                    Some(entry),
                    dylibs,
                    linkedit,
                )->Ok_0)[x],
                (layout.sections@[i].file_off + layout.sections@[i].atoms@[k].offset
                    + entry.atom_value) % 0x1_0000_0000_0000_0000,
            ),
{
    let at = layout.sections@[i].file_off.wrapping_add(
        layout.sections@[i].atoms@[k].offset,
    ).wrapping_add(entry.atom_value);
    place_laws::lemma_file_offset(layout.sections@, i, k, entry.atom.0);
    let x = lemma_entry_command(layout, opts, entry, dylibs, linkedit, at);
    lemma_main(at);
    lemma_wraps(
        layout.sections@[i].file_off,
        layout.sections@[i].atoms@[k].offset,
        entry.atom_value,
    );
}

proof fn lemma_wraps(a: u64, b: u64, c: u64)
    ensures
        a.wrapping_add(b).wrapping_add(c) == (a + b + c) % 0x1_0000_0000_0000_0000,
{
}

proof fn lemma_entry_command(
    layout: Layout,
    opts: LinkOptions,
    entry: EntryPoint,
    dylibs: Seq<DependencyModel>,
    linkedit: LinkEditModel,
    at: u64,
) -> (x: int)
    requires
        commands::commands(
            layout,
            OutputKind::Executable,
            opts,
            Some(entry),
            dylibs,
            linkedit,
        ) is Ok,
        commands::entry_offset(layout, Some(entry)) is Ok,
        commands::entry_offset(layout, Some(entry))->Ok_0 == at,
    ensures
        ({
            let c = commands::commands(
                layout,
                OutputKind::Executable,
                opts,
                Some(entry),
                dylibs,
                linkedit,
            )->Ok_0;
            0 <= x < c.len() && c[x] == commands::main_command(at, 0)
        }),
{
    let kind = OutputKind::Executable;
    let c = commands::commands(layout, kind, opts, Some(entry), dylibs, linkedit)->Ok_0;
    let main = commands::entry_commands(layout, kind, Some(entry))->Ok_0;
    let a = commands::segment_models(layout, layout.segments@)->Ok_0;
    let b = commands::middle_commands(layout, kind, opts, main, linkedit);
    assert(main[0] == commands::main_command(at, 0));
    assert(b[b.len() - 1] == main[0]);
    let x = a.len() + b.len() - 1;
    assert(c[x] == b[b.len() - 1]);
    x
}

proof fn lemma_main(at: u64)
    ensures
        starts_at(commands::main_command(at, 0), at as int),
{
    reveal(starts_at);
    let data = bytes::le64_bytes(at) + bytes::le64_bytes(0);
    assert(bytes::le64_bytes(at).len() == 8);
    assert(bytes::le64_bytes(0).len() == 8);
    assert(data.subrange(0, 8) =~= bytes::le64_bytes(at));
    bytes::lemma_le64_of_bytes(data, 0, at);
}

/// The command says where the program starts, counted from the start of the file.
#[verifier::opaque]
pub open spec fn starts_at(c: CommandModel, offset: int) -> bool {
    match c {
        CommandModel::Raw { cmd, data, .. } => cmd == 0x8000_0028 && data.len() == 16 && bytes::le64(
            data,
            0,
        ) == offset,
        _ => false,
    }
}

/// The commands name every dylib that the image needs, in the order of the numbers by which
/// its symbols refer to them, and load it as it is to be loaded.
pub proof fn law_dylibs_are_loaded_in_order(
    layout: Layout,
    kind: OutputKind,
    opts: LinkOptions,
    entry: Option<EntryPoint>,
    dylibs: Seq<DependencyModel>,
    linkedit: LinkEditModel,
    d: int,
)
    requires
        commands::commands(layout, kind, opts, entry, dylibs, linkedit) is Ok,
        0 <= d < dylibs.len(),
    ensures
        ({
            let c = commands::commands(layout, kind, opts, entry, dylibs, linkedit)->Ok_0;
            let before = layout.segments@.len() + commands::middle_commands(
                layout,
                kind,
                opts,
                commands::entry_commands(layout, kind, entry)->Ok_0,
                linkedit,
            ).len();
            let x = before + d;
            &&& x < c.len()
            &&& c[x] is Dylib
            &&& c[x]->Dylib_name == dylibs[d].install_name
            &&& c[x]->Dylib_current_version == dylibs[d].current_version
            &&& c[x]->Dylib_compatibility_version == dylibs[d].compatibility_version
            &&& dylibs[d].kind is Normal ==> c[x]->Dylib_cmd == 0xc
            &&& dylibs[d].kind is Weak ==> c[x]->Dylib_cmd == 0x8000_0018
            &&& dylibs[d].kind is Reexport ==> c[x]->Dylib_cmd == 0x8000_001f
            &&& dylibs[d].kind is Upward ==> c[x]->Dylib_cmd == 0x8000_0023
        }),
{
    let c = commands::commands(layout, kind, opts, entry, dylibs, linkedit)->Ok_0;
    let main = commands::entry_commands(layout, kind, entry)->Ok_0;
    let a = commands::segment_models(layout, layout.segments@)->Ok_0;
    let b = commands::middle_commands(layout, kind, opts, main, linkedit);
    lemma_models(layout, layout.segments@);
    assert(c[a.len() + b.len() + d] == commands::dependency_command(dylibs[d]));
}

/// The header of an executable says that it is for the dynamic linker, leaves nothing
/// undefined, looks its imports up by library and can stand anywhere; that of a dylib says
/// the same but for the last. Thread-local variables are told by a mark of their own.
pub proof fn law_header_marks(layout: Layout, kind: OutputKind)
    ensures
        ({
            let threads = exists|k: int|
                0 <= k < layout.sections@.len() && (#[trigger] layout.sections@[k]).segment@
                    == "__DATA"@ && layout.sections@[k].name@ == "__thread_vars"@;
            commands::flags(layout, kind) == (if kind is Executable {
                0x20_0000 + 0x80 + 0x4 + 0x1
            } else {
                0x80 + 0x4 + 0x1
            }) + (if threads {
                0x80_0000int
            } else {
                0
            })
        }),
{
    layout::lemma_section_at(layout.sections@, "__DATA"@, "__thread_vars"@);
    if let Some(i) = layout::section_at(layout.sections@, "__DATA"@, "__thread_vars"@) {
        assert(layout::is_section(layout.sections@[i], "__DATA"@, "__thread_vars"@));
    }
    assert((0x4u32 | 0x1u32 | 0x80u32 | 0x20_0000u32) == 0x20_0085 && (0x4u32 | 0x80u32 | 0x1u32)
        == 0x85 && (0x20_0085u32 | 0x80_0000u32) == 0xa0_0085 && (0x85u32 | 0x80_0000u32)
        == 0x80_0085) by (bit_vector);
}

} // verus!
