//! The load commands of an image.

use vstd::prelude::*;
use crate::bytes;
use crate::bytes::{push_bytes, push_u32, push_u64, push_zeros};
use crate::layout;
use crate::layout::Layout;
use crate::macho::constants::{
    LC_CODE_SIGNATURE, LC_DATA_IN_CODE, LC_FUNCTION_STARTS, LC_ID_DYLIB,
    LC_LINKER_OPTIMIZATION_HINT, LC_LOAD_DYLINKER, LC_MAIN, LC_SOURCE_VERSION, LC_UUID,
    MH_DYLDLINK, MH_HAS_TLV_DESCRIPTORS, MH_NOUNDEFS, MH_PIE, MH_TWOLEVEL, PLATFORM_MACOS,
};
use crate::macho::dylib;
use crate::macho::dylib::{DependencyModel, DylibDependency};
use crate::macho::reader;
use crate::macho::reader::{
    array16, BuildTool, BuildVersionCmd, DyldInfoCmd, DylibCmd, DysymtabCmd, LinkEditDataCmd,
    LoadCommand, RpathCmd, Section64Header, Segment64, SymtabCmd, HEADER_SIZE,
};
use crate::macho::writer;
use crate::macho::writer::plan::{LinkEditModel, LinkEditPlan};
use crate::macho::writer::{pack_version, u32_fit, EntryPoint, WriteError, WriteFault};
use crate::options::{LinkOptions, OutputKind, PlatformVersion};
use crate::path;
use crate::path::find_file_name;
use crate::section;
use crate::section::{OutputSection, OutputSectionId, OutputSegment};
use crate::text;
use crate::text::same_text;

verus! {

/// A `Section64Header` with its names as byte sequences.
#[verifier::ext_equal]
pub struct SectionModel {
    pub sectname: Seq<u8>,
    pub segname: Seq<u8>,
    pub addr: u64,
    pub size: u64,
    pub offset: u32,
    pub align: u32,
    pub reloff: u32,
    pub nreloc: u32,
    pub flags: u32,
    pub reserved1: u32,
    pub reserved2: u32,
    pub reserved3: u32,
}

impl View for Section64Header {
    type V = SectionModel;

    open spec fn view(&self) -> SectionModel {
        SectionModel {
            sectname: self.sectname@,
            segname: self.segname@,
            addr: self.addr,
            size: self.size,
            offset: self.offset,
            align: self.align,
            reloff: self.reloff,
            nreloc: self.nreloc,
            flags: self.flags,
            reserved1: self.reserved1,
            reserved2: self.reserved2,
            reserved3: self.reserved3,
        }
    }
}

pub open spec fn headers_view(s: Seq<Section64Header>) -> Seq<SectionModel> {
    s.map_values(|h: Section64Header| h@)
}

/// A `Segment64` with sequences in place of its arrays and vectors.
#[verifier::ext_equal]
pub struct SegmentModel {
    pub segname: Seq<u8>,
    pub vmaddr: u64,
    pub vmsize: u64,
    pub fileoff: u64,
    pub filesize: u64,
    pub maxprot: u32,
    pub initprot: u32,
    pub flags: u32,
    pub sections: Seq<SectionModel>,
}

impl View for Segment64 {
    type V = SegmentModel;

    open spec fn view(&self) -> SegmentModel {
        SegmentModel {
            segname: self.segname@,
            vmaddr: self.vmaddr,
            vmsize: self.vmsize,
            fileoff: self.fileoff,
            filesize: self.filesize,
            maxprot: self.maxprot,
            initprot: self.initprot,
            flags: self.flags,
            sections: headers_view(self.sections@),
        }
    }
}

/// A `LoadCommand` with sequences in place of its strings and vectors.
#[verifier::ext_equal]
pub enum CommandModel {
    Segment64(SegmentModel),
    Symtab(SymtabCmd),
    Dysymtab(DysymtabCmd),
    DyldInfoOnly(DyldInfoCmd),
    DyldExportsTrie(LinkEditDataCmd),
    Dylib {
        cmd: u32,
        name: Seq<char>,
        timestamp: u32,
        current_version: u32,
        compatibility_version: u32,
    },
    Rpath { path: Seq<char> },
    BuildVersion { platform: u32, minos: u32, sdk: u32, tools: Seq<BuildTool> },
    Raw { cmd: u32, cmdsize: u32, data: Seq<u8> },
}

impl View for LoadCommand {
    type V = CommandModel;

    open spec fn view(&self) -> CommandModel {
        match self {
            LoadCommand::Segment64(s) => CommandModel::Segment64(s@),
            LoadCommand::Symtab(c) => CommandModel::Symtab(*c),
            LoadCommand::Dysymtab(c) => CommandModel::Dysymtab(*c),
            LoadCommand::DyldInfoOnly(c) => CommandModel::DyldInfoOnly(*c),
            LoadCommand::DyldExportsTrie(c) => CommandModel::DyldExportsTrie(*c),
            LoadCommand::Dylib(d) => CommandModel::Dylib {
                cmd: d.cmd,
                name: d.name@,
                timestamp: d.timestamp,
                current_version: d.current_version,
                compatibility_version: d.compatibility_version,
            },
            LoadCommand::Rpath(r) => CommandModel::Rpath { path: r.path@ },
            LoadCommand::BuildVersion(b) => CommandModel::BuildVersion {
                platform: b.platform,
                minos: b.minos,
                sdk: b.sdk,
                tools: b.tools@,
            },
            LoadCommand::Raw { cmd, cmdsize, data } => CommandModel::Raw {
                cmd: *cmd,
                cmdsize: *cmdsize,
                data: data@,
            },
        }
    }
}

impl CommandModel {
    /// The size that the command states for itself.
    pub open spec fn size(self) -> int {
        match self {
            CommandModel::Segment64(s) => 72 + 80 * s.sections.len() as int,
            CommandModel::Symtab(_) => 24,
            CommandModel::Dysymtab(_) => 80,
            CommandModel::DyldInfoOnly(_) => 48,
            CommandModel::DyldExportsTrie(_) => 16,
            CommandModel::Dylib { name, .. } => dylib_size(name),
            CommandModel::Rpath { path } => rpath_size(path),
            CommandModel::BuildVersion { tools, .. } => 24 + 8 * tools.len() as int,
            CommandModel::Raw { cmdsize, .. } => cmdsize as int,
        }
    }
}

/// The size of a dylib command with this name.
pub open spec fn dylib_size(name: Seq<char>) -> int {
    reader::round8(24 + text::utf8(name).len() as int + 1)
}

/// The size of an rpath command with this path.
pub open spec fn rpath_size(path: Seq<char>) -> int {
    reader::round8(12 + text::utf8(path).len() as int + 1)
}

pub proof fn lemma_size(c: LoadCommand)
    ensures
        c.spec_cmdsize() == c@.size(),
{
}

pub open spec fn commands_view(s: Seq<LoadCommand>) -> Seq<CommandModel> {
    s.map_values(|c: LoadCommand| c@)
}

/// The sizes of all commands together.
pub open spec fn sizes(s: Seq<CommandModel>) -> int
    decreases s.len(),
{
    if s.len() == 0 {
        0
    } else {
        sizes(s.drop_last()) + s.last().size()
    }
}

fn push_command(out: &mut Vec<LoadCommand>, c: LoadCommand)
    ensures
        commands_view(final(out)@) == commands_view(old(out)@).push(c@),
{
    let ghost before = out@;
    out.push(c);
    assert(commands_view(out@) =~= commands_view(before).push(c@));
}

/// A name in sixteen bytes: cut off, or with zeros behind it.
pub open spec fn name_bytes(name: Seq<char>) -> Seq<u8> {
    let b = text::utf8(name);
    if b.len() >= 16 {
        b.take(16)
    } else {
        b + bytes::zeros(16 - b.len())
    }
}

pub fn name16(s: &str) -> (r: [u8; 16])
    ensures
        r@ == name_bytes(s@),
{
    let b = s.as_bytes();
    let mut v: Vec<u8> = Vec::new();
    push_bytes(&mut v, b);
    if v.len() < 16 {
        let n: usize = 16 - v.len();
        push_zeros(&mut v, n);
    }
    let r = array16(v.as_slice(), 0);
    assert(r@ =~= name_bytes(s@));
    r
}

/// The header of an output section.
pub open spec fn section_header(s: OutputSection) -> Result<SectionModel, WriteFault> {
    let offset = if section::kind_is_zerofill(s.kind) {
        Ok(0)
    } else {
        writer::fit32(s.file_off, "section file offset"@)
    };
    match offset {
        Err(e) => Err(e),
        Ok(offset) => Ok(
            SectionModel {
                sectname: name_bytes(s.name@),
                segname: name_bytes(s.segment@),
                addr: s.addr,
                size: s.size,
                offset,
                align: s.align_pow2 as u32,
                reloff: 0,
                nreloc: 0,
                flags: s.flags,
                reserved1: s.reserved1,
                reserved2: s.reserved2,
                reserved3: s.reserved3,
            },
        ),
    }
}

/// The headers of the sections with these ids.
pub open spec fn section_headers(sections: Seq<OutputSection>, ids: Seq<OutputSectionId>) -> Result<
    Seq<SectionModel>,
    WriteFault,
>
    decreases ids.len(),
{
    if ids.len() == 0 {
        Ok(seq![])
    } else {
        match section_headers(sections, ids.drop_last()) {
            Err(e) => Err(e),
            Ok(rest) => match section_header(sections[ids.last().0 as int]) {
                Err(e) => Err(e),
                Ok(h) => Ok(rest.push(h)),
            },
        }
    }
}

/// The command for the segment of that name.
pub open spec fn segment_model(layout: Layout, name: Seq<char>) -> Result<SegmentModel, WriteFault> {
    match layout::segment_at(layout.segments@, name) {
        None => Err(WriteFault::MissingSegment(known_segment(name))),
        Some(i) => {
            let s = layout.segments@[i];
            match section_headers(layout.sections@, s.sections@) {
                Err(e) => Err(e),
                Ok(sections) => Ok(
                    SegmentModel {
                        segname: name_bytes(name),
                        vmaddr: s.vm_addr,
                        vmsize: s.vm_size,
                        fileoff: s.file_off,
                        filesize: s.file_size,
                        maxprot: s.max_prot.0,
                        initprot: s.init_prot.0,
                        flags: s.flags,
                        sections,
                    },
                ),
            }
        },
    }
}

/// How an error calls a segment.
pub open spec fn known_segment(name: Seq<char>) -> Seq<char> {
    if name == "__PAGEZERO"@ || name == "__TEXT"@ || name == "__DATA_CONST"@ || name == "__DATA"@
        || name == "__LINKEDIT"@ {
        name
    } else {
        "__UNKNOWN"@
    }
}

fn known_segment_name(name: &str) -> (r: &'static str)
    ensures
        r@ == known_segment(name@),
{
    if same_text(name, "__PAGEZERO") {
        "__PAGEZERO"
    } else if same_text(name, "__TEXT") {
        "__TEXT"
    } else if same_text(name, "__DATA_CONST") {
        "__DATA_CONST"
    } else if same_text(name, "__DATA") {
        "__DATA"
    } else if same_text(name, "__LINKEDIT") {
        "__LINKEDIT"
    } else {
        "__UNKNOWN"
    }
}

/// Every section that a segment lists is there.
pub open spec fn sections_listed(layout: Layout) -> bool {
    forall|i: int| 0 <= i < layout.segments@.len() ==> ids_known(
        (#[trigger] layout.segments@[i]).sections@,
        layout.sections@.len(),
    )
}

pub open spec fn ids_known(ids: Seq<OutputSectionId>, count: nat) -> bool {
    forall|k: int| 0 <= k < ids.len() ==> (#[trigger] ids[k]).0 < count
}

fn make_section_header(s: &OutputSection) -> (r: Result<Section64Header, WriteError>)
    ensures
        match (r, section_header(*s)) {
            (Ok(h), Ok(m)) => h@ == m,
            (Err(e), Err(f)) => e@ == f,
            _ => false,
        },
{
    let offset: u32 = if s.is_zerofill() {
        0
    } else {
        match u32_fit(s.file_off, "section file offset") {
            Ok(offset) => offset,
            Err(e) => {
                return Err(e);
            },
        }
    };
    Ok(
        Section64Header {
            sectname: name16(s.name.as_str()),
            segname: name16(s.segment.as_str()),
            addr: s.addr,
            size: s.size,
            offset,
            align: s.align_pow2 as u32,
            reloff: 0,
            nreloc: 0,
            flags: s.flags,
            reserved1: s.reserved1,
            reserved2: s.reserved2,
            reserved3: s.reserved3,
        },
    )
}

proof fn lemma_headers_fault(sections: Seq<OutputSection>, ids: Seq<OutputSectionId>, n: int)
    requires
        0 <= n <= ids.len(),
        section_headers(sections, ids.take(n)) is Err,
    ensures
        section_headers(sections, ids) == section_headers(sections, ids.take(n)),
    decreases ids.len() - n,
{
    if n < ids.len() {
        assert(ids.take(n + 1).drop_last() =~= ids.take(n));
        lemma_headers_fault(sections, ids, n + 1);
    } else {
        assert(ids.take(n) =~= ids);
    }
}

fn make_section_headers(sections: &Vec<OutputSection>, ids: &Vec<OutputSectionId>) -> (r: Result<
    Vec<Section64Header>,
    WriteError,
>)
    requires
        ids_known(ids@, sections@.len()),
    ensures
        match (r, section_headers(sections@, ids@)) {
            (Ok(h), Ok(m)) => headers_view(h@) == m,
            (Err(e), Err(f)) => e@ == f,
            _ => false,
        },
{
    let mut out: Vec<Section64Header> = Vec::new();
    let mut i: usize = 0;
    assert(headers_view(out@) =~= seq![]);
    while i < ids.len()
        invariant
            i <= ids@.len(),
            ids_known(ids@, sections@.len()),
            section_headers(sections@, ids@.take(i as int)) == Ok::<_, WriteFault>(
                headers_view(out@),
            ),
        decreases ids@.len() - i,
    {
        assert(ids@.take(i + 1).drop_last() =~= ids@.take(i as int));
        assert(ids@[i as int].0 < sections@.len());
        match make_section_header(&sections[ids[i].0 as usize]) {
            Ok(h) => {
                let ghost before = headers_view(out@);
                out.push(h);
                assert(headers_view(out@) =~= before.push(h@));
            },
            Err(e) => {
                proof {
                    lemma_headers_fault(sections@, ids@, i + 1);
                }
                return Err(e);
            },
        }
        i += 1;
    }
    assert(ids@.take(i as int) =~= ids@);
    Ok(out)
}

pub fn segment_command(layout: &Layout, segment_name: &str) -> (r: Result<Segment64, WriteError>)
    requires
        sections_listed(*layout),
    ensures
        match (r, segment_model(*layout, segment_name@)) {
            (Ok(s), Ok(m)) => s@ == m,
            (Err(e), Err(f)) => e@ == f,
            _ => false,
        },
{
    let i: usize = match layout.find_segment(segment_name) {
        Some(i) => i,
        None => {
            return Err(WriteError::MissingSegment(known_segment_name(segment_name)));
        },
    };
    let segment = &layout.segments[i];
    assert(ids_known(layout.segments@[i as int].sections@, layout.sections@.len()));
    let sections = match make_section_headers(&layout.sections, &segment.sections) {
        Ok(sections) => sections,
        Err(e) => {
            return Err(e);
        },
    };
    Ok(
        Segment64 {
            segname: name16(segment_name),
            vmaddr: segment.vm_addr,
            vmsize: segment.vm_size,
            fileoff: segment.file_off,
            filesize: segment.file_size,
            maxprot: segment.max_prot.bits(),
            initprot: segment.init_prot.bits(),
            flags: segment.flags,
            sections,
        },
    )
}

/// The commands for all segments.
pub open spec fn segment_models(layout: Layout, segments: Seq<OutputSegment>) -> Result<
    Seq<CommandModel>,
    WriteFault,
>
    decreases segments.len(),
{
    if segments.len() == 0 {
        Ok(seq![])
    } else {
        match segment_models(layout, segments.drop_last()) {
            Err(e) => Err(e),
            Ok(rest) => match segment_model(layout, segments.last().name@) {
                Err(e) => Err(e),
                Ok(s) => Ok(rest.push(CommandModel::Segment64(s))),
            },
        }
    }
}

proof fn lemma_segments_fault(layout: Layout, segments: Seq<OutputSegment>, n: int)
    requires
        0 <= n <= segments.len(),
        segment_models(layout, segments.take(n)) is Err,
    ensures
        segment_models(layout, segments) == segment_models(layout, segments.take(n)),
    decreases segments.len() - n,
{
    if n < segments.len() {
        assert(segments.take(n + 1).drop_last() =~= segments.take(n));
        lemma_segments_fault(layout, segments, n + 1);
    } else {
        assert(segments.take(n) =~= segments);
    }
}

fn push_segments(out: &mut Vec<LoadCommand>, layout: &Layout) -> (r: Result<(), WriteError>)
    requires
        sections_listed(*layout),
        old(out)@.len() == 0,
    ensures
        match (r, segment_models(*layout, layout.segments@)) {
            (Ok(_), Ok(m)) => commands_view(final(out)@) == m,
            (Err(e), Err(f)) => e@ == f,
            _ => false,
        },
{
    let ghost all = layout.segments@;
    let mut i: usize = 0;
    assert(commands_view(out@) =~= seq![]);
    while i < layout.segments.len()
        invariant
            i <= all.len(),
            all == layout.segments@,
            sections_listed(*layout),
            segment_models(*layout, all.take(i as int)) == Ok::<_, WriteFault>(
                commands_view(out@),
            ),
        decreases all.len() - i,
    {
        assert(all.take(i + 1).drop_last() =~= all.take(i as int));
        match segment_command(layout, layout.segments[i].name.as_str()) {
            Ok(s) => push_command(out, LoadCommand::Segment64(s)),
            Err(e) => {
                proof {
                    lemma_segments_fault(*layout, all, i + 1);
                }
                return Err(e);
            },
        }
        i += 1;
    }
    assert(all.take(i as int) =~= all);
    Ok(())
}

/// Where the program starts, counted from the file's start.
pub open spec fn main_command(entryoff: u64, stacksize: u64) -> CommandModel {
    CommandModel::Raw {
        cmd: LC_MAIN,
        cmdsize: 24,
        data: bytes::le64_bytes(entryoff) + bytes::le64_bytes(stacksize),
    }
}

pub fn raw_entry_point(entryoff: u64, stacksize: u64) -> (r: LoadCommand)
    ensures
        r@ == main_command(entryoff, stacksize),
{
    let mut data: Vec<u8> = Vec::new();
    push_u64(&mut data, entryoff);
    push_u64(&mut data, stacksize);
    assert(data@ =~= bytes::le64_bytes(entryoff) + bytes::le64_bytes(stacksize));
    LoadCommand::Raw { cmd: LC_MAIN, cmdsize: 24, data }
}

/// The bytes of a dynamic linker's path: an offset, the path and zeros.
pub open spec fn dylinker_data(path: Seq<char>) -> Seq<u8> {
    let b = text::utf8(path);
    bytes::le32_bytes(12) + b + bytes::zeros(reader::round8(13 + b.len() as int) - 12 - b.len())
}

/// The command that names the dynamic linker.
pub open spec fn dylinker_command(path: Seq<char>) -> CommandModel {
    CommandModel::Raw {
        cmd: LC_LOAD_DYLINKER,
        cmdsize: (8 + dylinker_data(path).len()) as u32,
        data: dylinker_data(path),
    }
}

pub fn raw_dylinker_command(path: &str) -> (r: LoadCommand)
    ensures
        r@ == dylinker_command(path@),
{
    let mut data: Vec<u8> = Vec::new();
    push_u32(&mut data, 12);
    push_bytes(&mut data, path.as_bytes());
    data.push(0);
    let pad: usize = (8 - data.len() % 8) % 8;
    push_zeros(&mut data, pad);
    assert(data@ =~= dylinker_data(path@)) by {
        let n = text::utf8(path@).len() as int;
        assert(reader::round8(13 + n) - 12 - n == 1 + pad);
    }
    let cmdsize: u32 = (data.len() as u64).wrapping_add(8) as u32;
    assert(data.len() == data@.len());
    proof {
        let n: u64 = data.len() as u64;
        let w: u64 = n.wrapping_add(8);
        if n > u64::MAX - 8 {
            assert(w as u32 == (n + 8) as u32) by (bit_vector)
                requires
                    n > 0xffff_ffff_ffff_fff7u64,
                    w == n - 0xffff_ffff_ffff_fff8u64,
            ;
        }
    }
    LoadCommand::Raw { cmd: LC_LOAD_DYLINKER, cmdsize, data }
}

/// The command that holds the image's identity.
pub open spec fn uuid_command(uuid: Seq<u8>) -> CommandModel {
    CommandModel::Raw { cmd: LC_UUID, cmdsize: 24, data: uuid }
}

pub fn raw_uuid_command(uuid: Vec<u8>) -> (r: LoadCommand)
    ensures
        r@ == uuid_command(uuid@),
{
    LoadCommand::Raw { cmd: LC_UUID, cmdsize: 24, data: uuid }
}

pub open spec fn source_version_command(version: u64) -> CommandModel {
    CommandModel::Raw { cmd: LC_SOURCE_VERSION, cmdsize: 16, data: bytes::le64_bytes(version) }
}

pub fn raw_source_version_command(version: u64) -> (r: LoadCommand)
    ensures
        r@ == source_version_command(version),
{
    let mut data: Vec<u8> = Vec::new();
    push_u64(&mut data, version);
    assert(data@ =~= bytes::le64_bytes(version));
    LoadCommand::Raw { cmd: LC_SOURCE_VERSION, cmdsize: 16, data }
}

/// A command that points at a table.
pub open spec fn linkedit_command(cmd: u32, dataoff: u32, datasize: u32) -> CommandModel {
    CommandModel::Raw {
        cmd,
        cmdsize: 16,
        data: bytes::le32_bytes(dataoff) + bytes::le32_bytes(datasize),
    }
}

pub fn raw_linkedit_command(cmd: u32, dataoff: u32, datasize: u32) -> (r: LoadCommand)
    ensures
        r@ == linkedit_command(cmd, dataoff, datasize),
{
    let mut data: Vec<u8> = Vec::new();
    push_u32(&mut data, dataoff);
    push_u32(&mut data, datasize);
    assert(data@ =~= bytes::le32_bytes(dataoff) + bytes::le32_bytes(datasize));
    LoadCommand::Raw { cmd, cmdsize: 16, data }
}

/// The platform that the image is for; macOS 11 unless told otherwise.
pub open spec fn build_version(opts: LinkOptions) -> CommandModel {
    let platform = match opts.platform_version {
        Some(p) => p,
        None => PlatformVersion { minos: writer::packed(11, 0, 0), sdk: writer::packed(11, 0, 0) },
    };
    CommandModel::BuildVersion {
        platform: PLATFORM_MACOS,
        minos: platform.minos,
        sdk: platform.sdk,
        tools: seq![BuildTool { tool: 3, version: writer::packed(0, 1, 0) }],
    }
}

pub fn build_version_command(opts: &LinkOptions) -> (r: BuildVersionCmd)
    ensures
        LoadCommand::BuildVersion(r)@ == build_version(*opts),
        r.tools@.len() == 1,
{
    let platform = match opts.platform_version {
        Some(p) => p,
        None => PlatformVersion { minos: pack_version(11, 0, 0), sdk: pack_version(11, 0, 0) },
    };
    let mut tools: Vec<BuildTool> = Vec::new();
    tools.push(BuildTool { tool: 3, version: pack_version(0, 1, 0) });
    assert(tools@ =~= seq![BuildTool { tool: 3, version: writer::packed(0, 1, 0) }]);
    BuildVersionCmd { platform: PLATFORM_MACOS, minos: platform.minos, sdk: platform.sdk, tools }
}

/// A state after each of the bytes was mixed into it.
pub open spec fn mixed(state: u64, b: Seq<u8>) -> u64
    decreases b.len(),
{
    if b.len() == 0 {
        state
    } else {
        (mixed(state, b.drop_last()) ^ (b.last() as u64)).wrapping_mul(0x100000001b3)
    }
}

fn mix(state: u64, b: &Vec<u8>) -> (r: u64)
    ensures
        r == mixed(state, b@),
{
    let mut s: u64 = state;
    let mut i: usize = 0;
    while i < b.len()
        invariant
            i <= b@.len(),
            s == mixed(state, b@.take(i as int)),
        decreases b@.len() - i,
    {
        assert(b@.take(i + 1).drop_last() =~= b@.take(i as int));
        s = (s ^ (b[i] as u64)).wrapping_mul(0x100000001b3);
        i += 1;
    }
    assert(b@.take(i as int) =~= b@);
    s
}

/// What the first half of an image's identity is made from: names and addresses.
pub open spec fn first_part(segments: Seq<OutputSegment>) -> Seq<u8>
    decreases segments.len(),
{
    if segments.len() == 0 {
        seq![]
    } else {
        let s = segments.last();
        first_part(segments.drop_last()) + text::utf8(s.name@) + bytes::le64_bytes(s.vm_addr)
            + bytes::le64_bytes(s.vm_size)
    }
}

pub open spec fn first_sections(sections: Seq<OutputSection>) -> Seq<u8>
    decreases sections.len(),
{
    if sections.len() == 0 {
        seq![]
    } else {
        let s = sections.last();
        first_sections(sections.drop_last()) + text::utf8(s.segment@) + text::utf8(s.name@)
            + bytes::le64_bytes(s.addr)
    }
}

/// What the second half is made from: places in the file, sizes and flags.
pub open spec fn second_part(segments: Seq<OutputSegment>) -> Seq<u8>
    decreases segments.len(),
{
    if segments.len() == 0 {
        seq![]
    } else {
        let s = segments.last();
        second_part(segments.drop_last()) + bytes::le64_bytes(s.file_off) + bytes::le64_bytes(
            s.file_size,
        ) + bytes::le32_bytes(s.flags)
    }
}

pub open spec fn second_sections(sections: Seq<OutputSection>) -> Seq<u8>
    decreases sections.len(),
{
    if sections.len() == 0 {
        seq![]
    } else {
        let s = sections.last();
        second_sections(sections.drop_last()) + bytes::le64_bytes(s.size) + bytes::le64_bytes(
            s.file_off,
        ) + bytes::le32_bytes(s.flags)
    }
}

pub open spec fn kind_byte(kind: OutputKind) -> u8 {
    match kind {
        OutputKind::Executable => 1,
        OutputKind::Dylib => 2,
    }
}

/// An image's identity: two numbers, highest byte first, with the marks of a
/// random UUID.
pub open spec fn uuid(layout: Layout, kind: OutputKind) -> Seq<u8> {
    let lo = mixed(
        0xcbf29ce484222325,
        seq![kind_byte(kind)] + first_part(layout.segments@) + first_sections(layout.sections@),
    );
    let hi = mixed(
        0x84222325cbf29ce4,
        second_part(layout.segments@) + second_sections(layout.sections@),
    );
    let raw = bytes::le64_bytes(lo).reverse() + bytes::le64_bytes(hi).reverse();
    raw.update(6, (raw[6] & 0x0f) | 0x40).update(8, (raw[8] & 0x3f) | 0x80)
}

fn push_high_first(out: &mut Vec<u8>, v: u64)
    ensures
        final(out)@ == old(out)@ + bytes::le64_bytes(v).reverse(),
{
    let ghost before = out@;
    let mut low: Vec<u8> = Vec::new();
    push_u64(&mut low, v);
    assert(low@ =~= bytes::le64_bytes(v));
    let mut i: usize = 0;
    while i < 8
        invariant
            i <= 8,
            low@.len() == 8,
            out@ == before + low@.reverse().take(i as int),
        decreases 8 - i,
    {
        out.push(low[7 - i]);
        assert(out@ =~= before + low@.reverse().take(i + 1));
        i += 1;
    }
    assert(low@.reverse().take(8) =~= low@.reverse());
}

pub fn stable_uuid(layout: &Layout, kind: OutputKind) -> (r: Vec<u8>)
    ensures
        r@ == uuid(*layout, kind),
        r@.len() == 16,
{
    let mut first: Vec<u8> = Vec::new();
    let mut second: Vec<u8> = Vec::new();
    first.push(
        match kind {
            OutputKind::Executable => 1,
            OutputKind::Dylib => 2,
        },
    );
    let ghost head = seq![kind_byte(kind)];
    let mut i: usize = 0;
    assert(first@ =~= head + first_part(layout.segments@.take(0)));
    assert(second@ =~= second_part(layout.segments@.take(0)));
    while i < layout.segments.len()
        invariant
            i <= layout.segments@.len(),
            first@ == head + first_part(layout.segments@.take(i as int)),
            second@ == second_part(layout.segments@.take(i as int)),
        decreases layout.segments@.len() - i,
    {
        let segment = &layout.segments[i];
        let ghost all = layout.segments@;
        assert(all.take(i + 1).drop_last() =~= all.take(i as int));
        push_bytes(&mut first, segment.name.as_str().as_bytes());
        push_u64(&mut first, segment.vm_addr);
        push_u64(&mut first, segment.vm_size);
        push_u64(&mut second, segment.file_off);
        push_u64(&mut second, segment.file_size);
        push_u32(&mut second, segment.flags);
        assert(first@ =~= head + first_part(all.take(i + 1)));
        assert(second@ =~= second_part(all.take(i + 1)));
        i += 1;
    }
    assert(layout.segments@.take(i as int) =~= layout.segments@);
    let ghost f0 = first@;
    let ghost s0 = second@;
    let mut k: usize = 0;
    assert(first@ =~= f0 + first_sections(layout.sections@.take(0)));
    assert(second@ =~= s0 + second_sections(layout.sections@.take(0)));
    while k < layout.sections.len()
        invariant
            k <= layout.sections@.len(),
            first@ == f0 + first_sections(layout.sections@.take(k as int)),
            second@ == s0 + second_sections(layout.sections@.take(k as int)),
        decreases layout.sections@.len() - k,
    {
        let section = &layout.sections[k];
        let ghost all = layout.sections@;
        assert(all.take(k + 1).drop_last() =~= all.take(k as int));
        push_bytes(&mut first, section.segment.as_str().as_bytes());
        push_bytes(&mut first, section.name.as_str().as_bytes());
        push_u64(&mut first, section.addr);
        push_u64(&mut second, section.size);
        push_u64(&mut second, section.file_off);
        push_u32(&mut second, section.flags);
        assert(first@ =~= f0 + first_sections(all.take(k + 1)));
        assert(second@ =~= s0 + second_sections(all.take(k + 1)));
        k += 1;
    }
    assert(layout.sections@.take(k as int) =~= layout.sections@);
    let lo: u64 = mix(0xcbf29ce484222325, &first);
    let hi: u64 = mix(0x84222325cbf29ce4, &second);
    let mut out: Vec<u8> = Vec::new();
    push_high_first(&mut out, lo);
    push_high_first(&mut out, hi);
    let ghost raw = out@;
    assert(raw =~= bytes::le64_bytes(lo).reverse() + bytes::le64_bytes(hi).reverse());
    assert(raw.len() == 16);
    let b6: u8 = (out[6] & 0x0f) | 0x40;
    let b8: u8 = (out[8] & 0x3f) | 0x80;
    out.set(6, b6);
    out.set(8, b8);
    out
}

/// The header's flags.
pub open spec fn flags(layout: Layout, kind: OutputKind) -> u32 {
    let base = match kind {
        OutputKind::Executable => MH_DYLDLINK | MH_NOUNDEFS | MH_TWOLEVEL | MH_PIE,
        OutputKind::Dylib => MH_DYLDLINK | MH_TWOLEVEL | MH_NOUNDEFS,
    };
    if layout::section_at(layout.sections@, "__DATA"@, "__thread_vars"@) is Some {
        base | MH_HAS_TLV_DESCRIPTORS
    } else {
        base
    }
}

pub fn header_flags(layout: &Layout, kind: OutputKind) -> (r: u32)
    ensures
        r == flags(*layout, kind),
{
    let base: u32 = match kind {
        OutputKind::Executable => MH_DYLDLINK | MH_NOUNDEFS | MH_TWOLEVEL | MH_PIE,
        OutputKind::Dylib => MH_DYLDLINK | MH_TWOLEVEL | MH_NOUNDEFS,
    };
    if layout.find_section("__DATA", "__thread_vars").is_some() {
        base | MH_HAS_TLV_DESCRIPTORS
    } else {
        base
    }
}

/// The name under which a dylib is to be found.
pub open spec fn install_name(opts: LinkOptions) -> Seq<char> {
    match opts.install_name {
        Some(name) => name@,
        None => match opts.output {
            Some(output) => match path::file_name(output@) {
                Some(name) => "@rpath/"@ + name,
                None => output@,
            },
            None => "@rpath/a.out.dylib"@,
        },
    }
}

pub fn dylib_install_name(opts: &LinkOptions) -> (r: String)
    ensures
        r@ == install_name(*opts),
{
    if let Some(name) = &opts.install_name {
        return name.clone();
    }
    if let Some(path) = &opts.output {
        if let Some(name) = find_file_name(path.as_str()) {
            let mut s = "@rpath/".to_owned();
            s.append(name.as_str());
            return s;
        }
        return path.clone();
    }
    "@rpath/a.out.dylib".to_owned()
}

pub open spec fn version_or_one(version: Option<u32>) -> u32 {
    match version {
        Some(v) => v,
        None => writer::packed(1, 0, 0),
    }
}

pub fn dylib_current_version(opts: &LinkOptions) -> (r: u32)
    ensures
        r == version_or_one(opts.current_version),
{
    match opts.current_version {
        Some(v) => v,
        None => pack_version(1, 0, 0),
    }
}

pub fn dylib_compatibility_version(opts: &LinkOptions) -> (r: u32)
    ensures
        r == version_or_one(opts.compatibility_version),
{
    match opts.compatibility_version {
        Some(v) => v,
        None => pack_version(1, 0, 0),
    }
}

/// Where a program starts that names no entry: at its code, or at its text segment.
pub open spec fn text_start(layout: Layout) -> Result<u64, WriteFault> {
    match layout::section_at(layout.sections@, "__TEXT"@, "__text"@) {
        Some(i) => Ok(layout.sections@[i].file_off),
        None => match layout::segment_at(layout.segments@, "__TEXT"@) {
            Some(i) => Ok(layout.segments@[i].file_off),
            None => Err(WriteFault::MissingSegment("__TEXT"@)),
        },
    }
}

pub fn entryoff(layout: &Layout) -> (r: Result<u64, WriteError>)
    ensures
        writer::same_result(r, text_start(*layout)),
{
    if let Some(i) = layout.find_section("__TEXT", "__text") {
        return Ok(layout.sections[i].file_off);
    }
    match layout.segment("__TEXT") {
        Some(segment) => Ok(segment.file_off),
        None => Err(WriteError::MissingSegment("__TEXT")),
    }
}

/// Where a program starts in the file.
pub open spec fn entry_offset(layout: Layout, entry: Option<EntryPoint>) -> Result<u64, WriteFault> {
    match entry {
        Some(e) => match layout::atom_file_offset_in(layout.sections@, e.atom) {
            Some(at) => Ok(at.wrapping_add(e.atom_value)),
            None => Err(WriteFault::EntryAtomMissing(e.atom)),
        },
        None => text_start(layout),
    }
}

pub fn resolve_entryoff(layout: &Layout, entry_point: Option<EntryPoint>) -> (r: Result<
    u64,
    WriteError,
>)
    ensures
        writer::same_result(r, entry_offset(*layout, entry_point)),
{
    match entry_point {
        Some(e) => match layout.atom_file_offset(e.atom) {
            Some(at) => Ok(at.wrapping_add(e.atom_value)),
            None => Err(WriteError::EntryAtomMissing(e.atom)),
        },
        None => entryoff(layout),
    }
}

/// The command for a dylib that the image needs.
pub open spec fn dependency_command(d: DependencyModel) -> CommandModel {
    CommandModel::Dylib {
        cmd: d.kind.spec_cmd(),
        name: d.install_name,
        timestamp: 2,
        current_version: d.current_version,
        compatibility_version: d.compatibility_version,
    }
}

pub open spec fn dependency_commands(deps: Seq<DependencyModel>) -> Seq<CommandModel> {
    deps.map_values(|d: DependencyModel| dependency_command(d))
}

pub open spec fn rpath_commands(paths: Seq<Seq<char>>) -> Seq<CommandModel> {
    paths.map_values(|p: Seq<char>| CommandModel::Rpath { path: p })
}

/// The identity of a dylib, if the image is one.
pub open spec fn id_commands(kind: OutputKind, opts: LinkOptions) -> Seq<CommandModel> {
    match kind {
        OutputKind::Executable => seq![],
        OutputKind::Dylib => seq![
            CommandModel::Dylib {
                cmd: LC_ID_DYLIB,
                name: install_name(opts),
                timestamp: 2,
                current_version: version_or_one(opts.current_version),
                compatibility_version: version_or_one(opts.compatibility_version),
            },
        ],
    }
}

/// The tables for dyld and the debugger.
pub open spec fn table_commands(linkedit: LinkEditModel) -> Seq<CommandModel> {
    seq![
        CommandModel::DyldInfoOnly(linkedit.dyld_info),
        CommandModel::Symtab(linkedit.symtab),
        CommandModel::Dysymtab(linkedit.dysymtab),
    ]
}

pub open spec fn uuid_commands(layout: Layout, kind: OutputKind, opts: LinkOptions) -> Seq<
    CommandModel,
> {
    if opts.emit_uuid {
        seq![uuid_command(uuid(layout, kind))]
    } else {
        seq![]
    }
}

pub open spec fn dylinker_commands(kind: OutputKind) -> Seq<CommandModel> {
    match kind {
        OutputKind::Executable => seq![dylinker_command("/usr/lib/dyld"@)],
        OutputKind::Dylib => seq![],
    }
}

pub open spec fn entry_commands(layout: Layout, kind: OutputKind, entry: Option<EntryPoint>) -> Result<
    Seq<CommandModel>,
    WriteFault,
> {
    match kind {
        OutputKind::Executable => match entry_offset(layout, entry) {
            Ok(at) => Ok(seq![main_command(at, 0)]),
            Err(e) => Err(e),
        },
        OutputKind::Dylib => Ok(seq![]),
    }
}

/// The commands for the tables at the end of the file.
pub open spec fn tail_commands(linkedit: LinkEditModel) -> Seq<CommandModel> {
    (match linkedit.loh {
        Some(loh) => seq![
            linkedit_command(LC_LINKER_OPTIMIZATION_HINT, loh.dataoff, loh.datasize),
        ],
        None => seq![],
    }) + seq![
        linkedit_command(
            LC_FUNCTION_STARTS,
            linkedit.function_starts.dataoff,
            linkedit.function_starts.datasize,
        ),
        linkedit_command(
            LC_DATA_IN_CODE,
            linkedit.data_in_code.dataoff,
            linkedit.data_in_code.datasize,
        ),
        match linkedit.code_signature {
            Some(sig) => linkedit_command(LC_CODE_SIGNATURE, sig.dataoff, sig.datasize),
            None => linkedit_command(LC_CODE_SIGNATURE, 0, 0),
        },
    ]
}

/// The commands between the segments and the dylibs.
pub open spec fn middle_commands(
    layout: Layout,
    kind: OutputKind,
    opts: LinkOptions,
    main: Seq<CommandModel>,
    linkedit: LinkEditModel,
) -> Seq<CommandModel> {
    id_commands(kind, opts) + table_commands(linkedit) + dylinker_commands(kind) + uuid_commands(
        layout,
        kind,
        opts,
    ) + seq![build_version(opts), source_version_command(0)] + main
}

/// The load commands of an image.
pub open spec fn commands(
    layout: Layout,
    kind: OutputKind,
    opts: LinkOptions,
    entry: Option<EntryPoint>,
    dylibs: Seq<DependencyModel>,
    linkedit: LinkEditModel,
) -> Result<Seq<CommandModel>, WriteFault> {
    match segment_models(layout, layout.segments@) {
        Err(e) => Err(e),
        Ok(segments) => match entry_commands(layout, kind, entry) {
            Err(e) => Err(e),
            Ok(main) => Ok(
                segments + middle_commands(layout, kind, opts, main, linkedit)
                    + dependency_commands(dylibs) + rpath_commands(text::texts(opts.rpaths@))
                    + tail_commands(linkedit),
            ),
        },
    }
}

fn push_dependencies(out: &mut Vec<LoadCommand>, dylibs: &[DylibDependency])
    ensures
        commands_view(final(out)@) == commands_view(old(out)@) + dependency_commands(
            dylib::dependencies_view(dylibs@),
        ),
{
    let ghost before = commands_view(out@);
    let ghost all = dependency_commands(dylib::dependencies_view(dylibs@));
    let mut i: usize = 0;
    assert(commands_view(out@) =~= before + all.take(0));
    while i < dylibs.len()
        invariant
            i <= dylibs@.len(),
            all == dependency_commands(dylib::dependencies_view(dylibs@)),
            commands_view(out@) == before + all.take(i as int),
        decreases dylibs@.len() - i,
    {
        let d = &dylibs[i];
        let c = LoadCommand::Dylib(
            DylibCmd {
                cmd: d.kind.load_cmd(),
                name: d.install_name.clone(),
                timestamp: 2,
                current_version: d.current_version,
                compatibility_version: d.compatibility_version,
            },
        );
        assert(c@ =~= all[i as int]);
        push_command(out, c);
        assert(commands_view(out@) =~= before + all.take(i + 1));
        i += 1;
    }
    assert(all.take(i as int) =~= all);
}

fn push_rpaths(out: &mut Vec<LoadCommand>, paths: &Vec<String>)
    ensures
        commands_view(final(out)@) == commands_view(old(out)@) + rpath_commands(
            text::texts(paths@),
        ),
{
    let ghost before = commands_view(out@);
    let ghost all = rpath_commands(text::texts(paths@));
    let mut i: usize = 0;
    assert(commands_view(out@) =~= before + all.take(0));
    while i < paths.len()
        invariant
            i <= paths@.len(),
            all == rpath_commands(text::texts(paths@)),
            commands_view(out@) == before + all.take(i as int),
        decreases paths@.len() - i,
    {
        let c = LoadCommand::Rpath(RpathCmd { path: paths[i].clone() });
        assert(c@ =~= all[i as int]);
        push_command(out, c);
        assert(commands_view(out@) =~= before + all.take(i + 1));
        i += 1;
    }
    assert(all.take(i as int) =~= all);
}

fn push_tail(out: &mut Vec<LoadCommand>, linkedit: &LinkEditPlan)
    ensures
        commands_view(final(out)@) == commands_view(old(out)@) + tail_commands(linkedit@),
{
    let ghost before = commands_view(out@);
    if let Some(loh) = linkedit.loh {
        push_command(
            out,
            raw_linkedit_command(LC_LINKER_OPTIMIZATION_HINT, loh.dataoff, loh.datasize),
        );
    }
    push_command(
        out,
        raw_linkedit_command(
            LC_FUNCTION_STARTS,
            linkedit.function_starts.dataoff,
            linkedit.function_starts.datasize,
        ),
    );
    push_command(
        out,
        raw_linkedit_command(
            LC_DATA_IN_CODE,
            linkedit.data_in_code.dataoff,
            linkedit.data_in_code.datasize,
        ),
    );
    match linkedit.code_signature {
        Some(sig) => push_command(
            out,
            raw_linkedit_command(LC_CODE_SIGNATURE, sig.dataoff, sig.datasize),
        ),
        None => push_command(out, raw_linkedit_command(LC_CODE_SIGNATURE, 0, 0)),
    }
    assert(commands_view(out@) =~= before + tail_commands(linkedit@));
}

fn push_middle(
    out: &mut Vec<LoadCommand>,
    layout: &Layout,
    kind: OutputKind,
    opts: &LinkOptions,
    entry_point: Option<EntryPoint>,
    linkedit: &LinkEditPlan,
) -> (r: Result<(), WriteError>)
    ensures
        match (r, entry_commands(*layout, kind, entry_point)) {
            (Ok(_), Ok(main)) => commands_view(final(out)@) == commands_view(old(out)@)
                + middle_commands(*layout, kind, *opts, main, linkedit@),
            (Err(e), Err(f)) => e@ == f,
            _ => false,
        },
{
    let ghost before = commands_view(out@);
    if kind == OutputKind::Dylib {
        push_command(
            out,
            LoadCommand::Dylib(
                DylibCmd {
                    cmd: LC_ID_DYLIB,
                    name: dylib_install_name(opts),
                    timestamp: 2,
                    current_version: dylib_current_version(opts),
                    compatibility_version: dylib_compatibility_version(opts),
                },
            ),
        );
    }
    assert(commands_view(out@) =~= before + id_commands(kind, *opts));
    push_command(out, LoadCommand::DyldInfoOnly(linkedit.dyld_info));
    push_command(out, LoadCommand::Symtab(linkedit.symtab));
    push_command(out, LoadCommand::Dysymtab(linkedit.dysymtab));
    let ghost tables = table_commands(linkedit@);
    assert(commands_view(out@) =~= before + (id_commands(kind, *opts) + tables));
    if kind == OutputKind::Executable {
        push_command(out, raw_dylinker_command("/usr/lib/dyld"));
    }
    let ghost linker = dylinker_commands(kind);
    assert(commands_view(out@) =~= before + (id_commands(kind, *opts) + tables + linker));
    if opts.emit_uuid {
        push_command(out, raw_uuid_command(stable_uuid(layout, kind)));
    }
    let ghost uuids = uuid_commands(*layout, kind, *opts);
    assert(commands_view(out@) =~= before + (id_commands(kind, *opts) + tables + linker + uuids));
    push_command(out, LoadCommand::BuildVersion(build_version_command(opts)));
    push_command(out, raw_source_version_command(0));
    let ghost versions = seq![build_version(*opts), source_version_command(0)];
    assert(commands_view(out@) =~= before + (id_commands(kind, *opts) + tables + linker + uuids
        + versions));
    if kind == OutputKind::Executable {
        match resolve_entryoff(layout, entry_point) {
            Ok(at) => push_command(out, raw_entry_point(at, 0)),
            Err(e) => {
                return Err(e);
            },
        }
    }
    let ghost main = entry_commands(*layout, kind, entry_point)->Ok_0;
    assert(commands_view(out@) =~= before + middle_commands(*layout, kind, *opts, main, linkedit@));
    Ok(())
}

pub fn build_commands(
    layout: &Layout,
    kind: OutputKind,
    opts: &LinkOptions,
    entry_point: Option<EntryPoint>,
    dylibs: &[DylibDependency],
    linkedit: &LinkEditPlan,
) -> (r: Result<Vec<LoadCommand>, WriteError>)
    requires
        sections_listed(*layout),
    ensures
        match (
            r,
            commands(
                *layout,
                kind,
                *opts,
                entry_point,
                dylib::dependencies_view(dylibs@),
                linkedit@,
            ),
        ) {
            (Ok(c), Ok(m)) => commands_view(c@) == m,
            (Err(e), Err(f)) => e@ == f,
            _ => false,
        },
{
    let mut out: Vec<LoadCommand> = Vec::new();
    if let Err(e) = push_segments(&mut out, layout) {
        return Err(e);
    }
    let ghost segments = commands_view(out@);
    if let Err(e) = push_middle(&mut out, layout, kind, opts, entry_point, linkedit) {
        return Err(e);
    }
    let ghost main = entry_commands(*layout, kind, entry_point)->Ok_0;
    push_dependencies(&mut out, dylibs);
    push_rpaths(&mut out, &opts.rpaths);
    push_tail(&mut out, linkedit);
    assert(commands_view(out@) =~= commands(
        *layout,
        kind,
        *opts,
        entry_point,
        dylib::dependencies_view(dylibs@),
        linkedit@,
    )->Ok_0);
    Ok(out)
}

pub(crate) fn sum_sizes(commands: &Vec<LoadCommand>) -> (r: u32)
    requires
        sizes(commands_view(commands@)) <= u32::MAX,
    ensures
        r == sizes(commands_view(commands@)),
{
    let ghost all = commands_view(commands@);
    let mut total: u32 = 0;
    let mut i: usize = 0;
    while i < commands.len()
        invariant
            i <= commands@.len(),
            all == commands_view(commands@),
            sizes(all) <= u32::MAX,
            total == sizes(all.take(i as int)),
        decreases commands@.len() - i,
    {
        proof {
            assert(all.take(i + 1).drop_last() =~= all.take(i as int));
            lemma_size(commands@[i as int]);
            assert(all[i as int] == commands@[i as int]@);
            lemma_sizes_prefix(all, i + 1);
            lemma_sizes_nonneg(all.take(i as int));
        }
        total += commands[i].cmdsize();
        i += 1;
    }
    assert(all.take(i as int) =~= all);
    total
}

proof fn lemma_sizes_nonneg(s: Seq<CommandModel>)
    ensures
        sizes(s) >= 0,
    decreases s.len(),
{
    if s.len() > 0 {
        lemma_sizes_nonneg(s.drop_last());
    }
}

pub(crate) proof fn lemma_sizes_prefix(s: Seq<CommandModel>, n: int)
    requires
        0 <= n <= s.len(),
    ensures
        sizes(s.take(n)) <= sizes(s),
    decreases s.len() - n,
{
    if n < s.len() {
        assert(s.take(n + 1).drop_last() =~= s.take(n));
        lemma_sizes_prefix(s, n + 1);
    } else {
        assert(s.take(n) =~= s);
    }
}

/// No command is larger than all of them together.
pub proof fn lemma_one_size(s: Seq<CommandModel>, i: int)
    requires
        0 <= i < s.len(),
    ensures
        s[i].size() <= sizes(s),
{
    assert(s.take(i + 1).drop_last() =~= s.take(i));
    lemma_sizes_nonneg(s.take(i));
    lemma_sizes_prefix(s, i + 1);
}

/// The commands fit the header's field for their size.
pub open spec fn commands_small(r: Result<Seq<CommandModel>, WriteFault>) -> bool {
    match r {
        Ok(c) => sizes(c) <= u32::MAX,
        Err(_) => true,
    }
}

pub fn exact_sizeofcmds(
    layout: &Layout,
    kind: OutputKind,
    opts: &LinkOptions,
    dylibs: &[DylibDependency],
    linkedit: &LinkEditPlan,
) -> (r: Result<u32, WriteError>)
    requires
        sections_listed(*layout),
        commands_small(
            commands(
                *layout,
                kind,
                *opts,
                None,
                dylib::dependencies_view(dylibs@),
                linkedit@,
            ),
        ),
    ensures
        match (
            r,
            commands(
                *layout,
                kind,
                *opts,
                None,
                dylib::dependencies_view(dylibs@),
                linkedit@,
            ),
        ) {
            (Ok(n), Ok(m)) => n == sizes(m),
            (Err(e), Err(f)) => e@ == f,
            _ => false,
        },
{
    match build_commands(layout, kind, opts, None, dylibs, linkedit) {
        Ok(commands) => Ok(sum_sizes(&commands)),
        Err(e) => Err(e),
    }
}

/// The sizes of the segment commands.
pub open spec fn segment_sizes(segments: Seq<OutputSegment>) -> int
    decreases segments.len(),
{
    if segments.len() == 0 {
        0
    } else {
        segment_sizes(segments.drop_last()) + 72 + 80 * segments.last().sections@.len() as int
    }
}

pub open spec fn rpath_sizes(paths: Seq<Seq<char>>) -> int
    decreases paths.len(),
{
    if paths.len() == 0 {
        0
    } else {
        rpath_sizes(paths.drop_last()) + rpath_size(paths.last())
    }
}

pub open spec fn dependency_sizes(deps: Seq<DependencyModel>) -> int
    decreases deps.len(),
{
    if deps.len() == 0 {
        0
    } else {
        dependency_sizes(deps.drop_last()) + dylib_size(deps.last().install_name)
    }
}

/// The size of the header and of the commands that an image will have.
pub open spec fn header_estimate(
    layout: Layout,
    kind: OutputKind,
    opts: LinkOptions,
    dylibs: Seq<DependencyModel>,
    linkedit: LinkEditModel,
) -> int {
    HEADER_SIZE + segment_sizes(layout.segments@) + build_version(opts).size() + (
    if opts.emit_uuid {
        24int
    } else {
        0
    }) + (match kind {
        OutputKind::Executable => dylinker_command("/usr/lib/dyld"@).size() + 24 + 16,
        OutputKind::Dylib => dylib_size(install_name(opts)) + 16,
    }) + rpath_sizes(text::texts(opts.rpaths@)) + dependency_sizes(dylibs) + 24 + 80 + 48 + (
    if linkedit.loh is Some {
        16int
    } else {
        0
    }) + 48
}

fn add_segment_sizes(layout: &Layout) -> (r: u64)
    requires
        segment_sizes(layout.segments@) <= u32::MAX,
    ensures
        r == segment_sizes(layout.segments@),
{
    let ghost all = layout.segments@;
    let mut size: u64 = 0;
    let mut i: usize = 0;
    while i < layout.segments.len()
        invariant
            i <= all.len(),
            all == layout.segments@,
            segment_sizes(all) <= u32::MAX,
            size == segment_sizes(all.take(i as int)),
            size <= u32::MAX,
        decreases all.len() - i,
    {
        proof {
            assert(all.take(i + 1).drop_last() =~= all.take(i as int));
            lemma_segment_sizes_prefix(all, i + 1);
        }
        let n: u64 = layout.segments[i].sections.len() as u64;
        size = size + 72 + 80 * n;
        i += 1;
    }
    assert(all.take(i as int) =~= all);
    size
}

proof fn lemma_segment_sizes_prefix(s: Seq<OutputSegment>, n: int)
    requires
        0 <= n <= s.len(),
    ensures
        0 <= segment_sizes(s.take(n)) <= segment_sizes(s),
    decreases s.len() - n,
{
    lemma_segment_sizes_nonneg(s.take(n));
    if n < s.len() {
        assert(s.take(n + 1).drop_last() =~= s.take(n));
        lemma_segment_sizes_prefix(s, n + 1);
    } else {
        assert(s.take(n) =~= s);
    }
}

proof fn lemma_segment_sizes_nonneg(s: Seq<OutputSegment>)
    ensures
        segment_sizes(s) >= 0,
    decreases s.len(),
{
    if s.len() > 0 {
        lemma_segment_sizes_nonneg(s.drop_last());
    }
}

fn add_rpath_sizes(paths: &Vec<String>) -> (r: u64)
    requires
        rpath_sizes(text::texts(paths@)) <= u32::MAX,
    ensures
        r == rpath_sizes(text::texts(paths@)),
{
    let ghost all = text::texts(paths@);
    let mut size: u64 = 0;
    let mut i: usize = 0;
    while i < paths.len()
        invariant
            i <= all.len(),
            all == text::texts(paths@),
            rpath_sizes(all) <= u32::MAX,
            size == rpath_sizes(all.take(i as int)),
            size <= u32::MAX,
        decreases all.len() - i,
    {
        proof {
            assert(all.take(i + 1).drop_last() =~= all.take(i as int));
            lemma_rpath_sizes_prefix(all, i + 1);
            assert(all[i as int] == paths@[i as int]@);
        }
        let c = RpathCmd { path: paths[i].clone() };
        size = size + c.wire_size() as u64;
        i += 1;
    }
    assert(all.take(i as int) =~= all);
    size
}

proof fn lemma_rpath_sizes_prefix(s: Seq<Seq<char>>, n: int)
    requires
        0 <= n <= s.len(),
    ensures
        0 <= rpath_sizes(s.take(n)) <= rpath_sizes(s),
    decreases s.len() - n,
{
    lemma_rpath_sizes_nonneg(s.take(n));
    if n < s.len() {
        assert(s.take(n + 1).drop_last() =~= s.take(n));
        lemma_rpath_sizes_prefix(s, n + 1);
    } else {
        assert(s.take(n) =~= s);
    }
}

proof fn lemma_rpath_sizes_nonneg(s: Seq<Seq<char>>)
    ensures
        rpath_sizes(s) >= 0,
    decreases s.len(),
{
    if s.len() > 0 {
        lemma_rpath_sizes_nonneg(s.drop_last());
    }
}

fn add_dependency_sizes(dylibs: &[DylibDependency]) -> (r: u64)
    requires
        dependency_sizes(dylib::dependencies_view(dylibs@)) <= u32::MAX,
    ensures
        r == dependency_sizes(dylib::dependencies_view(dylibs@)),
{
    let ghost all = dylib::dependencies_view(dylibs@);
    let mut size: u64 = 0;
    let mut i: usize = 0;
    while i < dylibs.len()
        invariant
            i <= all.len(),
            all == dylib::dependencies_view(dylibs@),
            dependency_sizes(all) <= u32::MAX,
            size == dependency_sizes(all.take(i as int)),
            size <= u32::MAX,
        decreases all.len() - i,
    {
        proof {
            assert(all.take(i + 1).drop_last() =~= all.take(i as int));
            lemma_dependency_sizes_prefix(all, i + 1);
            assert(all[i as int] == dylibs@[i as int]@);
        }
        let d = &dylibs[i];
        let c = DylibCmd {
            cmd: d.kind.load_cmd(),
            name: d.install_name.clone(),
            timestamp: 2,
            current_version: d.current_version,
            compatibility_version: d.compatibility_version,
        };
        size = size + c.wire_size() as u64;
        i += 1;
    }
    assert(all.take(i as int) =~= all);
    size
}

proof fn lemma_dependency_sizes_prefix(s: Seq<DependencyModel>, n: int)
    requires
        0 <= n <= s.len(),
    ensures
        0 <= dependency_sizes(s.take(n)) <= dependency_sizes(s),
    decreases s.len() - n,
{
    lemma_dependency_sizes_nonneg(s.take(n));
    if n < s.len() {
        assert(s.take(n + 1).drop_last() =~= s.take(n));
        lemma_dependency_sizes_prefix(s, n + 1);
    } else {
        assert(s.take(n) =~= s);
    }
}

proof fn lemma_dependency_sizes_nonneg(s: Seq<DependencyModel>)
    ensures
        dependency_sizes(s) >= 0,
    decreases s.len(),
{
    if s.len() > 0 {
        lemma_dependency_sizes_nonneg(s.drop_last());
    }
}

pub fn estimate_header_size(
    layout: &Layout,
    kind: OutputKind,
    opts: &LinkOptions,
    dylibs: &[DylibDependency],
    linkedit: &LinkEditPlan,
) -> (r: u64)
    requires
        header_estimate(
            *layout,
            kind,
            *opts,
            dylib::dependencies_view(dylibs@),
            linkedit@,
        ) <= u32::MAX,
    ensures
        r == header_estimate(
            *layout,
            kind,
            *opts,
            dylib::dependencies_view(dylibs@),
            linkedit@,
        ),
{
    proof {
        lemma_segment_sizes_nonneg(layout.segments@);
        lemma_rpath_sizes_nonneg(text::texts(opts.rpaths@));
        lemma_dependency_sizes_nonneg(dylib::dependencies_view(dylibs@));
    }
    let mut size: u64 = HEADER_SIZE as u64;
    size = size + add_segment_sizes(layout);
    size = size + build_version_command(opts).wire_size() as u64;
    if opts.emit_uuid {
        size = size + 24;
    }
    match kind {
        OutputKind::Executable => {
            let linker = raw_dylinker_command("/usr/lib/dyld");
            proof {
                lemma_size(linker);
            }
            size = size + linker.cmdsize() as u64 + 24;
        },
        OutputKind::Dylib => {
            let id = DylibCmd {
                cmd: LC_ID_DYLIB,
                name: dylib_install_name(opts),
                timestamp: 2,
                current_version: dylib_current_version(opts),
                compatibility_version: dylib_compatibility_version(opts),
            };
            size = size + id.wire_size() as u64;
        },
    }
    let source = raw_source_version_command(0);
    proof {
        lemma_size(source);
    }
    size = size + source.cmdsize() as u64;
    size = size + add_rpath_sizes(&opts.rpaths);
    size = size + add_dependency_sizes(dylibs);
    size = size + SymtabCmd::WIRE_SIZE as u64;
    size = size + DysymtabCmd::WIRE_SIZE as u64;
    size = size + 48;
    if linkedit.loh.is_some() {
        size = size + 16;
    }
    size + DyldInfoCmd::WIRE_SIZE as u64
}

proof fn lemma_sizes_concat(a: Seq<CommandModel>, b: Seq<CommandModel>)
    ensures
        sizes(a + b) == sizes(a) + sizes(b),
    decreases b.len(),
{
    if b.len() == 0 {
        assert(a + b =~= a);
    } else {
        assert((a + b).drop_last() =~= a + b.drop_last());
        lemma_sizes_concat(a, b.drop_last());
    }
}

proof fn lemma_sizes_one(c: CommandModel)
    ensures
        sizes(seq![c]) == c.size(),
{
    reveal_with_fuel(sizes, 2);
    assert(seq![c].drop_last() =~= seq![]);
}

proof fn lemma_header_count(sections: Seq<OutputSection>, ids: Seq<OutputSectionId>)
    requires
        section_headers(sections, ids) is Ok,
    ensures
        section_headers(sections, ids)->Ok_0.len() == ids.len(),
    decreases ids.len(),
{
    if ids.len() > 0 {
        lemma_header_count(sections, ids.drop_last());
    }
}

/// No two segments have the same name.
pub open spec fn names_differ(segments: Seq<OutputSegment>) -> bool {
    forall|i: int, j: int|
        0 <= i < j < segments.len() ==> (#[trigger] segments[i]).name@ != (
        #[trigger] segments[j]).name@
}

proof fn lemma_segment_model_sizes(layout: Layout, n: int)
    requires
        0 <= n <= layout.segments@.len(),
        names_differ(layout.segments@),
        segment_models(layout, layout.segments@.take(n)) is Ok,
    ensures
        sizes(segment_models(layout, layout.segments@.take(n))->Ok_0) == segment_sizes(
            layout.segments@.take(n),
        ),
    decreases n,
{
    let all = layout.segments@;
    if n > 0 {
        let part = all.take(n);
        assert(part.drop_last() =~= all.take(n - 1));
        lemma_segment_model_sizes(layout, n - 1);
        let name = all[n - 1].name@;
        layout::lemma_segment_at(all, name);
        let i = layout::segment_at(all, name)->0;
        assert(i == n - 1) by {
            if i < n - 1 {
                assert(all[i].name@ != all[n - 1].name@);
            }
        }
        lemma_header_count(layout.sections@, all[n - 1].sections@);
        let rest = segment_models(layout, all.take(n - 1))->Ok_0;
        let s = CommandModel::Segment64(segment_model(layout, name)->Ok_0);
        assert(rest.push(s).drop_last() =~= rest);
    }
}

proof fn lemma_rpath_command_sizes(paths: Seq<Seq<char>>)
    ensures
        sizes(rpath_commands(paths)) == rpath_sizes(paths),
    decreases paths.len(),
{
    if paths.len() > 0 {
        assert(rpath_commands(paths).drop_last() =~= rpath_commands(paths.drop_last()));
        lemma_rpath_command_sizes(paths.drop_last());
    }
}

proof fn lemma_dependency_command_sizes(deps: Seq<DependencyModel>)
    ensures
        sizes(dependency_commands(deps)) == dependency_sizes(deps),
    decreases deps.len(),
{
    if deps.len() > 0 {
        assert(dependency_commands(deps).drop_last() =~= dependency_commands(deps.drop_last()));
        lemma_dependency_command_sizes(deps.drop_last());
    }
}

proof fn lemma_table_sizes(linkedit: LinkEditModel)
    ensures
        sizes(table_commands(linkedit)) == 48 + 24 + 80,
        sizes(tail_commands(linkedit)) == 48 + (if linkedit.loh is Some {
            16int
        } else {
            0
        }),
{
    let t = table_commands(linkedit);
    assert(t =~= seq![t[0]] + seq![t[1]] + seq![t[2]]);
    lemma_sizes_concat(seq![t[0]] + seq![t[1]], seq![t[2]]);
    lemma_sizes_concat(seq![t[0]], seq![t[1]]);
    lemma_sizes_one(t[0]);
    lemma_sizes_one(t[1]);
    lemma_sizes_one(t[2]);
    let u = tail_commands(linkedit);
    let n = u.len();
    let last = seq![u[n - 3]] + seq![u[n - 2]] + seq![u[n - 1]];
    lemma_sizes_concat(seq![u[n - 3]] + seq![u[n - 2]], seq![u[n - 1]]);
    lemma_sizes_concat(seq![u[n - 3]], seq![u[n - 2]]);
    lemma_sizes_one(u[n - 3]);
    lemma_sizes_one(u[n - 2]);
    lemma_sizes_one(u[n - 1]);
    if linkedit.loh is Some {
        lemma_sizes_one(u[0]);
        assert(u =~= seq![u[0]] + last);
        lemma_sizes_concat(seq![u[0]], last);
    } else {
        assert(u =~= last);
    }
}

proof fn lemma_middle_sizes(
    layout: Layout,
    kind: OutputKind,
    opts: LinkOptions,
    entry: Option<EntryPoint>,
    linkedit: LinkEditModel,
)
    requires
        entry_commands(layout, kind, entry) is Ok,
    ensures
        sizes(
            middle_commands(layout, kind, opts, entry_commands(layout, kind, entry)->Ok_0, linkedit),
        ) == 48 + 24 + 80 + (if opts.emit_uuid {
            24int
        } else {
            0
        }) + build_version(opts).size() + (match kind {
            OutputKind::Executable => dylinker_command("/usr/lib/dyld"@).size() + 24 + 16,
            OutputKind::Dylib => dylib_size(install_name(opts)) + 16,
        }),
{
    let ids = id_commands(kind, opts);
    let t = table_commands(linkedit);
    let l = dylinker_commands(kind);
    let u = uuid_commands(layout, kind, opts);
    let v = seq![build_version(opts), source_version_command(0)];
    let m = entry_commands(layout, kind, entry)->Ok_0;
    lemma_sizes_concat(ids + t + l + u + v, m);
    lemma_sizes_concat(ids + t + l + u, v);
    lemma_sizes_concat(ids + t + l, u);
    lemma_sizes_concat(ids + t, l);
    lemma_sizes_concat(ids, t);
    lemma_table_sizes(linkedit);
    assert(v =~= seq![v[0]] + seq![v[1]]);
    lemma_sizes_concat(seq![v[0]], seq![v[1]]);
    lemma_sizes_one(v[0]);
    lemma_sizes_one(v[1]);
    if opts.emit_uuid {
        lemma_sizes_one(u[0]);
    }
    match kind {
        OutputKind::Executable => {
            lemma_sizes_one(l[0]);
            lemma_sizes_one(m[0]);
        },
        OutputKind::Dylib => {
            lemma_sizes_one(ids[0]);
        },
    }
}

/// The header size that is estimated from the options is the size that the
/// header and the commands turn out to have, whichever entry a program names.
pub proof fn law_estimate_is_exact(
    layout: Layout,
    kind: OutputKind,
    opts: LinkOptions,
    entry: Option<EntryPoint>,
    dylibs: Seq<DependencyModel>,
    linkedit: LinkEditModel,
)
    requires
        names_differ(layout.segments@),
        commands(layout, kind, opts, entry, dylibs, linkedit) is Ok,
    ensures
        header_estimate(layout, kind, opts, dylibs, linkedit) == HEADER_SIZE + sizes(
            commands(layout, kind, opts, entry, dylibs, linkedit)->Ok_0,
        ),
{
    let all = layout.segments@;
    assert(all.take(all.len() as int) =~= all);
    let s = segment_models(layout, all)->Ok_0;
    let main = entry_commands(layout, kind, entry)->Ok_0;
    let mid = middle_commands(layout, kind, opts, main, linkedit);
    let deps = dependency_commands(dylibs);
    let paths = rpath_commands(text::texts(opts.rpaths@));
    let tail = tail_commands(linkedit);
    assert(commands(layout, kind, opts, entry, dylibs, linkedit)->Ok_0 =~= s + mid + deps + paths
        + tail);
    lemma_sizes_concat(s + mid + deps + paths, tail);
    lemma_sizes_concat(s + mid + deps, paths);
    lemma_sizes_concat(s + mid, deps);
    lemma_sizes_concat(s, mid);
    lemma_segment_model_sizes(layout, all.len() as int);
    lemma_middle_sizes(layout, kind, opts, entry, linkedit);
    lemma_dependency_command_sizes(dylibs);
    lemma_rpath_command_sizes(text::texts(opts.rpaths@));
    lemma_table_sizes(linkedit);
}

/// The size that the header and the commands have, if it is not the one that room was
/// made for: then the layout is to be made again with this size.
pub fn header_mismatch(
    layout: &Layout,
    kind: OutputKind,
    opts: &LinkOptions,
    dylibs: &[DylibDependency],
    linkedit: &LinkEditPlan,
    header_size: u64,
) -> (r: Result<Option<u64>, WriteError>)
    requires
        sections_listed(*layout),
        commands_small(
            commands(
                *layout,
                kind,
                *opts,
                None,
                dylib::dependencies_view(dylibs@),
                linkedit@,
            ),
        ),
    ensures
        match (
            r,
            commands(
                *layout,
                kind,
                *opts,
                None,
                dylib::dependencies_view(dylibs@),
                linkedit@,
            ),
        ) {
            (Ok(None), Ok(m)) => header_size == HEADER_SIZE + sizes(m),
            (Ok(Some(size)), Ok(m)) => size == HEADER_SIZE + sizes(m) && size != header_size,
            (Err(e), Err(f)) => e@ == f,
            _ => false,
        },
{
    match exact_sizeofcmds(layout, kind, opts, dylibs, linkedit) {
        Ok(n) => {
            let size: u64 = HEADER_SIZE as u64 + n as u64;
            if size == header_size {
                Ok(None)
            } else {
                Ok(Some(size))
            }
        },
        Err(e) => Err(e),
    }
}

} // verus!
