//! Mach-O 64 reader.
//!
//! All input is little-endian; every cpu type but ARM64 is rejected.

use vstd::prelude::*;
use crate::bytes;
use crate::bytes::{push_bytes, push_u32, push_u64, read_u32, read_u64, push_zeros};
use crate::macho::constants::{
    CPU_TYPE_ARM64, LC_BUILD_VERSION, LC_DYLD_EXPORTS_TRIE, LC_DYLD_INFO_ONLY, LC_DYSYMTAB,
    LC_ID_DYLIB, LC_LOAD_DYLIB, LC_LOAD_UPWARD_DYLIB, LC_LOAD_WEAK_DYLIB, LC_REEXPORT_DYLIB,
    LC_RPATH, LC_SEGMENT_64, LC_SYMTAB, MH_MAGIC_64,
};
use crate::text;
use crate::text::{dec_string, hex_string, hex_string_padded};

verus! {

/// What can be wrong with an input file.
#[derive(Debug, Clone, Copy, PartialEq, Eq)]
#[allow(inconsistent_fields)]
pub enum ReadError {
    /// Not enough bytes to decode the next field.
    Truncated { need: usize, have: usize, context: &'static str },
    /// Magic number is not `MH_MAGIC_64`.
    BadMagic { got: u32 },
    /// CPU type is not `CPU_TYPE_ARM64`.
    UnsupportedCpu { got: u32 },
    /// A load command's `cmdsize` field is malformed.
    BadCmdsize { cmd: u32, cmdsize: u32, at_offset: usize, reason: &'static str },
    /// A relocation entry is malformed.
    BadRelocation { at_offset: u32, reason: &'static str },
    /// The file is of another type than the caller can use.
    UnexpectedFiletype { got: u32, expected: u32 },
    /// A dylib does not name itself exactly once.
    BadDylibIdentity { reason: &'static str },
}

/// `mach_header_64`: 32 bytes on the wire.
#[derive(Debug, Clone, Copy, PartialEq, Eq, Structural)]
pub struct MachHeader64 {
    pub magic: u32,
    pub cputype: u32,
    pub cpusubtype: u32,
    pub filetype: u32,
    pub ncmds: u32,
    pub sizeofcmds: u32,
    pub flags: u32,
    pub reserved: u32,
}

/// Size of a `mach_header_64` on the wire.
pub const HEADER_SIZE: usize = 32;

impl MachHeader64 {
    /// The header that starts at `at`, whatever its magic and cpu type.
    pub open spec fn decoded(s: Seq<u8>, at: int) -> MachHeader64 {
        MachHeader64 {
            magic: bytes::le32(s, at),
            cputype: bytes::le32(s, at + 4),
            cpusubtype: bytes::le32(s, at + 8),
            filetype: bytes::le32(s, at + 12),
            ncmds: bytes::le32(s, at + 16),
            sizeofcmds: bytes::le32(s, at + 20),
            flags: bytes::le32(s, at + 24),
            reserved: bytes::le32(s, at + 28),
        }
    }

    /// The header's 32 bytes.
    pub open spec fn encoded(self) -> Seq<u8> {
        bytes::le32_bytes(self.magic) + bytes::le32_bytes(self.cputype) + bytes::le32_bytes(self.cpusubtype)
            + bytes::le32_bytes(self.filetype) + bytes::le32_bytes(self.ncmds) + bytes::le32_bytes(self.sizeofcmds)
            + bytes::le32_bytes(self.flags) + bytes::le32_bytes(self.reserved)
    }
}

/// What reading a header at the start of `s` gives.
pub open spec fn header_of(s: Seq<u8>) -> Result<MachHeader64, ReadError> {
    if s.len() < HEADER_SIZE {
        Err(
            ReadError::Truncated {
                need: HEADER_SIZE,
                have: s.len() as usize,
                context: "mach_header_64",
            },
        )
    } else if bytes::le32(s, 0) != MH_MAGIC_64 {
        Err(ReadError::BadMagic { got: bytes::le32(s, 0) })
    } else if bytes::le32(s, 4) != CPU_TYPE_ARM64 {
        Err(ReadError::UnsupportedCpu { got: bytes::le32(s, 4) })
    } else {
        Ok(MachHeader64::decoded(s, 0))
    }
}

pub fn parse_header(bytes: &[u8]) -> (r: Result<MachHeader64, ReadError>)
    ensures
        r == header_of(bytes@),
{
    if bytes.len() < HEADER_SIZE {
        return Err(
            ReadError::Truncated {
                need: HEADER_SIZE,
                have: bytes.len(),
                context: "mach_header_64",
            },
        );
    }
    let magic: u32 = read_u32(bytes, 0);
    if magic != MH_MAGIC_64 {
        return Err(ReadError::BadMagic { got: magic });
    }
    let cputype: u32 = read_u32(bytes, 4);
    if cputype != CPU_TYPE_ARM64 {
        return Err(ReadError::UnsupportedCpu { got: cputype });
    }
    Ok(
        MachHeader64 {
            magic,
            cputype,
            cpusubtype: read_u32(bytes, 8),
            filetype: read_u32(bytes, 12),
            ncmds: read_u32(bytes, 16),
            sizeofcmds: read_u32(bytes, 20),
            flags: read_u32(bytes, 24),
            reserved: read_u32(bytes, 28),
        },
    )
}

pub fn write_header(hdr: &MachHeader64, out: &mut Vec<u8>)
    ensures
        final(out)@ == old(out)@ + hdr.encoded(),
{
    push_u32(out, hdr.magic);
    push_u32(out, hdr.cputype);
    push_u32(out, hdr.cpusubtype);
    push_u32(out, hdr.filetype);
    push_u32(out, hdr.ncmds);
    push_u32(out, hdr.sizeofcmds);
    push_u32(out, hdr.flags);
    push_u32(out, hdr.reserved);
}


/// `section_64`: 80 bytes on the wire.
#[derive(Debug, Clone, Copy, PartialEq, Eq)]
pub struct Section64Header {
    pub sectname: [u8; 16],
    pub segname: [u8; 16],
    pub addr: u64,
    pub size: u64,
    pub offset: u32,
    pub align: u32,
    pub reloff: u32,
    pub nreloc: u32,
    pub flags: u32,
    pub reserved1: u32,
    pub reserved2: u32,
    pub reserved3: u32,
}

/// The place of the first zero byte from `i` on, or `end`.
pub open spec fn nul_at(s: Seq<u8>, i: int, end: int) -> int
    decreases end - i,
{
    if i >= end || s[i] == 0 {
        i
    } else {
        nul_at(s, i + 1, end)
    }
}

pub proof fn lemma_nul_at(s: Seq<u8>, i: int, end: int)
    requires
        0 <= i <= end,
    ensures
        i <= nul_at(s, i, end) <= end,
        nul_at(s, i, end) < end ==> s[nul_at(s, i, end)] == 0,
        forall|k: int| i <= k < nul_at(s, i, end) ==> s[k] != 0,
    decreases end - i,
{
    if i < end && s[i] != 0 {
        lemma_nul_at(s, i + 1, end);
    }
}

/// The place of the first zero byte from `start` on, or `end`.
pub fn find_nul(bytes: &[u8], start: usize, end: usize) -> (r: usize)
    requires
        start <= end <= bytes@.len(),
    ensures
        r == nul_at(bytes@, start as int, end as int),
        start <= r <= end,
{
    let mut i: usize = start;
    while i < end && bytes[i] != 0
        invariant
            start <= i <= end,
            end <= bytes@.len(),
            nul_at(bytes@, i as int, end as int) == nul_at(bytes@, start as int, end as int),
        decreases end - i,
    {
        i += 1;
    }
    i
}

/// The characters of a fixed-width name: what stands in front of its first zero
/// byte, each byte taken as the character of that number.
pub open spec fn name16_chars(name: Seq<u8>) -> Seq<char> {
    Seq::new(nul_at(name, 0, 16) as nat, |i: int| name[i] as char)
}

/// A 16-byte name as text, without the padding.
pub fn name16_str(name: &[u8; 16]) -> (r: String)
    ensures
        r@ == name16_chars(name@),
{
    let n: usize = find_nul(name.as_slice(), 0, 16);
    let mut out = String::new();
    let mut i: usize = 0;
    while i < n
        invariant
            i <= n <= 16,
            n == nul_at(name@, 0, 16),
            out@ == Seq::new(i as nat, |k: int| name@[k] as char),
        decreases n - i,
    {
        out.push(name[i] as char);
        assert(out@ =~= Seq::new((i + 1) as nat, |k: int| name@[k] as char));
        i += 1;
    }
    out
}


impl ReadError {
    /// The message that a user sees.
    pub open spec fn message(self) -> Seq<char> {
        match self {
            ReadError::Truncated { need, have, context } => "truncated input while reading "@
                + context@ + ": need "@ + text::dec(need as nat) + " bytes, have "@ + text::dec(
                have as nat,
            ),
            ReadError::BadMagic { got } => "not a Mach-O 64 file: magic 0x"@ + text::zero_padded(
                text::hex(got as nat),
                8,
            ) + " (expected 0x"@ + text::zero_padded(text::hex(MH_MAGIC_64 as nat), 8) + ")"@,
            ReadError::UnsupportedCpu { got } => "unsupported cpu type 0x"@ + text::zero_padded(
                text::hex(got as nat),
                8,
            ) + " (afs-ld requires arm64 / 0x"@ + text::zero_padded(
                text::hex(CPU_TYPE_ARM64 as nat),
                8,
            ) + ")"@,
            ReadError::BadCmdsize { cmd, cmdsize, at_offset, reason } => "load command 0x"@
                + text::hex(cmd as nat) + " at offset 0x"@ + text::hex(at_offset as nat)
                + ": cmdsize "@ + text::dec(cmdsize as nat) + " invalid ("@ + reason@ + ")"@,
            ReadError::BadRelocation { at_offset, reason } => "relocation at offset 0x"@
                + text::hex(at_offset as nat) + ": "@ + reason@,
            ReadError::UnexpectedFiletype { got, expected } => "unexpected Mach-O file type "@
                + text::dec(got as nat) + " (expected "@ + text::dec(expected as nat) + ")"@,
            ReadError::BadDylibIdentity { reason } => "malformed MH_DYLIB identity: "@ + reason@,
        }
    }

    pub fn to_string(&self) -> (r: String)
        ensures
            r@ == self.message(),
    {
        match self {
            ReadError::Truncated { need, have, context } => {
                let mut s = "truncated input while reading ".to_owned();
                s.append(context);
                s.append(": need ");
                s.append(dec_string(*need as u64).as_str());
                s.append(" bytes, have ");
                s.append(dec_string(*have as u64).as_str());
                s
            },
            ReadError::BadMagic { got } => {
                let mut s = "not a Mach-O 64 file: magic 0x".to_owned();
                s.append(hex_string_padded(*got as u64, 8).as_str());
                s.append(" (expected 0x");
                s.append(hex_string_padded(MH_MAGIC_64 as u64, 8).as_str());
                s.append(")");
                s
            },
            ReadError::UnsupportedCpu { got } => {
                let mut s = "unsupported cpu type 0x".to_owned();
                s.append(hex_string_padded(*got as u64, 8).as_str());
                s.append(" (afs-ld requires arm64 / 0x");
                s.append(hex_string_padded(CPU_TYPE_ARM64 as u64, 8).as_str());
                s.append(")");
                s
            },
            ReadError::BadCmdsize { cmd, cmdsize, at_offset, reason } => {
                let mut s = "load command 0x".to_owned();
                s.append(hex_string(*cmd as u64).as_str());
                s.append(" at offset 0x");
                s.append(hex_string(*at_offset as u64).as_str());
                s.append(": cmdsize ");
                s.append(dec_string(*cmdsize as u64).as_str());
                s.append(" invalid (");
                s.append(reason);
                s.append(")");
                s
            },
            ReadError::BadRelocation { at_offset, reason } => {
                let mut s = "relocation at offset 0x".to_owned();
                s.append(hex_string(*at_offset as u64).as_str());
                s.append(": ");
                s.append(reason);
                s
            },
            ReadError::UnexpectedFiletype { got, expected } => {
                let mut s = "unexpected Mach-O file type ".to_owned();
                s.append(dec_string(*got as u64).as_str());
                s.append(" (expected ");
                s.append(dec_string(*expected as u64).as_str());
                s.append(")");
                s
            },
            ReadError::BadDylibIdentity { reason } => {
                let mut s = "malformed MH_DYLIB identity: ".to_owned();
                s.append(reason);
                s
            },
        }
    }
}

/// A header that `parse_header` accepts is read back from its own bytes.
pub proof fn law_header_read_of_write(hdr: MachHeader64, more: Seq<u8>)
    requires
        hdr.magic == MH_MAGIC_64,
        hdr.cputype == CPU_TYPE_ARM64,
    ensures
        hdr.encoded().len() == HEADER_SIZE,
        header_of(hdr.encoded() + more) == Ok::<_, ReadError>(hdr),
{
    let s = hdr.encoded() + more;
    assert(s.subrange(0, 4) =~= bytes::le32_bytes(hdr.magic));
    assert(s.subrange(4, 8) =~= bytes::le32_bytes(hdr.cputype));
    assert(s.subrange(8, 12) =~= bytes::le32_bytes(hdr.cpusubtype));
    assert(s.subrange(12, 16) =~= bytes::le32_bytes(hdr.filetype));
    assert(s.subrange(16, 20) =~= bytes::le32_bytes(hdr.ncmds));
    assert(s.subrange(20, 24) =~= bytes::le32_bytes(hdr.sizeofcmds));
    assert(s.subrange(24, 28) =~= bytes::le32_bytes(hdr.flags));
    assert(s.subrange(28, 32) =~= bytes::le32_bytes(hdr.reserved));
    bytes::lemma_le32_of_bytes(s, 0, hdr.magic);
    bytes::lemma_le32_of_bytes(s, 4, hdr.cputype);
    bytes::lemma_le32_of_bytes(s, 8, hdr.cpusubtype);
    bytes::lemma_le32_of_bytes(s, 12, hdr.filetype);
    bytes::lemma_le32_of_bytes(s, 16, hdr.ncmds);
    bytes::lemma_le32_of_bytes(s, 20, hdr.sizeofcmds);
    bytes::lemma_le32_of_bytes(s, 24, hdr.flags);
    bytes::lemma_le32_of_bytes(s, 28, hdr.reserved);
}

/// A header is written as the bytes that it was read from.
pub proof fn law_header_write_of_read(s: Seq<u8>)
    requires
        header_of(s) is Ok,
    ensures
        header_of(s)->Ok_0.encoded() == s.take(32),
{
    bytes::lemma_bytes_of_le32(s, 0);
    bytes::lemma_bytes_of_le32(s, 4);
    bytes::lemma_bytes_of_le32(s, 8);
    bytes::lemma_bytes_of_le32(s, 12);
    bytes::lemma_bytes_of_le32(s, 16);
    bytes::lemma_bytes_of_le32(s, 20);
    bytes::lemma_bytes_of_le32(s, 24);
    bytes::lemma_bytes_of_le32(s, 28);
    assert(MachHeader64::decoded(s, 0).encoded() =~= s.take(32));
}

/// `segment_command_64` with its sections.
#[derive(Debug, Clone, PartialEq, Eq)]
pub struct Segment64 {
    pub segname: [u8; 16],
    pub vmaddr: u64,
    pub vmsize: u64,
    pub fileoff: u64,
    pub filesize: u64,
    pub maxprot: u32,
    pub initprot: u32,
    pub flags: u32,
    pub sections: Vec<Section64Header>,
}

/// `symtab_command`.
#[derive(Debug, Clone, Copy, PartialEq, Eq, Structural)]
pub struct SymtabCmd {
    pub symoff: u32,
    pub nsyms: u32,
    pub stroff: u32,
    pub strsize: u32,
}

/// `dysymtab_command`.
#[derive(Debug, Clone, Copy, PartialEq, Eq, Structural)]
pub struct DysymtabCmd {
    pub ilocalsym: u32,
    pub nlocalsym: u32,
    pub iextdefsym: u32,
    pub nextdefsym: u32,
    pub iundefsym: u32,
    pub nundefsym: u32,
    pub tocoff: u32,
    pub ntoc: u32,
    pub modtaboff: u32,
    pub nmodtab: u32,
    pub extrefsymoff: u32,
    pub nextrefsyms: u32,
    pub indirectsymoff: u32,
    pub nindirectsyms: u32,
    pub extreloff: u32,
    pub nextrel: u32,
    pub locreloff: u32,
    pub nlocrel: u32,
}

/// `dyld_info_command`.
#[derive(Debug, Clone, Copy, PartialEq, Eq, Structural)]
pub struct DyldInfoCmd {
    pub rebase_off: u32,
    pub rebase_size: u32,
    pub bind_off: u32,
    pub bind_size: u32,
    pub weak_bind_off: u32,
    pub weak_bind_size: u32,
    pub lazy_bind_off: u32,
    pub lazy_bind_size: u32,
    pub export_off: u32,
    pub export_size: u32,
}

/// `linkedit_data_command`.
#[derive(Debug, Clone, Copy, PartialEq, Eq, Structural)]
pub struct LinkEditDataCmd {
    pub dataoff: u32,
    pub datasize: u32,
}

/// `dylib_command`: a dylib's own name, or one that it depends on.
#[derive(Debug, Clone, PartialEq, Eq)]
pub struct DylibCmd {
    pub cmd: u32,
    pub name: String,
    pub timestamp: u32,
    pub current_version: u32,
    pub compatibility_version: u32,
}

/// `rpath_command`.
#[derive(Debug, Clone, PartialEq, Eq)]
pub struct RpathCmd {
    pub path: String,
}

/// One tool of a `build_version_command`.
#[derive(Debug, Clone, Copy, PartialEq, Eq, Structural)]
pub struct BuildTool {
    pub tool: u32,
    pub version: u32,
}

/// `build_version_command`.
#[derive(Debug, Clone, PartialEq, Eq)]
pub struct BuildVersionCmd {
    pub platform: u32,
    pub minos: u32,
    pub sdk: u32,
    pub tools: Vec<BuildTool>,
}

/// A load command. Kinds that are not decoded are kept as they stand.
#[derive(Debug, Clone, PartialEq, Eq)]
pub enum LoadCommand {
    Segment64(Segment64),
    Symtab(SymtabCmd),
    Dysymtab(DysymtabCmd),
    DyldInfoOnly(DyldInfoCmd),
    DyldExportsTrie(LinkEditDataCmd),
    Dylib(DylibCmd),
    Rpath(RpathCmd),
    BuildVersion(BuildVersionCmd),
    Raw { cmd: u32, cmdsize: u32, data: Vec<u8> },
}

/// `n` rounded up to a multiple of eight.
pub open spec fn round8(n: int) -> int {
    (n + 7) / 8 * 8
}


impl SymtabCmd {
    pub const WIRE_SIZE: u32 = 24;

    pub open spec fn encoded(self) -> Seq<u8> {
        bytes::le32_bytes(self.symoff) + bytes::le32_bytes(self.nsyms) + bytes::le32_bytes(
            self.stroff,
        ) + bytes::le32_bytes(self.strsize)
    }

    pub open spec fn decoded(s: Seq<u8>, at: int) -> SymtabCmd {
        SymtabCmd {
            symoff: bytes::le32(s, at + 8),
            nsyms: bytes::le32(s, at + 12),
            stroff: bytes::le32(s, at + 16),
            strsize: bytes::le32(s, at + 20),
        }
    }
}

impl DysymtabCmd {
    pub const WIRE_SIZE: u32 = 80;

    /// All fields zero.
    pub open spec fn zero() -> DysymtabCmd {
        DysymtabCmd {
            ilocalsym: 0,
            nlocalsym: 0,
            iextdefsym: 0,
            nextdefsym: 0,
            iundefsym: 0,
            nundefsym: 0,
            tocoff: 0,
            ntoc: 0,
            modtaboff: 0,
            nmodtab: 0,
            extrefsymoff: 0,
            nextrefsyms: 0,
            indirectsymoff: 0,
            nindirectsyms: 0,
            extreloff: 0,
            nextrel: 0,
            locreloff: 0,
            nlocrel: 0,
        }
    }

    pub open spec fn encoded(self) -> Seq<u8> {
        bytes::le32_bytes(self.ilocalsym) + bytes::le32_bytes(self.nlocalsym) + bytes::le32_bytes(
            self.iextdefsym,
        ) + bytes::le32_bytes(self.nextdefsym) + bytes::le32_bytes(self.iundefsym)
            + bytes::le32_bytes(self.nundefsym) + bytes::le32_bytes(self.tocoff)
            + bytes::le32_bytes(self.ntoc) + bytes::le32_bytes(self.modtaboff)
            + bytes::le32_bytes(self.nmodtab) + bytes::le32_bytes(self.extrefsymoff)
            + bytes::le32_bytes(self.nextrefsyms) + bytes::le32_bytes(self.indirectsymoff)
            + bytes::le32_bytes(self.nindirectsyms) + bytes::le32_bytes(self.extreloff)
            + bytes::le32_bytes(self.nextrel) + bytes::le32_bytes(self.locreloff)
            + bytes::le32_bytes(self.nlocrel)
    }

    pub open spec fn decoded(s: Seq<u8>, at: int) -> DysymtabCmd {
        DysymtabCmd {
            ilocalsym: bytes::le32(s, at + 8),
            nlocalsym: bytes::le32(s, at + 12),
            iextdefsym: bytes::le32(s, at + 16),
            nextdefsym: bytes::le32(s, at + 20),
            iundefsym: bytes::le32(s, at + 24),
            nundefsym: bytes::le32(s, at + 28),
            tocoff: bytes::le32(s, at + 32),
            ntoc: bytes::le32(s, at + 36),
            modtaboff: bytes::le32(s, at + 40),
            nmodtab: bytes::le32(s, at + 44),
            extrefsymoff: bytes::le32(s, at + 48),
            nextrefsyms: bytes::le32(s, at + 52),
            indirectsymoff: bytes::le32(s, at + 56),
            nindirectsyms: bytes::le32(s, at + 60),
            extreloff: bytes::le32(s, at + 64),
            nextrel: bytes::le32(s, at + 68),
            locreloff: bytes::le32(s, at + 72),
            nlocrel: bytes::le32(s, at + 76),
        }
    }
}

impl Default for DysymtabCmd {
    fn default() -> (r: DysymtabCmd)
        ensures
            r == DysymtabCmd::zero(),
    {
        DysymtabCmd {
            ilocalsym: 0,
            nlocalsym: 0,
            iextdefsym: 0,
            nextdefsym: 0,
            iundefsym: 0,
            nundefsym: 0,
            tocoff: 0,
            ntoc: 0,
            modtaboff: 0,
            nmodtab: 0,
            extrefsymoff: 0,
            nextrefsyms: 0,
            indirectsymoff: 0,
            nindirectsyms: 0,
            extreloff: 0,
            nextrel: 0,
            locreloff: 0,
            nlocrel: 0,
        }
    }
}

impl DyldInfoCmd {
    pub const WIRE_SIZE: u32 = 48;

    /// All fields zero.
    pub open spec fn zero() -> DyldInfoCmd {
        DyldInfoCmd {
            rebase_off: 0,
            rebase_size: 0,
            bind_off: 0,
            bind_size: 0,
            weak_bind_off: 0,
            weak_bind_size: 0,
            lazy_bind_off: 0,
            lazy_bind_size: 0,
            export_off: 0,
            export_size: 0,
        }
    }

    pub open spec fn encoded(self) -> Seq<u8> {
        bytes::le32_bytes(self.rebase_off) + bytes::le32_bytes(self.rebase_size)
            + bytes::le32_bytes(self.bind_off) + bytes::le32_bytes(self.bind_size)
            + bytes::le32_bytes(self.weak_bind_off) + bytes::le32_bytes(self.weak_bind_size)
            + bytes::le32_bytes(self.lazy_bind_off) + bytes::le32_bytes(self.lazy_bind_size)
            + bytes::le32_bytes(self.export_off) + bytes::le32_bytes(self.export_size)
    }

    pub open spec fn decoded(s: Seq<u8>, at: int) -> DyldInfoCmd {
        DyldInfoCmd {
            rebase_off: bytes::le32(s, at + 8),
            rebase_size: bytes::le32(s, at + 12),
            bind_off: bytes::le32(s, at + 16),
            bind_size: bytes::le32(s, at + 20),
            weak_bind_off: bytes::le32(s, at + 24),
            weak_bind_size: bytes::le32(s, at + 28),
            lazy_bind_off: bytes::le32(s, at + 32),
            lazy_bind_size: bytes::le32(s, at + 36),
            export_off: bytes::le32(s, at + 40),
            export_size: bytes::le32(s, at + 44),
        }
    }
}

impl Default for DyldInfoCmd {
    fn default() -> (r: DyldInfoCmd)
        ensures
            r == DyldInfoCmd::zero(),
    {
        DyldInfoCmd {
            rebase_off: 0,
            rebase_size: 0,
            bind_off: 0,
            bind_size: 0,
            weak_bind_off: 0,
            weak_bind_size: 0,
            lazy_bind_off: 0,
            lazy_bind_size: 0,
            export_off: 0,
            export_size: 0,
        }
    }
}

impl Section64Header {
    pub open spec fn encoded(self) -> Seq<u8> {
        self.sectname@ + self.segname@ + bytes::le64_bytes(self.addr) + bytes::le64_bytes(self.size)
            + bytes::le32_bytes(self.offset) + bytes::le32_bytes(self.align) + bytes::le32_bytes(
            self.reloff,
        ) + bytes::le32_bytes(self.nreloc) + bytes::le32_bytes(self.flags) + bytes::le32_bytes(
            self.reserved1,
        ) + bytes::le32_bytes(self.reserved2) + bytes::le32_bytes(self.reserved3)
    }

    /// The header's 80 bytes start at `at`.
    pub open spec fn decodes(self, s: Seq<u8>, at: int) -> bool {
        &&& self.sectname@ == s.subrange(at, at + 16)
        &&& self.segname@ == s.subrange(at + 16, at + 32)
        &&& self.addr == bytes::le64(s, at + 32)
        &&& self.size == bytes::le64(s, at + 40)
        &&& self.offset == bytes::le32(s, at + 48)
        &&& self.align == bytes::le32(s, at + 52)
        &&& self.reloff == bytes::le32(s, at + 56)
        &&& self.nreloc == bytes::le32(s, at + 60)
        &&& self.flags == bytes::le32(s, at + 64)
        &&& self.reserved1 == bytes::le32(s, at + 68)
        &&& self.reserved2 == bytes::le32(s, at + 72)
        &&& self.reserved3 == bytes::le32(s, at + 76)
    }
}

/// The bytes of all section headers, in order.
pub open spec fn section_headers_bytes(sections: Seq<Section64Header>) -> Seq<u8>
    decreases sections.len(),
{
    if sections.len() == 0 {
        seq![]
    } else {
        section_headers_bytes(sections.drop_last()) + sections.last().encoded()
    }
}

impl Segment64 {
    pub open spec fn spec_wire_size(self) -> int {
        72 + 80 * self.sections@.len() as int
    }

    pub open spec fn encoded(self) -> Seq<u8> {
        self.segname@ + bytes::le64_bytes(self.vmaddr) + bytes::le64_bytes(self.vmsize)
            + bytes::le64_bytes(self.fileoff) + bytes::le64_bytes(self.filesize)
            + bytes::le32_bytes(self.maxprot) + bytes::le32_bytes(self.initprot)
            + bytes::le32_bytes(self.sections@.len() as u32) + bytes::le32_bytes(self.flags)
            + section_headers_bytes(self.sections@)
    }

    pub open spec fn decodes(self, s: Seq<u8>, at: int) -> bool {
        &&& self.segname@ == s.subrange(at + 8, at + 24)
        &&& self.vmaddr == bytes::le64(s, at + 24)
        &&& self.vmsize == bytes::le64(s, at + 32)
        &&& self.fileoff == bytes::le64(s, at + 40)
        &&& self.filesize == bytes::le64(s, at + 48)
        &&& self.maxprot == bytes::le32(s, at + 56)
        &&& self.initprot == bytes::le32(s, at + 60)
        &&& self.flags == bytes::le32(s, at + 68)
        &&& self.sections@.len() == bytes::le32(s, at + 64)
        &&& forall|i: int|
            0 <= i < self.sections@.len() ==> (#[trigger] self.sections@[i]).decodes(
                s,
                at + 72 + 80 * i,
            )
    }

    /// The segment's name, without the padding.
    pub fn segname_str(&self) -> (r: String)
        ensures
            r@ == name16_chars(self.segname@),
    {
        name16_str(&self.segname)
    }
}

impl DylibCmd {
    pub open spec fn spec_wire_size(self) -> int {
        round8(24 + text::utf8(self.name@).len() as int + 1)
    }

    pub open spec fn encoded(self) -> Seq<u8> {
        bytes::le32_bytes(24) + bytes::le32_bytes(self.timestamp) + bytes::le32_bytes(
            self.current_version,
        ) + bytes::le32_bytes(self.compatibility_version) + text::utf8(self.name@) + bytes::zeros(
            self.spec_wire_size() - 24 - text::utf8(self.name@).len(),
        )
    }

    pub fn wire_size(&self) -> (r: u32)
        requires
            self.spec_wire_size() <= u32::MAX,
        ensures
            r == self.spec_wire_size(),
    {
        ((24 + self.name.as_str().len() + 1 + 7) / 8 * 8) as u32
    }
}

impl RpathCmd {
    pub open spec fn spec_wire_size(self) -> int {
        round8(12 + text::utf8(self.path@).len() as int + 1)
    }

    pub open spec fn encoded(self) -> Seq<u8> {
        bytes::le32_bytes(12) + text::utf8(self.path@) + bytes::zeros(
            self.spec_wire_size() - 12 - text::utf8(self.path@).len(),
        )
    }

    pub fn wire_size(&self) -> (r: u32)
        requires
            self.spec_wire_size() <= u32::MAX,
        ensures
            r == self.spec_wire_size(),
    {
        ((12 + self.path.as_str().len() + 1 + 7) / 8 * 8) as u32
    }
}

/// The bytes of all tools, in order.
pub open spec fn tools_bytes(tools: Seq<BuildTool>) -> Seq<u8>
    decreases tools.len(),
{
    if tools.len() == 0 {
        seq![]
    } else {
        tools_bytes(tools.drop_last()) + bytes::le32_bytes(tools.last().tool) + bytes::le32_bytes(
            tools.last().version,
        )
    }
}

impl BuildVersionCmd {
    pub open spec fn spec_wire_size(self) -> int {
        24 + 8 * self.tools@.len() as int
    }

    pub open spec fn encoded(self) -> Seq<u8> {
        bytes::le32_bytes(self.platform) + bytes::le32_bytes(self.minos) + bytes::le32_bytes(
            self.sdk,
        ) + bytes::le32_bytes(self.tools@.len() as u32) + tools_bytes(self.tools@)
    }

    pub open spec fn decodes(self, s: Seq<u8>, at: int) -> bool {
        &&& self.platform == bytes::le32(s, at + 8)
        &&& self.minos == bytes::le32(s, at + 12)
        &&& self.sdk == bytes::le32(s, at + 16)
        &&& self.tools@.len() == bytes::le32(s, at + 20)
        &&& forall|i: int|
            0 <= i < self.tools@.len() ==> #[trigger] self.tools@[i] == (BuildTool {
                tool: bytes::le32(s, at + 24 + 8 * i),
                version: bytes::le32(s, at + 28 + 8 * i),
            })
    }

    pub fn wire_size(&self) -> (r: u32)
        requires
            self.spec_wire_size() <= u32::MAX,
        ensures
            r == self.spec_wire_size(),
    {
        (24 + 8 * self.tools.len()) as u32
    }
}

impl LoadCommand {
    /// The command's number.
    pub open spec fn code(self) -> u32 {
        match self {
            LoadCommand::Segment64(_) => LC_SEGMENT_64,
            LoadCommand::Symtab(_) => LC_SYMTAB,
            LoadCommand::Dysymtab(_) => LC_DYSYMTAB,
            LoadCommand::DyldInfoOnly(_) => LC_DYLD_INFO_ONLY,
            LoadCommand::DyldExportsTrie(_) => LC_DYLD_EXPORTS_TRIE,
            LoadCommand::Dylib(d) => d.cmd,
            LoadCommand::Rpath(_) => LC_RPATH,
            LoadCommand::BuildVersion(_) => LC_BUILD_VERSION,
            LoadCommand::Raw { cmd, .. } => cmd,
        }
    }

    /// The size that the command states for itself.
    pub open spec fn spec_cmdsize(self) -> int {
        match self {
            LoadCommand::Segment64(seg) => seg.spec_wire_size(),
            LoadCommand::Symtab(_) => 24,
            LoadCommand::Dysymtab(_) => 80,
            LoadCommand::DyldInfoOnly(_) => 48,
            LoadCommand::DyldExportsTrie(_) => 16,
            LoadCommand::Dylib(d) => d.spec_wire_size(),
            LoadCommand::Rpath(r) => r.spec_wire_size(),
            LoadCommand::BuildVersion(b) => b.spec_wire_size(),
            LoadCommand::Raw { cmdsize, .. } => cmdsize as int,
        }
    }

    /// What stands behind the command's number and size.
    pub open spec fn body(self) -> Seq<u8> {
        match self {
            LoadCommand::Segment64(seg) => seg.encoded(),
            LoadCommand::Symtab(c) => c.encoded(),
            LoadCommand::Dysymtab(c) => c.encoded(),
            LoadCommand::DyldInfoOnly(c) => c.encoded(),
            LoadCommand::DyldExportsTrie(c) => bytes::le32_bytes(c.dataoff) + bytes::le32_bytes(
                c.datasize,
            ),
            LoadCommand::Dylib(d) => d.encoded(),
            LoadCommand::Rpath(r) => r.encoded(),
            LoadCommand::BuildVersion(b) => b.encoded(),
            LoadCommand::Raw { data, .. } => data@,
        }
    }

    /// The command's bytes.
    pub open spec fn encoded(self) -> Seq<u8> {
        bytes::le32_bytes(self.code()) + bytes::le32_bytes(self.spec_cmdsize() as u32)
            + self.body()
    }

    /// The size that the command states for itself.
    pub fn cmdsize(&self) -> (r: u32)
        requires
            self.spec_cmdsize() <= u32::MAX,
        ensures
            r == self.spec_cmdsize(),
    {
        match self {
            LoadCommand::Segment64(seg) => (72 + 80 * seg.sections.len()) as u32,
            LoadCommand::Symtab(_) => 24,
            LoadCommand::Dysymtab(_) => 80,
            LoadCommand::DyldInfoOnly(_) => 48,
            LoadCommand::DyldExportsTrie(_) => 16,
            LoadCommand::Dylib(d) => d.wire_size(),
            LoadCommand::Rpath(r) => r.wire_size(),
            LoadCommand::BuildVersion(b) => b.wire_size(),
            LoadCommand::Raw { cmdsize, .. } => *cmdsize,
        }
    }
}

/// The bytes of all commands, in order.
pub open spec fn commands_bytes(commands: Seq<LoadCommand>) -> Seq<u8>
    decreases commands.len(),
{
    if commands.len() == 0 {
        seq![]
    } else {
        commands_bytes(commands.drop_last()) + commands.last().encoded()
    }
}

pub open spec fn commands_fit(commands: Seq<LoadCommand>) -> bool {
    forall|i: int| 0 <= i < commands.len() ==> (#[trigger] commands[i]).spec_cmdsize() <= u32::MAX
}

fn write_section_header(hdr: &Section64Header, out: &mut Vec<u8>)
    ensures
        final(out)@ == old(out)@ + hdr.encoded(),
{
    push_bytes(out, hdr.sectname.as_slice());
    push_bytes(out, hdr.segname.as_slice());
    push_u64(out, hdr.addr);
    push_u64(out, hdr.size);
    push_u32(out, hdr.offset);
    push_u32(out, hdr.align);
    push_u32(out, hdr.reloff);
    push_u32(out, hdr.nreloc);
    push_u32(out, hdr.flags);
    push_u32(out, hdr.reserved1);
    push_u32(out, hdr.reserved2);
    push_u32(out, hdr.reserved3);
    assert(out@ =~= old(out)@ + hdr.encoded());
}

#[verifier::spinoff_prover]
#[verifier::rlimit(50)]
fn write_segment(seg: &Segment64, out: &mut Vec<u8>)
    ensures
        final(out)@ == old(out)@ + seg.encoded(),
{
    push_bytes(out, seg.segname.as_slice());
    push_u64(out, seg.vmaddr);
    push_u64(out, seg.vmsize);
    push_u64(out, seg.fileoff);
    push_u64(out, seg.filesize);
    push_u32(out, seg.maxprot);
    push_u32(out, seg.initprot);
    push_u32(out, seg.sections.len() as u32);
    push_u32(out, seg.flags);
    let ghost head = out@;
    let mut i: usize = 0;
    assert(out@ =~= head + section_headers_bytes(seg.sections@.take(0)));
    while i < seg.sections.len()
        invariant
            i <= seg.sections@.len(),
            out@ == head + section_headers_bytes(seg.sections@.take(i as int)),
        decreases seg.sections@.len() - i,
    {
        write_section_header(&seg.sections[i], out);
        assert(seg.sections@.take(i + 1).drop_last() =~= seg.sections@.take(i as int));
        assert(out@ =~= head + section_headers_bytes(seg.sections@.take(i + 1)));
        i += 1;
    }
    assert(seg.sections@.take(i as int) =~= seg.sections@);
    assert(out@ =~= old(out)@ + seg.encoded());
}

fn write_build_version(b: &BuildVersionCmd, out: &mut Vec<u8>)
    ensures
        final(out)@ == old(out)@ + b.encoded(),
{
    push_u32(out, b.platform);
    push_u32(out, b.minos);
    push_u32(out, b.sdk);
    push_u32(out, b.tools.len() as u32);
    let ghost head = out@;
    let mut i: usize = 0;
    assert(out@ =~= head + tools_bytes(b.tools@.take(0)));
    while i < b.tools.len()
        invariant
            i <= b.tools@.len(),
            out@ == head + tools_bytes(b.tools@.take(i as int)),
        decreases b.tools@.len() - i,
    {
        push_u32(out, b.tools[i].tool);
        push_u32(out, b.tools[i].version);
        assert(b.tools@.take(i + 1).drop_last() =~= b.tools@.take(i as int));
        assert(out@ =~= head + tools_bytes(b.tools@.take(i + 1)));
        i += 1;
    }
    assert(b.tools@.take(i as int) =~= b.tools@);
    assert(out@ =~= old(out)@ + b.encoded());
}

#[verifier::spinoff_prover]
#[verifier::rlimit(50)]
fn write_dysymtab(c: &DysymtabCmd, out: &mut Vec<u8>)
    ensures
        final(out)@ == old(out)@ + c.encoded(),
{
    push_u32(out, c.ilocalsym);
    push_u32(out, c.nlocalsym);
    push_u32(out, c.iextdefsym);
    push_u32(out, c.nextdefsym);
    push_u32(out, c.iundefsym);
    push_u32(out, c.nundefsym);
    push_u32(out, c.tocoff);
    push_u32(out, c.ntoc);
    push_u32(out, c.modtaboff);
    push_u32(out, c.nmodtab);
    push_u32(out, c.extrefsymoff);
    push_u32(out, c.nextrefsyms);
    push_u32(out, c.indirectsymoff);
    push_u32(out, c.nindirectsyms);
    push_u32(out, c.extreloff);
    push_u32(out, c.nextrel);
    push_u32(out, c.locreloff);
    push_u32(out, c.nlocrel);
    assert(out@ =~= old(out)@ + c.encoded());
}

fn write_dyld_info(c: &DyldInfoCmd, out: &mut Vec<u8>)
    ensures
        final(out)@ == old(out)@ + c.encoded(),
{
    push_u32(out, c.rebase_off);
    push_u32(out, c.rebase_size);
    push_u32(out, c.bind_off);
    push_u32(out, c.bind_size);
    push_u32(out, c.weak_bind_off);
    push_u32(out, c.weak_bind_size);
    push_u32(out, c.lazy_bind_off);
    push_u32(out, c.lazy_bind_size);
    push_u32(out, c.export_off);
    push_u32(out, c.export_size);
    assert(out@ =~= old(out)@ + c.encoded());
}

fn write_dylib(d: &DylibCmd, out: &mut Vec<u8>)
    requires
        d.spec_wire_size() <= u32::MAX,
    ensures
        final(out)@ == old(out)@ + d.encoded(),
{
    let size: usize = d.wire_size() as usize;
    push_u32(out, 24);
    push_u32(out, d.timestamp);
    push_u32(out, d.current_version);
    push_u32(out, d.compatibility_version);
    let name = d.name.as_str().as_bytes();
    push_bytes(out, name);
    push_zeros(out, size - 24 - name.len());
    assert(out@ =~= old(out)@ + d.encoded());
}

fn write_rpath(r: &RpathCmd, out: &mut Vec<u8>)
    requires
        r.spec_wire_size() <= u32::MAX,
    ensures
        final(out)@ == old(out)@ + r.encoded(),
{
    let size: usize = r.wire_size() as usize;
    push_u32(out, 12);
    let path = r.path.as_str().as_bytes();
    push_bytes(out, path);
    push_zeros(out, size - 12 - path.len());
    assert(out@ =~= old(out)@ + r.encoded());
}

fn write_command(c: &LoadCommand, out: &mut Vec<u8>)
    requires
        c.spec_cmdsize() <= u32::MAX,
    ensures
        final(out)@ == old(out)@ + c.encoded(),
{
    let code: u32 = match c {
        LoadCommand::Segment64(_) => LC_SEGMENT_64,
        LoadCommand::Symtab(_) => LC_SYMTAB,
        LoadCommand::Dysymtab(_) => LC_DYSYMTAB,
        LoadCommand::DyldInfoOnly(_) => LC_DYLD_INFO_ONLY,
        LoadCommand::DyldExportsTrie(_) => LC_DYLD_EXPORTS_TRIE,
        LoadCommand::Dylib(d) => d.cmd,
        LoadCommand::Rpath(_) => LC_RPATH,
        LoadCommand::BuildVersion(_) => LC_BUILD_VERSION,
        LoadCommand::Raw { cmd, .. } => *cmd,
    };
    push_u32(out, code);
    push_u32(out, c.cmdsize());
    match c {
        LoadCommand::Segment64(seg) => write_segment(seg, out),
        LoadCommand::Symtab(s) => {
            push_u32(out, s.symoff);
            push_u32(out, s.nsyms);
            push_u32(out, s.stroff);
            push_u32(out, s.strsize);
        },
        LoadCommand::Dysymtab(d) => write_dysymtab(d, out),
        LoadCommand::DyldInfoOnly(d) => write_dyld_info(d, out),
        LoadCommand::DyldExportsTrie(l) => {
            push_u32(out, l.dataoff);
            push_u32(out, l.datasize);
        },
        LoadCommand::Dylib(d) => write_dylib(d, out),
        LoadCommand::Rpath(r) => write_rpath(r, out),
        LoadCommand::BuildVersion(b) => write_build_version(b, out),
        LoadCommand::Raw { data, .. } => push_bytes(out, data.as_slice()),
    }
    assert(out@ =~= old(out)@ + c.encoded());
}

/// Writes the load commands one after the other.
pub fn write_commands(commands: &[LoadCommand], out: &mut Vec<u8>)
    requires
        commands_fit(commands@),
    ensures
        final(out)@ == old(out)@ + commands_bytes(commands@),
{
    let mut i: usize = 0;
    assert(out@ =~= old(out)@ + commands_bytes(commands@.take(0)));
    while i < commands.len()
        invariant
            commands_fit(commands@),
            i <= commands@.len(),
            out@ == old(out)@ + commands_bytes(commands@.take(i as int)),
        decreases commands@.len() - i,
    {
        write_command(&commands[i], out);
        assert(commands@.take(i + 1).drop_last() =~= commands@.take(i as int));
        assert(out@ =~= old(out)@ + commands_bytes(commands@.take(i + 1)));
        i += 1;
    }
    assert(commands@.take(i as int) =~= commands@);
}


/// The smallest size that a command of this kind can state.
pub open spec fn min_cmdsize(cmd: u32) -> int {
    if cmd == LC_SEGMENT_64 {
        72
    } else if cmd == LC_SYMTAB || is_dylib_cmd(cmd) || cmd == LC_BUILD_VERSION {
        24
    } else if cmd == LC_DYSYMTAB {
        80
    } else if cmd == LC_DYLD_INFO_ONLY {
        48
    } else if cmd == LC_DYLD_EXPORTS_TRIE {
        16
    } else if cmd == LC_RPATH {
        12
    } else {
        8
    }
}

/// The commands that name a dylib.
pub open spec fn is_dylib_cmd(cmd: u32) -> bool {
    cmd == LC_ID_DYLIB || cmd == LC_LOAD_DYLIB || cmd == LC_LOAD_WEAK_DYLIB || cmd
        == LC_REEXPORT_DYLIB || cmd == LC_LOAD_UPWARD_DYLIB
}

/// The text of a command: from the stated offset to the first zero byte, or to
/// the end of the command.
pub open spec fn command_text(s: Seq<u8>, at: int) -> Seq<u8> {
    let start = at + bytes::le32(s, at + 8);
    let end = at + bytes::le32(s, at + 4);
    s.subrange(start, nul_at(s, start, end))
}

/// What is wrong with the command at `at`.
pub open spec fn command_error(s: Seq<u8>, at: int) -> Option<ReadError> {
    let cmd = bytes::le32(s, at);
    let cmdsize = bytes::le32(s, at + 4);
    let bad = |reason: &'static str|
        Some(ReadError::BadCmdsize { cmd, cmdsize, at_offset: at as usize, reason });
    if at + 8 > s.len() {
        Some(
            ReadError::Truncated {
                need: if at + 8 > usize::MAX {
                    usize::MAX
                } else {
                    (at + 8) as usize
                },
                have: s.len() as usize,
                context: "load command header",
            },
        )
    } else if cmdsize < min_cmdsize(cmd) {
        bad("smaller than the command's fixed part")
    } else if at + cmdsize > s.len() {
        Some(
            ReadError::Truncated {
                need: if at + cmdsize > usize::MAX {
                    usize::MAX
                } else {
                    (at + cmdsize) as usize
                },
                have: s.len() as usize,
                context: "load command",
            },
        )
    } else if cmd == LC_SEGMENT_64 && 72 + 80 * bytes::le32(s, at + 64) > cmdsize {
        bad("section headers run past the command")
    } else if cmd == LC_BUILD_VERSION && 24 + 8 * bytes::le32(s, at + 20) > cmdsize {
        bad("tool entries run past the command")
    } else if (is_dylib_cmd(cmd) || cmd == LC_RPATH) && bytes::le32(s, at + 8) > cmdsize {
        bad("string offset past the command")
    } else if (is_dylib_cmd(cmd) || cmd == LC_RPATH) && !vstd::utf8::valid_utf8(
        command_text(s, at),
    ) {
        bad("non-UTF-8 bytes in a string")
    } else {
        None
    }
}

impl LoadCommand {
    /// The command is the one whose bytes start at `at`.
    pub open spec fn decodes(self, s: Seq<u8>, at: int) -> bool {
        let cmd = bytes::le32(s, at);
        let cmdsize = bytes::le32(s, at + 4);
        if cmd == LC_SEGMENT_64 {
            self is Segment64 && self->Segment64_0.decodes(s, at)
        } else if cmd == LC_SYMTAB {
            self == LoadCommand::Symtab(SymtabCmd::decoded(s, at))
        } else if cmd == LC_DYSYMTAB {
            self == LoadCommand::Dysymtab(DysymtabCmd::decoded(s, at))
        } else if cmd == LC_DYLD_INFO_ONLY {
            self == LoadCommand::DyldInfoOnly(DyldInfoCmd::decoded(s, at))
        } else if cmd == LC_DYLD_EXPORTS_TRIE {
            self == LoadCommand::DyldExportsTrie(
                LinkEditDataCmd {
                    dataoff: bytes::le32(s, at + 8),
                    datasize: bytes::le32(s, at + 12),
                },
            )
        } else if is_dylib_cmd(cmd) {
            &&& self is Dylib
            &&& self->Dylib_0.cmd == cmd
            &&& self->Dylib_0.name@ == vstd::utf8::decode_utf8(command_text(s, at))
            &&& self->Dylib_0.timestamp == bytes::le32(s, at + 12)
            &&& self->Dylib_0.current_version == bytes::le32(s, at + 16)
            &&& self->Dylib_0.compatibility_version == bytes::le32(s, at + 20)
        } else if cmd == LC_RPATH {
            self is Rpath && self->Rpath_0.path@ == vstd::utf8::decode_utf8(command_text(s, at))
        } else if cmd == LC_BUILD_VERSION {
            self is BuildVersion && self->BuildVersion_0.decodes(s, at)
        } else {
            &&& self is Raw
            &&& self->Raw_cmd == cmd
            &&& self->Raw_cmdsize == cmdsize
            &&& self->Raw_data@ == s.subrange(at + 8, at + cmdsize)
        }
    }
}

pub(crate) fn array16(bytes: &[u8], at: usize) -> (r: [u8; 16])
    requires
        at + 16 <= bytes@.len(),
    ensures
        r@ == bytes@.subrange(at as int, at + 16),
{
    assert(bytes.len() == bytes@.len());
    let r: [u8; 16] = [
        bytes[at],
        bytes[at + 1],
        bytes[at + 2],
        bytes[at + 3],
        bytes[at + 4],
        bytes[at + 5],
        bytes[at + 6],
        bytes[at + 7],
        bytes[at + 8],
        bytes[at + 9],
        bytes[at + 10],
        bytes[at + 11],
        bytes[at + 12],
        bytes[at + 13],
        bytes[at + 14],
        bytes[at + 15],
    ];
    assert(r@ =~= bytes@.subrange(at as int, at + 16));
    r
}

fn parse_section_header(bytes: &[u8], at: usize) -> (r: Section64Header)
    requires
        at + 80 <= bytes@.len(),
    ensures
        r.decodes(bytes@, at as int),
{
    assert(bytes.len() == bytes@.len());
    Section64Header {
        sectname: array16(bytes, at),
        segname: array16(bytes, at + 16),
        addr: read_u64(bytes, at + 32),
        size: read_u64(bytes, at + 40),
        offset: read_u32(bytes, at + 48),
        align: read_u32(bytes, at + 52),
        reloff: read_u32(bytes, at + 56),
        nreloc: read_u32(bytes, at + 60),
        flags: read_u32(bytes, at + 64),
        reserved1: read_u32(bytes, at + 68),
        reserved2: read_u32(bytes, at + 72),
        reserved3: read_u32(bytes, at + 76),
    }
}

fn parse_segment(bytes: &[u8], at: usize) -> (r: Segment64)
    requires
        at + 72 <= bytes@.len(),
        at + 72 + 80 * bytes::le32(bytes@, at + 64) <= bytes@.len(),
    ensures
        r.decodes(bytes@, at as int),
{
    assert(bytes.len() == bytes@.len());
    let n: usize = read_u32(bytes, at + 64) as usize;
    let mut sections: Vec<Section64Header> = Vec::new();
    let mut i: usize = 0;
    while i < n
        invariant
            i <= n,
            n == bytes::le32(bytes@, at + 64),
            at + 72 + 80 * n <= bytes@.len() <= usize::MAX,
            sections@.len() == i,
            forall|k: int|
                0 <= k < i ==> (#[trigger] sections@[k]).decodes(bytes@, at + 72 + 80 * k),
        decreases n - i,
    {
        sections.push(parse_section_header(bytes, at + 72 + 80 * i));
        i += 1;
    }
    Segment64 {
        segname: array16(bytes, at + 8),
        vmaddr: read_u64(bytes, at + 24),
        vmsize: read_u64(bytes, at + 32),
        fileoff: read_u64(bytes, at + 40),
        filesize: read_u64(bytes, at + 48),
        maxprot: read_u32(bytes, at + 56),
        initprot: read_u32(bytes, at + 60),
        flags: read_u32(bytes, at + 68),
        sections,
    }
}

fn parse_build_version(bytes: &[u8], at: usize) -> (r: BuildVersionCmd)
    requires
        at + 24 <= bytes@.len(),
        at + 24 + 8 * bytes::le32(bytes@, at + 20) <= bytes@.len(),
    ensures
        r.decodes(bytes@, at as int),
{
    assert(bytes.len() == bytes@.len());
    let n: usize = read_u32(bytes, at + 20) as usize;
    let mut tools: Vec<BuildTool> = Vec::new();
    let mut i: usize = 0;
    while i < n
        invariant
            i <= n,
            n == bytes::le32(bytes@, at + 20),
            at + 24 + 8 * n <= bytes@.len() <= usize::MAX,
            tools@.len() == i,
            forall|k: int|
                0 <= k < i ==> #[trigger] tools@[k] == (BuildTool {
                    tool: bytes::le32(bytes@, at + 24 + 8 * k),
                    version: bytes::le32(bytes@, at + 28 + 8 * k),
                }),
        decreases n - i,
    {
        tools.push(
            BuildTool {
                tool: read_u32(bytes, at + 24 + 8 * i),
                version: read_u32(bytes, at + 28 + 8 * i),
            },
        );
        i += 1;
    }
    BuildVersionCmd {
        platform: read_u32(bytes, at + 8),
        minos: read_u32(bytes, at + 12),
        sdk: read_u32(bytes, at + 16),
        tools,
    }
}

fn parse_dysymtab(bytes: &[u8], at: usize) -> (r: DysymtabCmd)
    requires
        at + 80 <= bytes@.len(),
    ensures
        r == DysymtabCmd::decoded(bytes@, at as int),
{
    assert(bytes.len() == bytes@.len());
    DysymtabCmd {
        ilocalsym: read_u32(bytes, at + 8),
        nlocalsym: read_u32(bytes, at + 12),
        iextdefsym: read_u32(bytes, at + 16),
        nextdefsym: read_u32(bytes, at + 20),
        iundefsym: read_u32(bytes, at + 24),
        nundefsym: read_u32(bytes, at + 28),
        tocoff: read_u32(bytes, at + 32),
        ntoc: read_u32(bytes, at + 36),
        modtaboff: read_u32(bytes, at + 40),
        nmodtab: read_u32(bytes, at + 44),
        extrefsymoff: read_u32(bytes, at + 48),
        nextrefsyms: read_u32(bytes, at + 52),
        indirectsymoff: read_u32(bytes, at + 56),
        nindirectsyms: read_u32(bytes, at + 60),
        extreloff: read_u32(bytes, at + 64),
        nextrel: read_u32(bytes, at + 68),
        locreloff: read_u32(bytes, at + 72),
        nlocrel: read_u32(bytes, at + 76),
    }
}

fn parse_dyld_info(bytes: &[u8], at: usize) -> (r: DyldInfoCmd)
    requires
        at + 48 <= bytes@.len(),
    ensures
        r == DyldInfoCmd::decoded(bytes@, at as int),
{
    assert(bytes.len() == bytes@.len());
    DyldInfoCmd {
        rebase_off: read_u32(bytes, at + 8),
        rebase_size: read_u32(bytes, at + 12),
        bind_off: read_u32(bytes, at + 16),
        bind_size: read_u32(bytes, at + 20),
        weak_bind_off: read_u32(bytes, at + 24),
        weak_bind_size: read_u32(bytes, at + 28),
        lazy_bind_off: read_u32(bytes, at + 32),
        lazy_bind_size: read_u32(bytes, at + 36),
        export_off: read_u32(bytes, at + 40),
        export_size: read_u32(bytes, at + 44),
    }
}

/// The text of the command at `at`, unless it is not UTF-8.
fn parse_command_text(bytes: &[u8], at: usize) -> (r: Option<String>)
    requires
        at + 12 <= bytes@.len(),
        bytes::le32(bytes@, at + 8) <= bytes::le32(bytes@, at + 4),
        at + bytes::le32(bytes@, at + 4) <= bytes@.len(),
    ensures
        match r {
            Some(name) => vstd::utf8::valid_utf8(command_text(bytes@, at as int)) && name@
                == vstd::utf8::decode_utf8(command_text(bytes@, at as int)),
            None => !vstd::utf8::valid_utf8(command_text(bytes@, at as int)),
        },
{
    assert(bytes.len() == bytes@.len());
    let start: usize = at + read_u32(bytes, at + 8) as usize;
    let end: usize = at + read_u32(bytes, at + 4) as usize;
    let stop: usize = find_nul(bytes, start, end);
    match core::str::from_utf8(vstd::slice::slice_subrange(bytes, start, stop)) {
        Ok(name) => Some(name.to_owned()),
        Err(_) => None,
    }
}

fn exec_is_dylib_cmd(cmd: u32) -> (r: bool)
    ensures
        r == is_dylib_cmd(cmd),
{
    cmd == LC_ID_DYLIB || cmd == LC_LOAD_DYLIB || cmd == LC_LOAD_WEAK_DYLIB || cmd
        == LC_REEXPORT_DYLIB || cmd == LC_LOAD_UPWARD_DYLIB
}

fn fixed_part(cmd: u32) -> (r: u32)
    ensures
        r == min_cmdsize(cmd),
{
    if cmd == LC_SEGMENT_64 {
        72
    } else if cmd == LC_SYMTAB || exec_is_dylib_cmd(cmd) || cmd == LC_BUILD_VERSION {
        24
    } else if cmd == LC_DYSYMTAB {
        80
    } else if cmd == LC_DYLD_INFO_ONLY {
        48
    } else if cmd == LC_DYLD_EXPORTS_TRIE {
        16
    } else if cmd == LC_RPATH {
        12
    } else {
        8
    }
}

fn parse_command(bytes: &[u8], at: usize) -> (r: Result<LoadCommand, ReadError>)
    ensures
        match r {
            Ok(c) => command_error(bytes@, at as int) is None && c.decodes(bytes@, at as int),
            Err(e) => command_error(bytes@, at as int) == Some(e),
        },
{
    if at > bytes.len() || bytes.len() - at < 8 {
        return Err(
            ReadError::Truncated {
                need: match at.checked_add(8) {
                    Some(need) => need,
                    None => usize::MAX,
                },
                have: bytes.len(),
                context: "load command header",
            },
        );
    }
    let cmd: u32 = read_u32(bytes, at);
    let cmdsize: u32 = read_u32(bytes, at + 4);
    if cmdsize < fixed_part(cmd) {
        return Err(
            ReadError::BadCmdsize {
                cmd,
                cmdsize,
                at_offset: at,
                reason: "smaller than the command's fixed part",
            },
        );
    }
    if cmdsize as usize > bytes.len() - at {
        return Err(
            ReadError::Truncated {
                need: match at.checked_add(cmdsize as usize) {
                    Some(need) => need,
                    None => usize::MAX,
                },
                have: bytes.len(),
                context: "load command",
            },
        );
    }
    if cmd == LC_SEGMENT_64 {
        if 72 + 80 * (read_u32(bytes, at + 64) as u64) > cmdsize as u64 {
            return Err(
                ReadError::BadCmdsize {
                    cmd,
                    cmdsize,
                    at_offset: at,
                    reason: "section headers run past the command",
                },
            );
        }
        return Ok(LoadCommand::Segment64(parse_segment(bytes, at)));
    }
    if cmd == LC_BUILD_VERSION {
        if 24 + 8 * (read_u32(bytes, at + 20) as u64) > cmdsize as u64 {
            return Err(
                ReadError::BadCmdsize {
                    cmd,
                    cmdsize,
                    at_offset: at,
                    reason: "tool entries run past the command",
                },
            );
        }
        return Ok(LoadCommand::BuildVersion(parse_build_version(bytes, at)));
    }
    if exec_is_dylib_cmd(cmd) || cmd == LC_RPATH {
        if read_u32(bytes, at + 8) > cmdsize {
            return Err(
                ReadError::BadCmdsize {
                    cmd,
                    cmdsize,
                    at_offset: at,
                    reason: "string offset past the command",
                },
            );
        }
        let name = match parse_command_text(bytes, at) {
            Some(name) => name,
            None => return Err(
                ReadError::BadCmdsize {
                    cmd,
                    cmdsize,
                    at_offset: at,
                    reason: "non-UTF-8 bytes in a string",
                },
            ),
        };
        if cmd == LC_RPATH {
            return Ok(LoadCommand::Rpath(RpathCmd { path: name }));
        }
        return Ok(
            LoadCommand::Dylib(
                DylibCmd {
                    cmd,
                    name,
                    timestamp: read_u32(bytes, at + 12),
                    current_version: read_u32(bytes, at + 16),
                    compatibility_version: read_u32(bytes, at + 20),
                },
            ),
        );
    }
    if cmd == LC_SYMTAB {
        return Ok(
            LoadCommand::Symtab(
                SymtabCmd {
                    symoff: read_u32(bytes, at + 8),
                    nsyms: read_u32(bytes, at + 12),
                    stroff: read_u32(bytes, at + 16),
                    strsize: read_u32(bytes, at + 20),
                },
            ),
        );
    }
    if cmd == LC_DYSYMTAB {
        return Ok(LoadCommand::Dysymtab(parse_dysymtab(bytes, at)));
    }
    if cmd == LC_DYLD_INFO_ONLY {
        return Ok(LoadCommand::DyldInfoOnly(parse_dyld_info(bytes, at)));
    }
    if cmd == LC_DYLD_EXPORTS_TRIE {
        return Ok(
            LoadCommand::DyldExportsTrie(
                LinkEditDataCmd {
                    dataoff: read_u32(bytes, at + 8),
                    datasize: read_u32(bytes, at + 12),
                },
            ),
        );
    }
    Ok(
        LoadCommand::Raw {
            cmd,
            cmdsize,
            data: vstd::slice::slice_to_vec(
                vstd::slice::slice_subrange(bytes, at + 8, at + cmdsize as usize),
            ),
        },
    )
}

/// Where the `k`-th command behind `at` starts.
pub open spec fn command_start(s: Seq<u8>, at: int, k: nat) -> int
    decreases k,
{
    if k == 0 {
        at
    } else {
        let prev = command_start(s, at, (k - 1) as nat);
        prev + bytes::le32(s, prev + 4)
    }
}

/// The error of the first of `n` commands behind `at` that has one.
pub open spec fn commands_error(s: Seq<u8>, at: int, n: nat) -> Option<ReadError>
    decreases n,
{
    if n == 0 {
        None
    } else if commands_error(s, at, (n - 1) as nat) is Some {
        commands_error(s, at, (n - 1) as nat)
    } else {
        command_error(s, command_start(s, at, (n - 1) as nat))
    }
}

/// The commands are the ones behind the header.
pub open spec fn commands_decode(commands: Seq<LoadCommand>, s: Seq<u8>, n: nat) -> bool {
    &&& commands.len() == n
    &&& forall|k: int|
        0 <= k < n ==> (#[trigger] commands[k]).decodes(
            s,
            command_start(s, HEADER_SIZE as int, k as nat),
        )
}

proof fn lemma_commands_error_stays(s: Seq<u8>, at: int, k: nat, n: nat)
    requires
        k <= n,
        commands_error(s, at, k) is Some,
    ensures
        commands_error(s, at, n) == commands_error(s, at, k),
    decreases n,
{
    if k < n {
        lemma_commands_error_stays(s, at, k, (n - 1) as nat);
    }
}

/// Reads the `ncmds` load commands that follow the header.
pub fn parse_commands(header: &MachHeader64, bytes: &[u8]) -> (r: Result<
    Vec<LoadCommand>,
    ReadError,
>)
    ensures
        match r {
            Ok(commands) => commands_error(bytes@, HEADER_SIZE as int, header.ncmds as nat) is None
                && commands_decode(commands@, bytes@, header.ncmds as nat),
            Err(e) => commands_error(bytes@, HEADER_SIZE as int, header.ncmds as nat) == Some(e),
        },
{
    let n: u32 = header.ncmds;
    let mut commands: Vec<LoadCommand> = Vec::new();
    let mut at: usize = HEADER_SIZE;
    let mut i: u32 = 0;
    while i < n
        invariant
            i <= n,
            n == header.ncmds,
            at == command_start(bytes@, HEADER_SIZE as int, i as nat),
            commands_error(bytes@, HEADER_SIZE as int, i as nat) is None,
            commands_decode(commands@, bytes@, i as nat),
        decreases n - i,
    {
        match parse_command(bytes, at) {
            Ok(c) => {
                assert(bytes.len() == bytes@.len());
                let size: usize = read_u32(bytes, at + 4) as usize;
                commands.push(c);
                at = at + size;
            },
            Err(e) => {
                proof {
                    assert(commands_error(bytes@, HEADER_SIZE as int, (i + 1) as nat) == Some(e));
                    lemma_commands_error_stays(
                        bytes@,
                        HEADER_SIZE as int,
                        (i + 1) as nat,
                        n as nat,
                    );
                }
                return Err(e);
            },
        }
        i += 1;
    }
    Ok(commands)
}

} // verus!
