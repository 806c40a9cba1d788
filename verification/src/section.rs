//! Sections of input files and of the output image.

use vstd::prelude::*;
use crate::macho::constants::{
    SECTION_TYPE_MASK, S_16BYTE_LITERALS, S_4BYTE_LITERALS, S_8BYTE_LITERALS, S_ATTR_DEBUG,
    S_ATTR_PURE_INSTRUCTIONS, S_COALESCED, S_CSTRING_LITERALS, S_GB_ZEROFILL,
    S_LAZY_SYMBOL_POINTERS, S_NON_LAZY_SYMBOL_POINTERS, S_REGULAR, S_SYMBOL_STUBS,
    S_THREAD_LOCAL_INIT_FUNCTION_POINTERS, S_THREAD_LOCAL_REGULAR, S_THREAD_LOCAL_VARIABLES,
    S_THREAD_LOCAL_ZEROFILL, S_ZEROFILL,
};
use crate::macho::reader;
use crate::macho::reader::{name16_str, ReadError, Section64Header};
use crate::resolve::AtomId;
use crate::text::same_text;

verus! {

/// What a section holds. The type nibble decides, and the section's name where
/// the nibble alone is ambiguous.
#[derive(Debug, Clone, Copy, PartialEq, Eq, Structural)]
pub enum SectionKind {
    /// Regular code with `S_ATTR_PURE_INSTRUCTIONS` set.
    Text,
    /// Regular data (`S_REGULAR` with none of the attribute markers).
    Data,
    /// `__TEXT,__const`: immutable data.
    ConstData,
    /// `__TEXT,__cstring` (`S_CSTRING_LITERALS`).
    CStringLiterals,
    Literal4,
    Literal8,
    Literal16,
    /// Uninitialized storage (`S_ZEROFILL`).
    ZeroFill,
    /// Uninitialized storage of more than 4 GiB.
    GbZeroFill,
    /// Coalesced (`S_COALESCED`).
    Coalesced,
    /// Thread-local initialized data.
    ThreadLocalRegular,
    /// Thread-local zerofill.
    ThreadLocalZeroFill,
    /// TLV descriptors (`S_THREAD_LOCAL_VARIABLES`).
    ThreadLocalVariables,
    /// TLV init function pointers.
    ThreadLocalInitPointers,
    /// `__TEXT,__compact_unwind` (`S_REGULAR` + `S_ATTR_DEBUG`).
    CompactUnwind,
    /// `__TEXT,__eh_frame` (`S_COALESCED`).
    EhFrame,
    /// Non-lazy symbol pointers, typically `__DATA_CONST,__got`.
    NonLazySymbolPointers,
    /// Lazy symbol pointers, typically `__DATA,__la_symbol_ptr`.
    LazySymbolPointers,
    /// Symbol stubs, typically `__TEXT,__stubs`.
    SymbolStubs,
    /// Any other regular section not otherwise classified.
    Regular,
    /// Unknown section type nibble, with the nibble.
    Unknown(u8),
}

/// The kind of a section, by its segment name, section name and flags.
pub open spec fn section_kind(segname: Seq<char>, sectname: Seq<char>, flags: u32) -> SectionKind {
    let ty = flags & SECTION_TYPE_MASK;
    if ty == S_ZEROFILL {
        SectionKind::ZeroFill
    } else if ty == S_GB_ZEROFILL {
        SectionKind::GbZeroFill
    } else if ty == S_CSTRING_LITERALS {
        SectionKind::CStringLiterals
    } else if ty == S_4BYTE_LITERALS {
        SectionKind::Literal4
    } else if ty == S_8BYTE_LITERALS {
        SectionKind::Literal8
    } else if ty == S_16BYTE_LITERALS {
        SectionKind::Literal16
    } else if ty == S_NON_LAZY_SYMBOL_POINTERS {
        SectionKind::NonLazySymbolPointers
    } else if ty == S_LAZY_SYMBOL_POINTERS {
        SectionKind::LazySymbolPointers
    } else if ty == S_SYMBOL_STUBS {
        SectionKind::SymbolStubs
    } else if ty == S_COALESCED {
        if sectname == "__eh_frame"@ {
            SectionKind::EhFrame
        } else {
            SectionKind::Coalesced
        }
    } else if ty == S_THREAD_LOCAL_REGULAR {
        SectionKind::ThreadLocalRegular
    } else if ty == S_THREAD_LOCAL_ZEROFILL {
        SectionKind::ThreadLocalZeroFill
    } else if ty == S_THREAD_LOCAL_VARIABLES {
        SectionKind::ThreadLocalVariables
    } else if ty == S_THREAD_LOCAL_INIT_FUNCTION_POINTERS {
        SectionKind::ThreadLocalInitPointers
    } else if ty == S_REGULAR {
        regular_kind(segname, sectname, flags)
    } else {
        SectionKind::Unknown(ty as u8)
    }
}

/// The kind of an `S_REGULAR` section.
pub open spec fn regular_kind(segname: Seq<char>, sectname: Seq<char>, flags: u32) -> SectionKind {
    if flags & S_ATTR_DEBUG != 0 && sectname == "__compact_unwind"@ {
        SectionKind::CompactUnwind
    } else if flags & S_ATTR_PURE_INSTRUCTIONS != 0 {
        SectionKind::Text
    } else if segname == "__TEXT"@ && sectname == "__const"@ {
        SectionKind::ConstData
    } else {
        SectionKind::Data
    }
}

/// Classifies a section by its segment name, section name and wire `flags`.
pub fn classify_section(segname: &str, sectname: &str, flags: u32) -> (r: SectionKind)
    ensures
        r == section_kind(segname@, sectname@, flags),
{
    let ty: u32 = flags & SECTION_TYPE_MASK;
    match ty {
        S_ZEROFILL => SectionKind::ZeroFill,
        S_GB_ZEROFILL => SectionKind::GbZeroFill,
        S_CSTRING_LITERALS => SectionKind::CStringLiterals,
        S_4BYTE_LITERALS => SectionKind::Literal4,
        S_8BYTE_LITERALS => SectionKind::Literal8,
        S_16BYTE_LITERALS => SectionKind::Literal16,
        S_NON_LAZY_SYMBOL_POINTERS => SectionKind::NonLazySymbolPointers,
        S_LAZY_SYMBOL_POINTERS => SectionKind::LazySymbolPointers,
        S_SYMBOL_STUBS => SectionKind::SymbolStubs,
        S_COALESCED => {
            if same_text(sectname, "__eh_frame") {
                SectionKind::EhFrame
            } else {
                SectionKind::Coalesced
            }
        },
        S_THREAD_LOCAL_REGULAR => SectionKind::ThreadLocalRegular,
        S_THREAD_LOCAL_ZEROFILL => SectionKind::ThreadLocalZeroFill,
        S_THREAD_LOCAL_VARIABLES => SectionKind::ThreadLocalVariables,
        S_THREAD_LOCAL_INIT_FUNCTION_POINTERS => SectionKind::ThreadLocalInitPointers,
        S_REGULAR => classify_regular(segname, sectname, flags),
        _ => SectionKind::Unknown(ty as u8),
    }
}

fn classify_regular(segname: &str, sectname: &str, flags: u32) -> (r: SectionKind)
    ensures
        r == regular_kind(segname@, sectname@, flags),
{
    if flags & S_ATTR_DEBUG != 0 && same_text(sectname, "__compact_unwind") {
        return SectionKind::CompactUnwind;
    }
    if flags & S_ATTR_PURE_INSTRUCTIONS != 0 {
        return SectionKind::Text;
    }
    if same_text(segname, "__TEXT") && same_text(sectname, "__const") {
        return SectionKind::ConstData;
    }
    SectionKind::Data
}

pub open spec fn kind_is_zerofill(kind: SectionKind) -> bool {
    kind == SectionKind::ZeroFill || kind == SectionKind::GbZeroFill || kind
        == SectionKind::ThreadLocalZeroFill
}

/// True if the section holds no bytes in the file (its size is virtual).
pub fn is_zerofill(kind: SectionKind) -> (r: bool)
    ensures
        r == kind_is_zerofill(kind),
{
    matches!(
        kind,
        SectionKind::ZeroFill | SectionKind::GbZeroFill | SectionKind::ThreadLocalZeroFill
    )
}

pub open spec fn kind_is_executable(kind: SectionKind) -> bool {
    kind == SectionKind::Text || kind == SectionKind::SymbolStubs || kind == SectionKind::Coalesced
}

/// True if the section carries ARM64 instructions.
pub fn is_executable(kind: SectionKind) -> (r: bool)
    ensures
        r == kind_is_executable(kind),
{
    matches!(
        kind,
        SectionKind::Text | SectionKind::SymbolStubs | SectionKind::Coalesced
    )
}

/// One section of an input file: its header, what it holds, its content and the
/// bytes of its relocation entries.
#[derive(Debug, Clone, PartialEq, Eq)]
pub struct InputSection {
    pub segname: String,
    pub sectname: String,
    pub kind: SectionKind,
    pub addr: u64,
    pub size: u64,
    pub align_pow2: u32,
    pub flags: u32,
    pub offset: u32,
    pub reloff: u32,
    pub nreloc: u32,
    pub reserved1: u32,
    pub reserved2: u32,
    pub reserved3: u32,
    /// File-backed bytes of the section. Empty for the zerofill kinds.
    pub data: Vec<u8>,
    /// `nreloc` entries of eight bytes each.
    pub raw_relocs: Vec<u8>,
}

/// The kind that a section's header gives it.
pub open spec fn header_kind(hdr: Section64Header) -> SectionKind {
    section_kind(reader::name16_chars(hdr.segname@), reader::name16_chars(hdr.sectname@), hdr.flags)
}

/// A range of `len` bytes at `start`, or why the file does not hold it.
pub open spec fn range_error(
    file: Seq<u8>,
    start: int,
    len: int,
    overflow: &'static str,
    short: &'static str,
) -> Option<ReadError> {
    let have = file.len() as usize;
    if start + len > usize::MAX {
        Some(ReadError::Truncated { need: usize::MAX, have, context: overflow })
    } else if start + len > file.len() {
        Some(ReadError::Truncated { need: (start + len) as usize, have, context: short })
    } else {
        None
    }
}

/// Why the content that the header describes is not in the file.
pub open spec fn content_error(hdr: Section64Header, file: Seq<u8>) -> Option<ReadError> {
    if kind_is_zerofill(header_kind(hdr)) {
        None
    } else {
        range_error(
            file,
            hdr.offset as int,
            (hdr.size as usize) as int,
            "section content (offset + size overflows)",
            "section content",
        )
    }
}

/// Why the relocations that the header describes are not in the file.
pub open spec fn relocs_error(hdr: Section64Header, file: Seq<u8>) -> Option<ReadError> {
    if hdr.nreloc == 0 {
        None
    } else if hdr.nreloc * 8 > usize::MAX {
        Some(
            ReadError::Truncated {
                need: usize::MAX,
                have: file.len() as usize,
                context: "section relocs (nreloc × 8 overflows)",
            },
        )
    } else {
        range_error(
            file,
            hdr.reloff as int,
            hdr.nreloc * 8,
            "section relocs (reloff + size overflows)",
            "section relocs",
        )
    }
}

fn copy_range(bytes: &[u8], start: usize, end: usize) -> (out: Vec<u8>)
    requires
        start <= end <= bytes@.len(),
    ensures
        out@ == bytes@.subrange(start as int, end as int),
{
    vstd::slice::slice_to_vec(vstd::slice::slice_subrange(bytes, start, end))
}

impl InputSection {
    /// The section is what the header describes in the file.
    pub open spec fn lifted(self, hdr: Section64Header, file: Seq<u8>) -> bool {
        &&& self.segname@ == reader::name16_chars(hdr.segname@)
        &&& self.sectname@ == reader::name16_chars(hdr.sectname@)
        &&& self.kind == header_kind(hdr)
        &&& self.addr == hdr.addr
        &&& self.size == hdr.size
        &&& self.align_pow2 == hdr.align
        &&& self.flags == hdr.flags
        &&& self.offset == hdr.offset
        &&& self.reloff == hdr.reloff
        &&& self.nreloc == hdr.nreloc
        &&& self.reserved1 == hdr.reserved1
        &&& self.reserved2 == hdr.reserved2
        &&& self.reserved3 == hdr.reserved3
        &&& self.data@ == if kind_is_zerofill(header_kind(hdr)) {
            Seq::<u8>::empty()
        } else {
            file.subrange(hdr.offset as int, hdr.offset + (hdr.size as usize))
        }
        &&& self.raw_relocs@ == if hdr.nreloc == 0 {
            Seq::<u8>::empty()
        } else {
            file.subrange(hdr.reloff as int, hdr.reloff + 8 * hdr.nreloc)
        }
    }

    /// Lifts the section that the decoded header describes out of a file image.
    pub fn from_header(hdr: &Section64Header, file_bytes: &[u8]) -> (r: Result<
        InputSection,
        ReadError,
    >)
        ensures
            match r {
                Ok(section) => content_error(*hdr, file_bytes@) is None && relocs_error(
                    *hdr,
                    file_bytes@,
                ) is None && section.lifted(*hdr, file_bytes@),
                Err(e) => if content_error(*hdr, file_bytes@) is Some {
                    content_error(*hdr, file_bytes@) == Some(e)
                } else {
                    relocs_error(*hdr, file_bytes@) == Some(e)
                },
            },
    {
        let segname = name16_str(&hdr.segname);
        let sectname = name16_str(&hdr.sectname);
        let kind = classify_section(segname.as_str(), sectname.as_str(), hdr.flags);
        let data: Vec<u8> = if is_zerofill(kind) {
            Vec::new()
        } else {
            let start: usize = hdr.offset as usize;
            let end: usize = match start.checked_add(hdr.size as usize) {
                Some(end) => end,
                None => return Err(
                    ReadError::Truncated {
                        need: usize::MAX,
                        have: file_bytes.len(),
                        context: "section content (offset + size overflows)",
                    },
                ),
            };
            if end > file_bytes.len() {
                return Err(
                    ReadError::Truncated {
                        need: end,
                        have: file_bytes.len(),
                        context: "section content",
                    },
                );
            }
            copy_range(file_bytes, start, end)
        };
        let raw_relocs: Vec<u8> = if hdr.nreloc == 0 {
            Vec::new()
        } else {
            let start: usize = hdr.reloff as usize;
            let total: usize = match (hdr.nreloc as usize).checked_mul(8) {
                Some(total) => total,
                None => return Err(
                    ReadError::Truncated {
                        need: usize::MAX,
                        have: file_bytes.len(),
                        context: "section relocs (nreloc × 8 overflows)",
                    },
                ),
            };
            let end: usize = match start.checked_add(total) {
                Some(end) => end,
                None => return Err(
                    ReadError::Truncated {
                        need: usize::MAX,
                        have: file_bytes.len(),
                        context: "section relocs (reloff + size overflows)",
                    },
                ),
            };
            if end > file_bytes.len() {
                return Err(
                    ReadError::Truncated {
                        need: end,
                        have: file_bytes.len(),
                        context: "section relocs",
                    },
                );
            }
            copy_range(file_bytes, start, end)
        };
        Ok(
            InputSection {
                segname,
                sectname,
                kind,
                addr: hdr.addr,
                size: hdr.size,
                align_pow2: hdr.align,
                flags: hdr.flags,
                offset: hdr.offset,
                reloff: hdr.reloff,
                nreloc: hdr.nreloc,
                reserved1: hdr.reserved1,
                reserved2: hdr.reserved2,
                reserved3: hdr.reserved3,
                data,
                raw_relocs,
            },
        )
    }
}

/// A section's place in the output layout.
#[derive(Debug, Clone, Copy, PartialEq, Eq, Hash, PartialOrd, Ord, Structural)]
pub struct OutputSectionId(pub u32);

/// Page protection of a segment.
#[derive(Debug, Clone, Copy, PartialEq, Eq, Structural)]
pub struct Prot(pub u32);

impl Prot {
    /// No access.
    pub fn none() -> (r: Prot)
        ensures
            r == Prot(0),
    {
        Prot(0)
    }

    /// Readable.
    pub fn read() -> (r: Prot)
        ensures
            r == Prot(1),
    {
        Prot(1)
    }

    /// Writable.
    pub fn write() -> (r: Prot)
        ensures
            r == Prot(2),
    {
        Prot(2)
    }

    /// Executable.
    pub fn execute() -> (r: Prot)
        ensures
            r == Prot(4),
    {
        Prot(4)
    }

    /// Readable and nothing else.
    pub fn read_only() -> (r: Prot)
        ensures
            r == Prot(1),
    {
        Prot(1)
    }

    /// Readable and writable.
    pub fn read_write() -> (r: Prot)
        ensures
            r == Prot(3),
    {
        Prot(3)
    }

    /// Readable and executable.
    pub fn read_execute() -> (r: Prot)
        ensures
            r == Prot(5),
    {
        Prot(5)
    }

    pub fn bits(self) -> (r: u32)
        ensures
            r == self.0,
    {
        self.0
    }
}

/// An atom's place and bytes in an output section.
#[derive(Debug, Clone, PartialEq, Eq)]
pub struct OutputAtom {
    pub atom: AtomId,
    pub offset: u64,
    pub size: u64,
    pub data: Vec<u8>,
}

#[derive(Debug, Clone, PartialEq, Eq)]
pub struct OutputSection {
    pub segment: String,
    pub name: String,
    pub kind: SectionKind,
    pub align_pow2: u8,
    pub flags: u32,
    pub reserved1: u32,
    pub reserved2: u32,
    pub reserved3: u32,
    pub atoms: Vec<OutputAtom>,
    pub synthetic_offset: u64,
    pub synthetic_data: Vec<u8>,
    pub addr: u64,
    pub size: u64,
    pub file_off: u64,
}

#[derive(Debug, Clone, PartialEq, Eq)]
pub struct OutputSegment {
    pub name: String,
    pub sections: Vec<OutputSectionId>,
    pub vm_addr: u64,
    pub vm_size: u64,
    pub file_off: u64,
    pub file_size: u64,
    pub init_prot: Prot,
    pub max_prot: Prot,
    pub flags: u32,
}

impl OutputSection {
    pub fn is_zerofill(&self) -> (r: bool)
        ensures
            r == kind_is_zerofill(self.kind),
    {
        is_zerofill(self.kind)
    }
}

/// A section has no bytes in the file exactly where its type says that it is filled with
/// zeros. A regular section of instructions holds code, and one without them data, but for
/// unwind tables and the constants beside the code.
pub proof fn law_section_types(segname: Seq<char>, sectname: Seq<char>, flags: u32)
    ensures
        ({
            let kind = section_kind(segname, sectname, flags);
            let ty = flags & 0xff;
            &&& kind_is_zerofill(kind) <==> ty == 0x1 || ty == 0xc || ty == 0x12
            &&& ty == 0 && flags & 0x8000_0000 != 0 && sectname != "__compact_unwind"@ ==> kind
                == SectionKind::Text
            &&& ty == 0 && flags & 0x8000_0000 == 0 && sectname != "__compact_unwind"@
                && segname != "__TEXT"@ ==> kind == SectionKind::Data
            &&& ty == 0x2 ==> kind == SectionKind::CStringLiterals
            &&& ty == 0x8 ==> kind == SectionKind::SymbolStubs
            &&& ty == 0x13 ==> kind == SectionKind::ThreadLocalVariables
        }),
{
}

} // verus!
