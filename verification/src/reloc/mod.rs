//! ARM64 Mach-O relocations.
//!
//! On the wire a `relocation_info` is eight bytes, little-endian: a signed
//! `r_address`, then a word that packs, from the low bit up, `r_symbolnum` (24
//! bits), `r_pcrel` (1), `r_length` (2), `r_extern` (1) and `r_type` (4).
//!
//! `RawRelocation` holds one such entry. `parse_relocs` folds `ADDEND` prefixes
//! and `SUBTRACTOR` + `UNSIGNED` pairs into the entry they belong to, and
//! `write_relocs` unfolds them again.

use std::collections::HashMap;
use vstd::prelude::*;
use crate::bytes;
use crate::bytes::{push_u32, read_u32};
use crate::macho::constants::{
    ARM64_RELOC_ADDEND, ARM64_RELOC_BRANCH26, ARM64_RELOC_GOT_LOAD_PAGE21,
    ARM64_RELOC_GOT_LOAD_PAGEOFF12, ARM64_RELOC_PAGE21, ARM64_RELOC_PAGEOFF12,
    ARM64_RELOC_POINTER_TO_GOT, ARM64_RELOC_SUBTRACTOR, ARM64_RELOC_TLVP_LOAD_PAGE21,
    ARM64_RELOC_TLVP_LOAD_PAGEOFF12, ARM64_RELOC_UNSIGNED,
};
use crate::macho::reader::ReadError;
use crate::model;

pub mod arm64;
pub mod laws;

verus! {

/// Size of one `relocation_info` on the wire.
pub const RAW_RELOC_SIZE: usize = 8;

/// One relocation entry as it stands in the file, its bit fields taken apart.
#[derive(Debug, Clone, Copy, PartialEq, Eq, Structural)]
pub struct RawRelocation {
    pub r_address: i32,
    pub r_symbolnum: u32,
    pub r_pcrel: bool,
    pub r_length: u8,
    pub r_extern: bool,
    pub r_type: u8,
}

pub open spec fn bit(b: bool) -> u32 {
    if b {
        1
    } else {
        0
    }
}

impl RawRelocation {
    /// The entry whose eight bytes start at `at`.
    pub open spec fn decoded(s: Seq<u8>, at: int) -> RawRelocation {
        let info = bytes::le32(s, at + 4);
        RawRelocation {
            r_address: bytes::le32(s, at) as i32,
            r_symbolnum: info & 0x00FF_FFFF,
            r_pcrel: (info >> 24) & 1 != 0,
            r_length: ((info >> 25) & 0b11) as u8,
            r_extern: (info >> 27) & 1 != 0,
            r_type: ((info >> 28) & 0x0f) as u8,
        }
    }

    /// The packed second word.
    pub open spec fn info(self) -> u32 {
        (self.r_symbolnum & 0x00FF_FFFF) | (bit(self.r_pcrel) << 24) | (((self.r_length as u32)
            & 0b11) << 25) | (bit(self.r_extern) << 27) | (((self.r_type as u32) & 0x0f) << 28)
    }

    /// The entry's eight bytes.
    pub open spec fn encoded(self) -> Seq<u8> {
        bytes::le32_bytes(self.r_address as u32) + bytes::le32_bytes(self.info())
    }

    /// Every field fits the width that the wire gives it.
    pub open spec fn fits_wire(self) -> bool {
        &&& self.r_symbolnum <= 0x00FF_FFFF
        &&& self.r_length <= 3
        &&& self.r_type <= 15
    }

    pub fn parse(bytes: &[u8]) -> (r: Result<RawRelocation, ReadError>)
        ensures
            r == if bytes@.len() < RAW_RELOC_SIZE {
                Err::<RawRelocation, ReadError>(
                    ReadError::Truncated {
                        need: RAW_RELOC_SIZE,
                        have: bytes@.len() as usize,
                        context: "relocation_info",
                    },
                )
            } else {
                Ok(RawRelocation::decoded(bytes@, 0))
            },
    {
        if bytes.len() < RAW_RELOC_SIZE {
            return Err(
                ReadError::Truncated {
                    need: RAW_RELOC_SIZE,
                    have: bytes.len(),
                    context: "relocation_info",
                },
            );
        }
        Ok(RawRelocation::decode_at(bytes, 0))
    }

    fn decode_at(bytes: &[u8], at: usize) -> (r: RawRelocation)
        requires
            at + 8 <= bytes@.len(),
        ensures
            r == RawRelocation::decoded(bytes@, at as int),
    {
        assert(bytes.len() == bytes@.len());
        let info: u32 = read_u32(bytes, at + 4);
        RawRelocation {
            r_address: read_u32(bytes, at) as i32,
            r_symbolnum: info & 0x00FF_FFFF,
            r_pcrel: (info >> 24) & 1 != 0,
            r_length: ((info >> 25) & 0b11) as u8,
            r_extern: (info >> 27) & 1 != 0,
            r_type: ((info >> 28) & 0x0f) as u8,
        }
    }

    pub fn write(&self, out: &mut Vec<u8>)
        ensures
            final(out)@ == old(out)@ + self.encoded(),
    {
        push_u32(out, self.r_address as u32);
        let pcrel: u32 = if self.r_pcrel { 1 } else { 0 };
        let ext: u32 = if self.r_extern { 1 } else { 0 };
        let info: u32 = (self.r_symbolnum & 0x00FF_FFFF) | (pcrel << 24) | (((
        self.r_length as u32) & 0b11) << 25) | (ext << 27) | (((self.r_type as u32) & 0x0f) << 28);
        push_u32(out, info);
    }
}

/// What reading `nreloc` entries at `reloff` gives.
pub open spec fn raw_relocs_of(file: Seq<u8>, reloff: u32, nreloc: u32) -> Result<
    Seq<RawRelocation>,
    ReadError,
> {
    let have = file.len() as usize;
    if nreloc * 8 > usize::MAX {
        Err(
            ReadError::Truncated {
                need: usize::MAX,
                have,
                context: "reloc table (nreloc × 8 overflows)",
            },
        )
    } else if reloff + nreloc * 8 > usize::MAX {
        Err(
            ReadError::Truncated {
                need: usize::MAX,
                have,
                context: "reloc table (reloff + size overflows)",
            },
        )
    } else if reloff + nreloc * 8 > file.len() {
        Err(
            ReadError::Truncated {
                need: (reloff + nreloc * 8) as usize,
                have,
                context: "reloc table",
            },
        )
    } else {
        Ok(Seq::new(nreloc as nat, |i: int| RawRelocation::decoded(file, reloff + 8 * i)))
    }
}

/// Reads `nreloc` consecutive entries that start `reloff` bytes into the file.
pub fn parse_raw_relocs(file_bytes: &[u8], reloff: u32, nreloc: u32) -> (r: Result<
    Vec<RawRelocation>,
    ReadError,
>)
    ensures
        model::same_vec(r, raw_relocs_of(file_bytes@, reloff, nreloc)),
{
    let start: usize = reloff as usize;
    let total: usize = match (nreloc as usize).checked_mul(RAW_RELOC_SIZE) {
        Some(total) => total,
        None => return Err(
            ReadError::Truncated {
                need: usize::MAX,
                have: file_bytes.len(),
                context: "reloc table (nreloc × 8 overflows)",
            },
        ),
    };
    let end: usize = match start.checked_add(total) {
        Some(end) => end,
        None => return Err(
            ReadError::Truncated {
                need: usize::MAX,
                have: file_bytes.len(),
                context: "reloc table (reloff + size overflows)",
            },
        ),
    };
    if end > file_bytes.len() {
        return Err(
            ReadError::Truncated { need: end, have: file_bytes.len(), context: "reloc table" },
        );
    }
    let n: usize = nreloc as usize;
    let mut out: Vec<RawRelocation> = Vec::with_capacity(n);
    let mut i: usize = 0;
    while i < n
        invariant
            n == nreloc,
            start == reloff,
            i <= n,
            start + n * 8 <= file_bytes@.len() <= usize::MAX,
            out@ == Seq::new(i as nat, |k: int| RawRelocation::decoded(file_bytes@, reloff + 8 * k)),
        decreases n - i,
    {
        out.push(RawRelocation::decode_at(file_bytes, start + i * RAW_RELOC_SIZE));
        i += 1;
    }
    Ok(out)
}

/// The bytes of all entries, in order.
pub open spec fn raw_relocs_bytes(relocs: Seq<RawRelocation>) -> Seq<u8>
    decreases relocs.len(),
{
    if relocs.len() == 0 {
        seq![]
    } else {
        raw_relocs_bytes(relocs.drop_last()) + relocs.last().encoded()
    }
}

/// Serializes raw relocations back to wire form.
pub fn write_raw_relocs(relocs: &[RawRelocation], out: &mut Vec<u8>)
    ensures
        final(out)@ == old(out)@ + raw_relocs_bytes(relocs@),
{
    let mut i: usize = 0;
    while i < relocs.len()
        invariant
            i <= relocs@.len(),
            out@ == old(out)@ + raw_relocs_bytes(relocs@.take(i as int)),
        decreases relocs@.len() - i,
    {
        relocs[i].write(out);
        assert(relocs@.take(i + 1).drop_last() =~= relocs@.take(i as int));
        i += 1;
    }
    assert(relocs@.take(i as int) =~= relocs@);
}

#[derive(Debug, Clone, Copy, PartialEq, Eq, Structural)]
pub enum RelocKind {
    Unsigned,
    Branch26,
    Page21,
    PageOff12,
    GotLoadPage21,
    GotLoadPageOff12,
    PointerToGot,
    TlvpLoadPage21,
    TlvpLoadPageOff12,
    /// A `SUBTRACTOR` + `UNSIGNED` pair: the value stored is
    /// `minuend - subtrahend + addend`. `referent` is the minuend.
    Subtractor,
}

#[derive(Debug, Clone, Copy, PartialEq, Eq, Structural)]
pub enum RelocLength {
    Byte,
    Half,
    Word,
    Quad,
}

impl RelocLength {
    pub open spec fn spec_from_bits(v: u8) -> Option<RelocLength> {
        if v == 0 {
            Some(RelocLength::Byte)
        } else if v == 1 {
            Some(RelocLength::Half)
        } else if v == 2 {
            Some(RelocLength::Word)
        } else if v == 3 {
            Some(RelocLength::Quad)
        } else {
            None
        }
    }

    pub open spec fn spec_as_bits(self) -> u8 {
        match self {
            RelocLength::Byte => 0,
            RelocLength::Half => 1,
            RelocLength::Word => 2,
            RelocLength::Quad => 3,
        }
    }

    pub open spec fn spec_byte_width(self) -> usize {
        match self {
            RelocLength::Byte => 1,
            RelocLength::Half => 2,
            RelocLength::Word => 4,
            RelocLength::Quad => 8,
        }
    }

    #[verifier::when_used_as_spec(spec_from_bits)]
    pub fn from_bits(v: u8) -> (r: Option<RelocLength>)
        ensures
            r == RelocLength::spec_from_bits(v),
    {
        match v {
            0 => Some(RelocLength::Byte),
            1 => Some(RelocLength::Half),
            2 => Some(RelocLength::Word),
            3 => Some(RelocLength::Quad),
            _ => None,
        }
    }

    #[verifier::when_used_as_spec(spec_as_bits)]
    pub fn as_bits(self) -> (r: u8)
        ensures
            r == self.spec_as_bits(),
    {
        match self {
            RelocLength::Byte => 0,
            RelocLength::Half => 1,
            RelocLength::Word => 2,
            RelocLength::Quad => 3,
        }
    }

    #[verifier::when_used_as_spec(spec_byte_width)]
    pub fn byte_width(self) -> (r: usize)
        ensures
            r == self.spec_byte_width(),
    {
        match self {
            RelocLength::Byte => 1,
            RelocLength::Half => 2,
            RelocLength::Word => 4,
            RelocLength::Quad => 8,
        }
    }
}

/// What a relocation references.
#[derive(Debug, Clone, Copy, PartialEq, Eq, Structural)]
pub enum Referent {
    /// `r_extern` is set: an index into the symbol table.
    Symbol(u32),
    /// `r_extern` is clear: a section number, counted from one.
    Section(u8),
}

/// One relocation in fused form. It stands for one to three wire entries.
#[derive(Debug, Clone, Copy, PartialEq, Eq, Structural)]
pub struct Reloc {
    pub offset: u32,
    pub kind: RelocKind,
    pub length: RelocLength,
    pub pcrel: bool,
    pub referent: Referent,
    pub addend: i64,
    /// Set on `Subtractor` relocations only.
    pub subtrahend: Option<Referent>,
}

/// The relocations of each input section, by the section's key.
pub type ParsedRelocCache = HashMap<u64, Vec<Reloc>>;

/// The relocations of one input section.
pub open spec fn cached(cache: Map<u64, Vec<Reloc>>, key: u64) -> Seq<Reloc> {
    if cache.contains_key(key) {
        cache[key]@
    } else {
        seq![]
    }
}

pub open spec fn bad_reloc<T>(at_offset: u32, reason: &'static str) -> Result<T, ReadError> {
    Err(ReadError::BadRelocation { at_offset, reason })
}

/// The referent of a wire entry.
pub open spec fn referent_of(raw: RawRelocation) -> Result<Referent, ReadError> {
    if raw.r_extern {
        Ok(Referent::Symbol(raw.r_symbolnum))
    } else if raw.r_symbolnum == 0 || raw.r_symbolnum > 255 {
        bad_reloc(raw.r_address as u32, "non-extern reloc with out-of-range section index")
    } else {
        Ok(Referent::Section(raw.r_symbolnum as u8))
    }
}

fn referent_from(raw: &RawRelocation) -> (r: Result<Referent, ReadError>)
    ensures
        r == referent_of(*raw),
{
    if raw.r_extern {
        Ok(Referent::Symbol(raw.r_symbolnum))
    } else {
        if raw.r_symbolnum == 0 || raw.r_symbolnum > 255 {
            return Err(
                ReadError::BadRelocation {
                    at_offset: raw.r_address as u32,
                    reason: "non-extern reloc with out-of-range section index",
                },
            );
        }
        Ok(Referent::Section(raw.r_symbolnum as u8))
    }
}

/// The low 24 bits of `v` read as a two's complement number.
pub open spec fn signed24(v: u32) -> i32 {
    if v & 0x0080_0000 != 0 {
        (v | 0xFF00_0000) as i32
    } else {
        v as i32
    }
}

/// Sign-extends the 24-bit field of an `ADDEND` entry.
fn sign_extend_24(v: u32) -> (r: i32)
    ensures
        r == signed24(v),
{
    if v & 0x0080_0000 != 0 {
        (v | 0xFF00_0000) as i32
    } else {
        v as i32
    }
}

/// The kind that a wire type stands for when it is neither a prefix nor unknown.
pub open spec fn primary_kind(t: u8) -> Option<RelocKind> {
    if t == ARM64_RELOC_UNSIGNED {
        Some(RelocKind::Unsigned)
    } else if t == ARM64_RELOC_BRANCH26 {
        Some(RelocKind::Branch26)
    } else if t == ARM64_RELOC_PAGE21 {
        Some(RelocKind::Page21)
    } else if t == ARM64_RELOC_PAGEOFF12 {
        Some(RelocKind::PageOff12)
    } else if t == ARM64_RELOC_GOT_LOAD_PAGE21 {
        Some(RelocKind::GotLoadPage21)
    } else if t == ARM64_RELOC_GOT_LOAD_PAGEOFF12 {
        Some(RelocKind::GotLoadPageOff12)
    } else if t == ARM64_RELOC_POINTER_TO_GOT {
        Some(RelocKind::PointerToGot)
    } else if t == ARM64_RELOC_TLVP_LOAD_PAGE21 {
        Some(RelocKind::TlvpLoadPage21)
    } else if t == ARM64_RELOC_TLVP_LOAD_PAGEOFF12 {
        Some(RelocKind::TlvpLoadPageOff12)
    } else {
        None
    }
}

fn primary_kind_from_type(t: u8) -> (r: Option<RelocKind>)
    ensures
        r == primary_kind(t),
{
    match t {
        ARM64_RELOC_UNSIGNED => Some(RelocKind::Unsigned),
        ARM64_RELOC_BRANCH26 => Some(RelocKind::Branch26),
        ARM64_RELOC_PAGE21 => Some(RelocKind::Page21),
        ARM64_RELOC_PAGEOFF12 => Some(RelocKind::PageOff12),
        ARM64_RELOC_GOT_LOAD_PAGE21 => Some(RelocKind::GotLoadPage21),
        ARM64_RELOC_GOT_LOAD_PAGEOFF12 => Some(RelocKind::GotLoadPageOff12),
        ARM64_RELOC_POINTER_TO_GOT => Some(RelocKind::PointerToGot),
        ARM64_RELOC_TLVP_LOAD_PAGE21 => Some(RelocKind::TlvpLoadPage21),
        ARM64_RELOC_TLVP_LOAD_PAGEOFF12 => Some(RelocKind::TlvpLoadPageOff12),
        _ => None,
    }
}

/// What has been read of a relocation stream: the finished relocations, and the
/// prefixes that wait for the entry they belong to.
pub struct Fusion {
    pub out: Seq<Reloc>,
    pub addend: Option<i32>,
    pub subtractor: Option<RawRelocation>,
}

/// A stream of which nothing was read yet, or whose last group is complete.
pub open spec fn settled(out: Seq<Reloc>) -> Fusion {
    Fusion { out, addend: None, subtractor: None }
}

/// How a primary entry is fused with the prefixes in front of it.
pub open spec fn fuse_primary(
    addend: Option<i32>,
    subtractor: Option<RawRelocation>,
    raw: RawRelocation,
) -> Result<Reloc, ReadError> {
    let at = raw.r_address as u32;
    match primary_kind(raw.r_type) {
        None => bad_reloc(at, "unknown ARM64_RELOC_* type"),
        Some(kind) => match RelocLength::spec_from_bits(raw.r_length) {
            None => bad_reloc(at, "invalid r_length (must be 0..=3)"),
            Some(length) => match referent_of(raw) {
                Err(e) => Err(e),
                Ok(referent) => {
                    let whole = Reloc {
                        offset: at,
                        kind,
                        length,
                        pcrel: raw.r_pcrel,
                        referent,
                        addend: match addend {
                            Some(v) => v as i64,
                            None => 0,
                        },
                        subtrahend: None,
                    };
                    match subtractor {
                        None => Ok(whole),
                        Some(sub) => if raw.r_type != ARM64_RELOC_UNSIGNED {
                            bad_reloc(at, "SUBTRACTOR must be followed by UNSIGNED")
                        } else if sub.r_address != raw.r_address {
                            bad_reloc(at, "SUBTRACTOR/UNSIGNED pair must share r_address")
                        } else if sub.r_length != raw.r_length {
                            bad_reloc(at, "SUBTRACTOR/UNSIGNED pair must share r_length")
                        } else {
                            match referent_of(sub) {
                                Err(e) => Err(e),
                                Ok(subtrahend) => Ok(
                                    Reloc {
                                        kind: RelocKind::Subtractor,
                                        subtrahend: Some(subtrahend),
                                        ..whole
                                    },
                                ),
                            }
                        },
                    }
                },
            },
        },
    }
}

/// One entry more.
pub open spec fn fuse_step(st: Fusion, raw: RawRelocation) -> Result<Fusion, ReadError> {
    let at = raw.r_address as u32;
    if raw.r_type == ARM64_RELOC_ADDEND {
        if st.addend is Some {
            bad_reloc(at, "two ARM64_RELOC_ADDEND in a row")
        } else if raw.r_extern {
            bad_reloc(at, "ARM64_RELOC_ADDEND must not have r_extern set")
        } else {
            Ok(Fusion { addend: Some(signed24(raw.r_symbolnum)), ..st })
        }
    } else if raw.r_type == ARM64_RELOC_SUBTRACTOR {
        if st.subtractor is Some {
            bad_reloc(at, "two ARM64_RELOC_SUBTRACTOR in a row")
        } else {
            Ok(Fusion { subtractor: Some(raw), ..st })
        }
    } else {
        match fuse_primary(st.addend, st.subtractor, raw) {
            Err(e) => Err(e),
            Ok(reloc) => Ok(settled(st.out.push(reloc))),
        }
    }
}

/// All entries, one after the other, up to the first that is malformed.
pub open spec fn fuse_from(st: Fusion, raws: Seq<RawRelocation>) -> Result<Fusion, ReadError>
    decreases raws.len(),
{
    if raws.len() == 0 {
        Ok(st)
    } else {
        match fuse_step(st, raws.first()) {
            Err(e) => Err(e),
            Ok(next) => fuse_from(next, raws.drop_first()),
        }
    }
}

/// No prefix may be left over at the end.
pub open spec fn fuse_end(st: Fusion) -> Result<Seq<Reloc>, ReadError> {
    if st.addend is Some {
        bad_reloc(0, "trailing ARM64_RELOC_ADDEND with no following primary")
    } else if st.subtractor is Some {
        bad_reloc(0, "trailing ARM64_RELOC_SUBTRACTOR with no following UNSIGNED")
    } else {
        Ok(st.out)
    }
}

/// The fused form of a stream of wire entries.
pub open spec fn fused(raws: Seq<RawRelocation>) -> Result<Seq<Reloc>, ReadError> {
    match fuse_from(settled(seq![]), raws) {
        Err(e) => Err(e),
        Ok(st) => fuse_end(st),
    }
}

/// Lifts raw relocation entries into the fused form. `ADDEND` prefixes fold
/// into the primary that follows, `SUBTRACTOR` + `UNSIGNED` pairs into a single
/// `RelocKind::Subtractor`.
pub fn parse_relocs(raws: &[RawRelocation]) -> (r: Result<Vec<Reloc>, ReadError>)
    ensures
        model::same_vec(r, fused(raws@)),
{
    let mut out: Vec<Reloc> = Vec::with_capacity(raws.len());
    let mut pending_addend: Option<i32> = None;
    let mut pending_subtractor: Option<RawRelocation> = None;
    let mut i: usize = 0;
    assert(raws@.skip(0) =~= raws@);
    while i < raws.len()
        invariant
            i <= raws@.len(),
            fuse_from(settled(seq![]), raws@) == fuse_from(
                Fusion { out: out@, addend: pending_addend, subtractor: pending_subtractor },
                raws@.skip(i as int),
            ),
        decreases raws@.len() - i,
    {
        let raw: RawRelocation = raws[i];
        assert(raws@.skip(i as int).first() == raw);
        assert(raws@.skip(i as int).drop_first() =~= raws@.skip(i + 1));
        match raw.r_type {
            ARM64_RELOC_ADDEND => {
                if pending_addend.is_some() {
                    return Err(
                        ReadError::BadRelocation {
                            at_offset: raw.r_address as u32,
                            reason: "two ARM64_RELOC_ADDEND in a row",
                        },
                    );
                }
                if raw.r_extern {
                    return Err(
                        ReadError::BadRelocation {
                            at_offset: raw.r_address as u32,
                            reason: "ARM64_RELOC_ADDEND must not have r_extern set",
                        },
                    );
                }
                pending_addend = Some(sign_extend_24(raw.r_symbolnum));
            },
            ARM64_RELOC_SUBTRACTOR => {
                if pending_subtractor.is_some() {
                    return Err(
                        ReadError::BadRelocation {
                            at_offset: raw.r_address as u32,
                            reason: "two ARM64_RELOC_SUBTRACTOR in a row",
                        },
                    );
                }
                pending_subtractor = Some(raw);
            },
            _ => {
                match fuse_entry(pending_addend, pending_subtractor, &raw) {
                    Ok(reloc) => out.push(reloc),
                    Err(e) => return Err(e),
                }
                pending_addend = None;
                pending_subtractor = None;
            },
        }
        i += 1;
    }
    if pending_addend.is_some() {
        return Err(
            ReadError::BadRelocation {
                at_offset: 0,
                reason: "trailing ARM64_RELOC_ADDEND with no following primary",
            },
        );
    }
    if pending_subtractor.is_some() {
        return Err(
            ReadError::BadRelocation {
                at_offset: 0,
                reason: "trailing ARM64_RELOC_SUBTRACTOR with no following UNSIGNED",
            },
        );
    }
    Ok(out)
}

/// Fuses a primary entry with the prefixes that were pending when it came.
fn fuse_entry(
    addend: Option<i32>,
    subtractor: Option<RawRelocation>,
    raw: &RawRelocation,
) -> (r: Result<Reloc, ReadError>)
    ensures
        r == fuse_primary(addend, subtractor, *raw),
{
    let at_offset: u32 = raw.r_address as u32;
    let kind = match primary_kind_from_type(raw.r_type) {
        Some(kind) => kind,
        None => return Err(
            ReadError::BadRelocation { at_offset, reason: "unknown ARM64_RELOC_* type" },
        ),
    };
    let length = match RelocLength::from_bits(raw.r_length) {
        Some(length) => length,
        None => return Err(
            ReadError::BadRelocation { at_offset, reason: "invalid r_length (must be 0..=3)" },
        ),
    };
    let value: i64 = match addend {
        Some(v) => v as i64,
        None => 0,
    };
    let referent = referent_from(raw)?;
    match subtractor {
        Some(sub) => {
            if raw.r_type != ARM64_RELOC_UNSIGNED {
                return Err(
                    ReadError::BadRelocation {
                        at_offset,
                        reason: "SUBTRACTOR must be followed by UNSIGNED",
                    },
                );
            }
            if sub.r_address != raw.r_address {
                return Err(
                    ReadError::BadRelocation {
                        at_offset,
                        reason: "SUBTRACTOR/UNSIGNED pair must share r_address",
                    },
                );
            }
            if sub.r_length != raw.r_length {
                return Err(
                    ReadError::BadRelocation {
                        at_offset,
                        reason: "SUBTRACTOR/UNSIGNED pair must share r_length",
                    },
                );
            }
            let subtrahend = referent_from(&sub)?;
            Ok(
                Reloc {
                    offset: at_offset,
                    kind: RelocKind::Subtractor,
                    length,
                    pcrel: raw.r_pcrel,
                    referent,
                    addend: value,
                    subtrahend: Some(subtrahend),
                },
            )
        },
        None => Ok(
            Reloc {
                offset: at_offset,
                kind,
                length,
                pcrel: raw.r_pcrel,
                referent,
                addend: value,
                subtrahend: None,
            },
        ),
    }
}

/// A referent's `r_symbolnum` and `r_extern`.
pub open spec fn raw_parts(r: Referent) -> (u32, bool) {
    match r {
        Referent::Symbol(idx) => (idx & 0x00FF_FFFF, true),
        Referent::Section(idx) => (idx as u32, false),
    }
}

fn ref_to_raw_parts(r: Referent) -> (p: (u32, bool))
    ensures
        p == raw_parts(r),
{
    match r {
        Referent::Symbol(idx) => (idx & 0x00FF_FFFF, true),
        Referent::Section(idx) => (idx as u32, false),
    }
}

/// The wire type of a kind; for a pair, that of its minuend half.
pub open spec fn type_byte(k: RelocKind) -> u8 {
    match k {
        RelocKind::Unsigned => ARM64_RELOC_UNSIGNED,
        RelocKind::Branch26 => ARM64_RELOC_BRANCH26,
        RelocKind::Page21 => ARM64_RELOC_PAGE21,
        RelocKind::PageOff12 => ARM64_RELOC_PAGEOFF12,
        RelocKind::GotLoadPage21 => ARM64_RELOC_GOT_LOAD_PAGE21,
        RelocKind::GotLoadPageOff12 => ARM64_RELOC_GOT_LOAD_PAGEOFF12,
        RelocKind::PointerToGot => ARM64_RELOC_POINTER_TO_GOT,
        RelocKind::TlvpLoadPage21 => ARM64_RELOC_TLVP_LOAD_PAGE21,
        RelocKind::TlvpLoadPageOff12 => ARM64_RELOC_TLVP_LOAD_PAGEOFF12,
        RelocKind::Subtractor => ARM64_RELOC_UNSIGNED,
    }
}

fn reloc_type_byte(k: RelocKind) -> (t: u8)
    ensures
        t == type_byte(k),
{
    match k {
        RelocKind::Unsigned => ARM64_RELOC_UNSIGNED,
        RelocKind::Branch26 => ARM64_RELOC_BRANCH26,
        RelocKind::Page21 => ARM64_RELOC_PAGE21,
        RelocKind::PageOff12 => ARM64_RELOC_PAGEOFF12,
        RelocKind::GotLoadPage21 => ARM64_RELOC_GOT_LOAD_PAGE21,
        RelocKind::GotLoadPageOff12 => ARM64_RELOC_GOT_LOAD_PAGEOFF12,
        RelocKind::PointerToGot => ARM64_RELOC_POINTER_TO_GOT,
        RelocKind::TlvpLoadPage21 => ARM64_RELOC_TLVP_LOAD_PAGE21,
        RelocKind::TlvpLoadPageOff12 => ARM64_RELOC_TLVP_LOAD_PAGEOFF12,
        RelocKind::Subtractor => ARM64_RELOC_UNSIGNED,
    }
}

pub const ADDEND_MIN: i64 = -0x0080_0000;

pub const ADDEND_MAX: i64 = 0x007F_FFFF;

/// The entries that stand for an addend: none for zero, one where 24 bits hold it.
pub open spec fn addend_entries(offset: u32, addend: i64, length: u8) -> Result<
    Seq<RawRelocation>,
    ReadError,
> {
    if addend == 0 {
        Ok(seq![])
    } else if !(ADDEND_MIN <= addend <= ADDEND_MAX) {
        bad_reloc(offset, "addend outside 24-bit signed range (use ARM64_RELOC_ADDEND)")
    } else {
        Ok(
            seq![
                RawRelocation {
                    r_address: offset as i32,
                    r_symbolnum: (addend as i32) as u32 & 0x00FF_FFFF,
                    r_pcrel: false,
                    r_length: length,
                    r_extern: false,
                    r_type: ARM64_RELOC_ADDEND,
                },
            ],
        )
    }
}

fn encode_addend_prefix(offset: u32, addend: i64, length: u8) -> (r: Result<
    RawRelocation,
    ReadError,
>)
    requires
        addend != 0,
    ensures
        match r {
            Ok(raw) => addend_entries(offset, addend, length) == Ok::<_, ReadError>(seq![raw]),
            Err(e) => addend_entries(offset, addend, length) == Err::<Seq<RawRelocation>, _>(e),
        },
{
    if !(ADDEND_MIN <= addend && addend <= ADDEND_MAX) {
        return Err(
            ReadError::BadRelocation {
                at_offset: offset,
                reason: "addend outside 24-bit signed range (use ARM64_RELOC_ADDEND)",
            },
        );
    }
    Ok(
        RawRelocation {
            r_address: offset as i32,
            r_symbolnum: (addend as i32) as u32 & 0x00FF_FFFF,
            r_pcrel: false,
            r_length: length,
            r_extern: false,
            r_type: ARM64_RELOC_ADDEND,
        },
    )
}

/// Kinds other than `Unsigned` and `Subtractor` patch one 4-byte instruction.
pub open spec fn word_only(k: RelocKind) -> bool {
    k != RelocKind::Unsigned && k != RelocKind::Subtractor
}

fn kind_expects_word_only(k: RelocKind) -> (b: bool)
    ensures
        b == word_only(k),
{
    !matches!(k, RelocKind::Unsigned | RelocKind::Subtractor)
}

/// The `r_pcrel` that a kind demands, if it demands one.
pub open spec fn pcrel_of(k: RelocKind) -> Option<bool> {
    match k {
        RelocKind::Branch26 => Some(true),
        RelocKind::Page21 => Some(true),
        RelocKind::GotLoadPage21 => Some(true),
        RelocKind::TlvpLoadPage21 => Some(true),
        RelocKind::PointerToGot => Some(true),
        RelocKind::PageOff12 => Some(false),
        RelocKind::GotLoadPageOff12 => Some(false),
        RelocKind::TlvpLoadPageOff12 => Some(false),
        RelocKind::Unsigned => None,
        RelocKind::Subtractor => None,
    }
}

fn kind_expects_pcrel(k: RelocKind) -> (r: Option<bool>)
    ensures
        r == pcrel_of(k),
{
    match k {
        RelocKind::Branch26
        | RelocKind::Page21
        | RelocKind::GotLoadPage21
        | RelocKind::TlvpLoadPage21
        | RelocKind::PointerToGot => Some(true),
        RelocKind::PageOff12 | RelocKind::GotLoadPageOff12 | RelocKind::TlvpLoadPageOff12 => {
            Some(false)
        },
        RelocKind::Unsigned | RelocKind::Subtractor => None,
    }
}

/// A referent names an existing symbol or section.
pub open spec fn referent_check(offset: u32, referent: Referent, nsyms: u32, nsects: u8) -> Result<
    (),
    ReadError,
> {
    match referent {
        Referent::Symbol(idx) => if idx >= nsyms {
            bad_reloc(offset, "r_symbolnum past end of symbol table")
        } else {
            Ok(())
        },
        Referent::Section(idx) => if idx == 0 || idx > nsects {
            bad_reloc(offset, "section-relative reloc with out-of-range section index")
        } else {
            Ok(())
        },
    }
}

/// The first thing that is wrong with a relocation of a section of
/// `section_size` bytes, in a file with `nsyms` symbols and `nsects` sections.
pub open spec fn reloc_check(r: Reloc, section_size: u64, nsyms: u32, nsects: u8) -> Result<
    (),
    ReadError,
> {
    if r.offset + r.length.spec_byte_width() > section_size {
        bad_reloc(r.offset, "reloc offset + width exceeds section size")
    } else if referent_check(r.offset, r.referent, nsyms, nsects) is Err {
        referent_check(r.offset, r.referent, nsyms, nsects)
    } else if r.subtrahend is Some && referent_check(
        r.offset,
        r.subtrahend->0,
        nsyms,
        nsects,
    ) is Err {
        referent_check(r.offset, r.subtrahend->0, nsyms, nsects)
    } else if word_only(r.kind) && r.length != RelocLength::Word {
        bad_reloc(r.offset, "reloc kind must use Word length (4 bytes)")
    } else if pcrel_of(r.kind) is Some && pcrel_of(r.kind)->0 != r.pcrel {
        bad_reloc(r.offset, "reloc kind has fixed r_pcrel value that this entry violates")
    } else if r.kind == RelocKind::Subtractor && r.subtrahend is None {
        bad_reloc(r.offset, "Subtractor kind requires a subtrahend")
    } else {
        Ok(())
    }
}

/// Checks one relocation against the sizes of its section, the symbol table and
/// the section table.
pub fn validate_reloc(r: &Reloc, section_size: u64, nsyms: u32, nsects: u8) -> (res: Result<
    (),
    ReadError,
>)
    ensures
        res == reloc_check(*r, section_size, nsyms, nsects),
{
    let width: u64 = r.length.byte_width() as u64;
    let end: u64 = r.offset as u64 + width;
    if end > section_size {
        return Err(
            ReadError::BadRelocation {
                at_offset: r.offset,
                reason: "reloc offset + width exceeds section size",
            },
        );
    }
    validate_referent(r.offset, r.referent, nsyms, nsects)?;
    if let Some(sub) = r.subtrahend {
        validate_referent(r.offset, sub, nsyms, nsects)?;
    }
    if kind_expects_word_only(r.kind) && r.length != RelocLength::Word {
        return Err(
            ReadError::BadRelocation {
                at_offset: r.offset,
                reason: "reloc kind must use Word length (4 bytes)",
            },
        );
    }
    if let Some(expected) = kind_expects_pcrel(r.kind) {
        if r.pcrel != expected {
            return Err(
                ReadError::BadRelocation {
                    at_offset: r.offset,
                    reason: "reloc kind has fixed r_pcrel value that this entry violates",
                },
            );
        }
    }
    if r.kind == RelocKind::Subtractor && r.subtrahend.is_none() {
        return Err(
            ReadError::BadRelocation {
                at_offset: r.offset,
                reason: "Subtractor kind requires a subtrahend",
            },
        );
    }
    Ok(())
}

fn validate_referent(offset: u32, referent: Referent, nsyms: u32, nsects: u8) -> (r: Result<
    (),
    ReadError,
>)
    ensures
        r == referent_check(offset, referent, nsyms, nsects),
{
    match referent {
        Referent::Symbol(idx) => {
            if idx >= nsyms {
                return Err(
                    ReadError::BadRelocation {
                        at_offset: offset,
                        reason: "r_symbolnum past end of symbol table",
                    },
                );
            }
        },
        Referent::Section(idx) => {
            if idx == 0 || idx > nsects {
                return Err(
                    ReadError::BadRelocation {
                        at_offset: offset,
                        reason: "section-relative reloc with out-of-range section index",
                    },
                );
            }
        },
    }
    Ok(())
}

/// The first complaint about any of the relocations, in their order.
pub open spec fn relocs_check(relocs: Seq<Reloc>, section_size: u64, nsyms: u32, nsects: u8) -> Result<
    (),
    ReadError,
>
    decreases relocs.len(),
{
    if relocs.len() == 0 {
        Ok(())
    } else if reloc_check(relocs.first(), section_size, nsyms, nsects) is Err {
        reloc_check(relocs.first(), section_size, nsyms, nsects)
    } else {
        relocs_check(relocs.drop_first(), section_size, nsyms, nsects)
    }
}

/// Checks every relocation of a section and reports the first error.
pub fn validate_relocs(relocs: &[Reloc], section_size: u64, nsyms: u32, nsects: u8) -> (res: Result<
    (),
    ReadError,
>)
    ensures
        res == relocs_check(relocs@, section_size, nsyms, nsects),
{
    let mut i: usize = 0;
    assert(relocs@.skip(0) =~= relocs@);
    while i < relocs.len()
        invariant
            i <= relocs@.len(),
            relocs_check(relocs@, section_size, nsyms, nsects) == relocs_check(
                relocs@.skip(i as int),
                section_size,
                nsyms,
                nsects,
            ),
        decreases relocs@.len() - i,
    {
        assert(relocs@.skip(i as int).drop_first() =~= relocs@.skip(i + 1));
        validate_reloc(&relocs[i], section_size, nsyms, nsects)?;
        i += 1;
    }
    Ok(())
}

/// The wire entries of one fused relocation.
pub open spec fn lowered_one(r: Reloc) -> Result<Seq<RawRelocation>, ReadError> {
    let address = r.offset as i32;
    let length = r.length.spec_as_bits();
    let primary = RawRelocation {
        r_address: address,
        r_symbolnum: raw_parts(r.referent).0,
        r_pcrel: r.pcrel,
        r_length: length,
        r_extern: raw_parts(r.referent).1,
        r_type: type_byte(r.kind),
    };
    if r.kind == RelocKind::Subtractor && r.subtrahend is None {
        bad_reloc(r.offset, "Subtractor kind requires a subtrahend")
    } else {
        match addend_entries(r.offset, r.addend, length) {
            Err(e) => Err(e),
            Ok(prefix) => if r.kind == RelocKind::Subtractor {
                let sub = RawRelocation {
                    r_address: address,
                    r_symbolnum: raw_parts(r.subtrahend->0).0,
                    r_pcrel: false,
                    r_length: length,
                    r_extern: raw_parts(r.subtrahend->0).1,
                    r_type: ARM64_RELOC_SUBTRACTOR,
                };
                Ok(seq![sub] + prefix + seq![primary])
            } else {
                Ok(prefix + seq![primary])
            },
        }
    }
}

/// The wire entries of a fused stream, or the first relocation's error.
pub open spec fn lowered(relocs: Seq<Reloc>) -> Result<Seq<RawRelocation>, ReadError>
    decreases relocs.len(),
{
    if relocs.len() == 0 {
        Ok(seq![])
    } else {
        match lowered_one(relocs.first()) {
            Err(e) => Err(e),
            Ok(group) => model::prepended(group, lowered(relocs.drop_first())),
        }
    }
}

/// Lowers the fused stream back to wire entries.
pub fn write_relocs(relocs: &[Reloc]) -> (res: Result<Vec<RawRelocation>, ReadError>)
    ensures
        model::same_vec(res, lowered(relocs@)),
{
    let mut out: Vec<RawRelocation> = Vec::new();
    let mut i: usize = 0;
    assert(relocs@.skip(0) =~= relocs@);
    proof {
        if lowered(relocs@) is Ok {
            assert(out@ + lowered(relocs@)->Ok_0 =~= lowered(relocs@)->Ok_0);
        }
    }
    while i < relocs.len()
        invariant
            i <= relocs@.len(),
            lowered(relocs@) == model::prepended(out@, lowered(relocs@.skip(i as int))),
        decreases relocs@.len() - i,
    {
        let r: Reloc = relocs[i];
        let ghost before = out@;
        assert(relocs@.skip(i as int).first() == r);
        assert(relocs@.skip(i as int).drop_first() =~= relocs@.skip(i + 1));
        match r.kind {
            RelocKind::Subtractor => {
                let sub = match r.subtrahend {
                    Some(sub) => sub,
                    None => return Err(
                        ReadError::BadRelocation {
                            at_offset: r.offset,
                            reason: "Subtractor kind requires a subtrahend",
                        },
                    ),
                };
                let (sub_sym, sub_ext) = ref_to_raw_parts(sub);
                out.push(
                    RawRelocation {
                        r_address: r.offset as i32,
                        r_symbolnum: sub_sym,
                        r_pcrel: false,
                        r_length: r.length.as_bits(),
                        r_extern: sub_ext,
                        r_type: ARM64_RELOC_SUBTRACTOR,
                    },
                );
                if r.addend != 0 {
                    out.push(encode_addend_prefix(r.offset, r.addend, r.length.as_bits())?);
                }
                let (min_sym, min_ext) = ref_to_raw_parts(r.referent);
                out.push(
                    RawRelocation {
                        r_address: r.offset as i32,
                        r_symbolnum: min_sym,
                        r_pcrel: r.pcrel,
                        r_length: r.length.as_bits(),
                        r_extern: min_ext,
                        r_type: ARM64_RELOC_UNSIGNED,
                    },
                );
            },
            kind => {
                if r.addend != 0 {
                    out.push(encode_addend_prefix(r.offset, r.addend, r.length.as_bits())?);
                }
                let (sym, ext) = ref_to_raw_parts(r.referent);
                out.push(
                    RawRelocation {
                        r_address: r.offset as i32,
                        r_symbolnum: sym,
                        r_pcrel: r.pcrel,
                        r_length: r.length.as_bits(),
                        r_extern: ext,
                        r_type: reloc_type_byte(kind),
                    },
                );
            },
        }
        proof {
            let group = lowered_one(r)->Ok_0;
            assert(lowered_one(r) is Ok);
            assert(out@ =~= before + group);
            let rest = lowered(relocs@.skip(i + 1));
            if rest is Ok {
                assert(before + (group + rest->Ok_0) =~= (before + group) + rest->Ok_0);
            }
        }
        i += 1;
    }
    proof {
        assert(relocs@.skip(i as int) =~= seq![]);
        assert(out@ + seq![] =~= out@);
    }
    Ok(out)
}

} // verus!
