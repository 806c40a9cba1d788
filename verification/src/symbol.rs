//! Symbol-table reader.
//!
//! Decodes 16-byte `nlist_64` records. An `InputSymbol` keeps the record as it
//! stands in the file and says what it means.

use vstd::prelude::*;
use crate::bytes;
use crate::bytes::{push_u16, push_u32, push_u64, read_u16, read_u32, read_u64};
use crate::macho::constants::{
    N_ABS, N_ALT_ENTRY, N_EXT, N_INDR, N_NO_DEAD_STRIP, N_PEXT, N_SECT, N_STAB, N_TYPE, N_UNDF,
    N_WEAK_DEF, N_WEAK_REF,
};
use crate::macho::reader::ReadError;
use crate::model;

verus! {

/// Size of one `nlist_64` on the wire.
pub const NLIST_SIZE: usize = 16;

/// One `nlist_64` as it stands in the file.
#[derive(Debug, Clone, Copy, PartialEq, Eq, Default, Structural)]
pub struct RawNlist {
    pub strx: u32,
    pub n_type: u8,
    pub n_sect: u8,
    pub n_desc: u16,
    pub n_value: u64,
}

impl RawNlist {
    /// The record whose sixteen bytes start at `at`.
    pub open spec fn decoded(s: Seq<u8>, at: int) -> RawNlist {
        RawNlist {
            strx: bytes::le32(s, at),
            n_type: s[at + 4],
            n_sect: s[at + 5],
            n_desc: bytes::le16(s, at + 6),
            n_value: bytes::le64(s, at + 8),
        }
    }

    /// The record's sixteen bytes.
    pub open spec fn encoded(self) -> Seq<u8> {
        bytes::le32_bytes(self.strx) + seq![self.n_type, self.n_sect] + bytes::le16_bytes(
            self.n_desc,
        ) + bytes::le64_bytes(self.n_value)
    }

    pub fn parse(bytes: &[u8]) -> (r: Result<RawNlist, ReadError>)
        ensures
            r == if bytes@.len() < NLIST_SIZE {
                Err::<RawNlist, ReadError>(
                    ReadError::Truncated {
                        need: NLIST_SIZE,
                        have: bytes@.len() as usize,
                        context: "nlist_64",
                    },
                )
            } else {
                Ok(RawNlist::decoded(bytes@, 0))
            },
    {
        if bytes.len() < NLIST_SIZE {
            return Err(
                ReadError::Truncated { need: NLIST_SIZE, have: bytes.len(), context: "nlist_64" },
            );
        }
        Ok(RawNlist::decode_at(bytes, 0))
    }

    fn decode_at(bytes: &[u8], at: usize) -> (r: RawNlist)
        requires
            at + 16 <= bytes@.len(),
        ensures
            r == RawNlist::decoded(bytes@, at as int),
    {
        assert(bytes.len() == bytes@.len());
        RawNlist {
            strx: read_u32(bytes, at),
            n_type: bytes[at + 4],
            n_sect: bytes[at + 5],
            n_desc: read_u16(bytes, at + 6),
            n_value: read_u64(bytes, at + 8),
        }
    }

    pub fn write(&self, out: &mut Vec<u8>)
        ensures
            final(out)@ == old(out)@ + self.encoded(),
    {
        push_u32(out, self.strx);
        out.push(self.n_type);
        out.push(self.n_sect);
        push_u16(out, self.n_desc);
        push_u64(out, self.n_value);
        assert(out@ =~= old(out)@ + self.encoded());
    }
}

/// A record is read back from its own bytes.
pub proof fn law_nlist_read_of_write(raw: RawNlist)
    ensures
        raw.encoded().len() == 16,
        RawNlist::decoded(raw.encoded(), 0) == raw,
{
    let s = raw.encoded();
    assert(s.subrange(0, 4) =~= bytes::le32_bytes(raw.strx));
    assert(s.subrange(6, 8) =~= bytes::le16_bytes(raw.n_desc));
    assert(s.subrange(8, 16) =~= bytes::le64_bytes(raw.n_value));
    bytes::lemma_le32_of_bytes(s, 0, raw.strx);
    bytes::lemma_le16_of_bytes(s, 6, raw.n_desc);
    bytes::lemma_le64_of_bytes(s, 8, raw.n_value);
}

/// Every sixteen bytes are what the record read from them is written as.
pub proof fn law_nlist_write_of_read(s: Seq<u8>, at: int)
    requires
        0 <= at,
        at + 16 <= s.len(),
    ensures
        RawNlist::decoded(s, at).encoded() == s.subrange(at, at + 16),
{
    bytes::lemma_bytes_of_le32(s, at);
    bytes::lemma_bytes_of_le16(s, at + 6);
    bytes::lemma_bytes_of_le64(s, at + 8);
    assert(RawNlist::decoded(s, at).encoded() =~= s.subrange(at, at + 16));
}

/// What an `nlist_64` describes, by the `N_TYPE` bits of its `n_type`. Stab
/// (debug) entries are told apart by `InputSymbol::stab_kind`.
#[derive(Debug, Clone, Copy, PartialEq, Eq, Structural)]
pub enum SymKind {
    Undef,
    Abs,
    Sect,
    Indirect,
}

/// One symbol of an input file.
#[derive(Debug, Clone, Copy, PartialEq, Eq, Structural)]
pub struct InputSymbol {
    pub raw: RawNlist,
}

impl InputSymbol {
    pub fn from_raw(raw: RawNlist) -> (r: InputSymbol)
        ensures
            r == (InputSymbol { raw }),
    {
        InputSymbol { raw }
    }

    pub fn strx(&self) -> (r: u32)
        ensures
            r == self.raw.strx,
    {
        self.raw.strx
    }

    pub fn sect_idx(&self) -> (r: u8)
        ensures
            r == self.raw.n_sect,
    {
        self.raw.n_sect
    }

    pub fn value(&self) -> (r: u64)
        ensures
            r == self.raw.n_value,
    {
        self.raw.n_value
    }

    pub open spec fn is_stab(self) -> bool {
        self.raw.n_type & N_STAB != 0
    }

    /// The stab kind byte of a stabs debug entry.
    pub fn stab_kind(&self) -> (r: Option<u8>)
        ensures
            r == if self.is_stab() {
                Some(self.raw.n_type)
            } else {
                None
            },
    {
        if self.raw.n_type & N_STAB != 0 {
            Some(self.raw.n_type)
        } else {
            None
        }
    }

    pub open spec fn spec_kind(self) -> SymKind {
        let t = self.raw.n_type & N_TYPE;
        if t == N_ABS {
            SymKind::Abs
        } else if t == N_SECT {
            SymKind::Sect
        } else if t == N_INDR {
            SymKind::Indirect
        } else {
            SymKind::Undef
        }
    }

    /// The kind of an entry that is no stab. The obsolete `N_PBUD` counts as
    /// undefined.
    pub fn kind(&self) -> (r: SymKind)
        ensures
            r == self.spec_kind(),
    {
        match self.raw.n_type & N_TYPE {
            N_UNDF => SymKind::Undef,
            N_ABS => SymKind::Abs,
            N_SECT => SymKind::Sect,
            N_INDR => SymKind::Indirect,
            _ => SymKind::Undef,
        }
    }

    pub open spec fn spec_is_ext(self) -> bool {
        self.raw.n_type & N_EXT != 0
    }

    pub fn is_ext(&self) -> (r: bool)
        ensures
            r == self.spec_is_ext(),
    {
        self.raw.n_type & N_EXT != 0
    }

    pub open spec fn spec_is_private_ext(self) -> bool {
        self.raw.n_type & N_PEXT != 0
    }

    pub fn is_private_ext(&self) -> (r: bool)
        ensures
            r == self.spec_is_private_ext(),
    {
        self.raw.n_type & N_PEXT != 0
    }

    pub fn weak_ref(&self) -> (r: bool)
        ensures
            r == (self.raw.n_desc & N_WEAK_REF != 0),
    {
        self.raw.n_desc & N_WEAK_REF != 0
    }

    pub fn weak_def(&self) -> (r: bool)
        ensures
            r == (self.raw.n_desc & N_WEAK_DEF != 0),
    {
        self.raw.n_desc & N_WEAK_DEF != 0
    }

    pub fn no_dead_strip(&self) -> (r: bool)
        ensures
            r == (self.raw.n_desc & N_NO_DEAD_STRIP != 0),
    {
        self.raw.n_desc & N_NO_DEAD_STRIP != 0
    }

    pub open spec fn spec_alt_entry(self) -> bool {
        self.raw.n_desc & N_ALT_ENTRY != 0
    }

    /// The symbol is a second entry point of the atom in front of it.
    pub fn alt_entry(&self) -> (r: bool)
        ensures
            r == self.spec_alt_entry(),
    {
        self.raw.n_desc & N_ALT_ENTRY != 0
    }

    /// A tentative definition: external, undefined, and with a size.
    pub open spec fn spec_is_common(self) -> bool {
        self.spec_kind() == SymKind::Undef && self.spec_is_ext() && self.raw.n_value > 0
    }

    pub fn is_common(&self) -> (r: bool)
        ensures
            r == self.spec_is_common(),
    {
        self.kind() == SymKind::Undef && self.is_ext() && self.raw.n_value > 0
    }

    /// Size in bytes of a common symbol.
    pub fn common_size(&self) -> (r: Option<u64>)
        ensures
            r == if self.spec_is_common() {
                Some(self.raw.n_value)
            } else {
                None
            },
    {
        if self.is_common() {
            Some(self.raw.n_value)
        } else {
            None
        }
    }

    /// Logarithm of a common symbol's alignment, from bits 8 to 11 of `n_desc`.
    pub fn common_align_pow2(&self) -> (r: Option<u8>)
        ensures
            r == if self.spec_is_common() {
                Some(((self.raw.n_desc >> 8) & 0x0f) as u8)
            } else {
                None
            },
    {
        if self.is_common() {
            Some(((self.raw.n_desc >> 8) & 0x0f) as u8)
        } else {
            None
        }
    }

    /// The library ordinal in the high byte of an undefined symbol's `n_desc`.
    /// Common symbols have none: they use those bits for the alignment.
    pub fn library_ordinal(&self) -> (r: Option<u8>)
        ensures
            r == if self.spec_kind() == SymKind::Undef && !self.spec_is_common() {
                Some((self.raw.n_desc >> 8) as u8)
            } else {
                None
            },
    {
        if self.kind() == SymKind::Undef && !self.is_common() {
            Some((self.raw.n_desc >> 8) as u8)
        } else {
            None
        }
    }

    /// Where the string table names the target of an `N_INDR` alias.
    pub fn indirect_target_strx(&self) -> (r: Option<u32>)
        ensures
            r == if self.spec_kind() == SymKind::Indirect {
                Some(self.raw.n_value as u32)
            } else {
                None
            },
    {
        if self.kind() == SymKind::Indirect {
            Some(self.raw.n_value as u32)
        } else {
            None
        }
    }
}

/// What reading `nsyms` records at `symoff` gives.
pub open spec fn nlist_table_of(file: Seq<u8>, symoff: u32, nsyms: u32) -> Result<
    Seq<InputSymbol>,
    ReadError,
> {
    let have = file.len() as usize;
    if nsyms * 16 > usize::MAX {
        Err(
            ReadError::Truncated {
                need: usize::MAX,
                have,
                context: "symbol table (nsyms × 16 overflows)",
            },
        )
    } else if symoff + nsyms * 16 > usize::MAX {
        Err(
            ReadError::Truncated {
                need: usize::MAX,
                have,
                context: "symbol table (symoff + size overflows)",
            },
        )
    } else if symoff + nsyms * 16 > file.len() {
        Err(
            ReadError::Truncated {
                need: (symoff + nsyms * 16) as usize,
                have,
                context: "symbol table (nlist region)",
            },
        )
    } else {
        Ok(
            Seq::new(
                nsyms as nat,
                |i: int| InputSymbol { raw: RawNlist::decoded(file, symoff + 16 * i) },
            ),
        )
    }
}

/// Reads `nsyms` consecutive records that start `symoff` bytes into the file.
pub fn parse_nlist_table(file_bytes: &[u8], symoff: u32, nsyms: u32) -> (r: Result<
    Vec<InputSymbol>,
    ReadError,
>)
    ensures
        model::same_vec(r, nlist_table_of(file_bytes@, symoff, nsyms)),
{
    let start: usize = symoff as usize;
    let total: usize = match (nsyms as usize).checked_mul(NLIST_SIZE) {
        Some(total) => total,
        None => return Err(
            ReadError::Truncated {
                need: usize::MAX,
                have: file_bytes.len(),
                context: "symbol table (nsyms × 16 overflows)",
            },
        ),
    };
    let end: usize = match start.checked_add(total) {
        Some(end) => end,
        None => return Err(
            ReadError::Truncated {
                need: usize::MAX,
                have: file_bytes.len(),
                context: "symbol table (symoff + size overflows)",
            },
        ),
    };
    if end > file_bytes.len() {
        return Err(
            ReadError::Truncated {
                need: end,
                have: file_bytes.len(),
                context: "symbol table (nlist region)",
            },
        );
    }
    let n: usize = nsyms as usize;
    let mut out: Vec<InputSymbol> = Vec::with_capacity(n);
    let mut i: usize = 0;
    while i < n
        invariant
            n == nsyms,
            start == symoff,
            i <= n,
            start + n * 16 <= file_bytes@.len() <= usize::MAX,
            out@ == Seq::new(
                i as nat,
                |k: int| InputSymbol { raw: RawNlist::decoded(file_bytes@, symoff + 16 * k) },
            ),
        decreases n - i,
    {
        out.push(InputSymbol::from_raw(RawNlist::decode_at(file_bytes, start + i * NLIST_SIZE)));
        i += 1;
    }
    Ok(out)
}

/// The bytes of all records, in order.
pub open spec fn nlist_table_bytes(syms: Seq<InputSymbol>) -> Seq<u8>
    decreases syms.len(),
{
    if syms.len() == 0 {
        seq![]
    } else {
        nlist_table_bytes(syms.drop_last()) + syms.last().raw.encoded()
    }
}

/// Writes the records one after the other, sixteen bytes each.
pub fn write_nlist_table(syms: &[InputSymbol], out: &mut Vec<u8>)
    ensures
        final(out)@ == old(out)@ + nlist_table_bytes(syms@),
{
    let mut i: usize = 0;
    while i < syms.len()
        invariant
            i <= syms@.len(),
            out@ == old(out)@ + nlist_table_bytes(syms@.take(i as int)),
        decreases syms@.len() - i,
    {
        syms[i].raw.write(out);
        assert(syms@.take(i + 1).drop_last() =~= syms@.take(i as int));
        i += 1;
    }
    assert(syms@.take(i as int) =~= syms@);
}

pub proof fn lemma_nlist_table_index(syms: Seq<InputSymbol>, i: int)
    requires
        0 <= i < syms.len(),
    ensures
        nlist_table_bytes(syms).len() == 16 * syms.len(),
        nlist_table_bytes(syms).subrange(16 * i, 16 * i + 16) == syms[i].raw.encoded(),
    decreases syms.len(),
{
    let s = nlist_table_bytes(syms);
    reveal_with_fuel(nlist_table_bytes, 2);
    law_nlist_read_of_write(syms.last().raw);
    if syms.len() > 1 {
        lemma_nlist_table_index(syms.drop_last(), 0);
    }
    if i == syms.len() - 1 {
        assert(s.subrange(16 * i, 16 * i + 16) =~= syms[i].raw.encoded());
    } else {
        lemma_nlist_table_index(syms.drop_last(), i);
        assert(s.subrange(16 * i, 16 * i + 16) =~= nlist_table_bytes(syms.drop_last()).subrange(
            16 * i,
            16 * i + 16,
        ));
    }
}

proof fn lemma_nlist_decoded_of_part(s: Seq<u8>, at: int)
    requires
        0 <= at,
        at + 16 <= s.len(),
    ensures
        RawNlist::decoded(s.subrange(at, at + 16), 0) == RawNlist::decoded(s, at),
{
    let part = s.subrange(at, at + 16);
    assert forall|k: int| 0 <= k < 16 implies part[k] == s[at + k] by {}
}

proof fn lemma_nlist_table_read_index(syms: Seq<InputSymbol>, i: int)
    requires
        0 <= i < syms.len(),
    ensures
        RawNlist::decoded(nlist_table_bytes(syms), 16 * i) == syms[i].raw,
{
    lemma_nlist_table_index(syms, i);
    lemma_nlist_decoded_of_part(nlist_table_bytes(syms), 16 * i);
    law_nlist_read_of_write(syms[i].raw);
}

/// `write_nlist_table` followed by `parse_nlist_table` gives the same symbols.
pub proof fn law_nlist_table_read_of_write(syms: Seq<InputSymbol>)
    requires
        syms.len() <= u32::MAX,
        syms.len() * 16 <= usize::MAX,
    ensures
        nlist_table_of(nlist_table_bytes(syms), 0, syms.len() as u32) == Ok::<_, ReadError>(syms),
{
    let s = nlist_table_bytes(syms);
    if syms.len() > 0 {
        lemma_nlist_table_index(syms, 0);
    }
    let table = nlist_table_of(s, 0, syms.len() as u32)->Ok_0;
    assert(nlist_table_of(s, 0, syms.len() as u32) is Ok);
    assert forall|i: int| 0 <= i < syms.len() implies #[trigger] table[i] == syms[i] by {
        lemma_nlist_table_read_index(syms, i);
    }
    assert(table =~= syms);
}

} // verus!
