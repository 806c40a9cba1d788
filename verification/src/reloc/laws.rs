//! What writing and reading relocations keep.

use vstd::prelude::*;
use crate::bytes;
use crate::macho::reader::ReadError;
use crate::reloc;
use crate::reloc::{RawRelocation, Referent, Reloc, RelocKind};

verus! {

proof fn lemma_info_fields(
    symbolnum: u32,
    pcrel: u32,
    length: u32,
    ext: u32,
    ty: u32,
    info: u32,
)
    by (bit_vector)
    requires
        symbolnum <= 0x00FF_FFFF,
        pcrel <= 1,
        length <= 3,
        ext <= 1,
        ty <= 15,
        info == (symbolnum & 0x00FF_FFFF) | (pcrel << 24) | ((length & 0b11) << 25) | (ext << 27) | ((ty
            & 0x0f) << 28),
    ensures
        info & 0x00FF_FFFF == symbolnum,
        (info >> 24) & 1 == pcrel,
        (info >> 25) & 0b11 == length,
        (info >> 27) & 1 == ext,
        (info >> 28) & 0x0f == ty,
{
}

proof fn lemma_info_repacks(info: u32)
    by (bit_vector)
    ensures
        ((info & 0x00FF_FFFF) & 0x00FF_FFFF) | (((info >> 24) & 1) << 24) | ((((info >> 25) & 0b11)
            & 0b11) << 25) | (((info >> 27) & 1) << 27) | ((((info >> 28) & 0x0f) & 0x0f) << 28)
            == info,
        (info & 0x00FF_FFFF) <= 0x00FF_FFFF,
        (info >> 24) & 1 <= 1,
        (info >> 25) & 0b11 <= 3,
        (info >> 27) & 1 <= 1,
        (info >> 28) & 0x0f <= 15,
{
}

proof fn lemma_i32_u32(a: i32, b: u32)
    by (bit_vector)
    ensures
        (a as u32) as i32 == a,
        (b as i32) as u32 == b,
{
}

/// An entry whose fields fit the wire is read back from its own bytes.
pub proof fn law_raw_reloc_read_of_write(raw: RawRelocation)
    requires
        raw.fits_wire(),
    ensures
        raw.encoded().len() == 8,
        RawRelocation::decoded(raw.encoded(), 0) == raw,
{
    let s = raw.encoded();
    lemma_i32_u32(raw.r_address, 0);
    assert(s.subrange(0, 4) =~= bytes::le32_bytes(raw.r_address as u32));
    assert(s.subrange(4, 8) =~= bytes::le32_bytes(raw.info()));
    bytes::lemma_le32_of_bytes(s, 0, raw.r_address as u32);
    bytes::lemma_le32_of_bytes(s, 4, raw.info());
    lemma_info_fields(
        raw.r_symbolnum,
        reloc::bit(raw.r_pcrel),
        raw.r_length as u32,
        reloc::bit(raw.r_extern),
        raw.r_type as u32,
        raw.info(),
    );
}

/// Every eight bytes are what the entry read from them is written as, and the
/// entry fits the wire.
pub proof fn law_raw_reloc_write_of_read(s: Seq<u8>, at: int)
    requires
        0 <= at,
        at + 8 <= s.len(),
    ensures
        RawRelocation::decoded(s, at).encoded() == s.subrange(at, at + 8),
        RawRelocation::decoded(s, at).fits_wire(),
{
    let raw = RawRelocation::decoded(s, at);
    bytes::lemma_bytes_of_le32(s, at);
    bytes::lemma_bytes_of_le32(s, at + 4);
    lemma_i32_u32(0, bytes::le32(s, at));
    lemma_info_repacks(bytes::le32(s, at + 4));
    assert(raw.info() == bytes::le32(s, at + 4));
    assert(raw.encoded() =~= s.subrange(at, at + 8));
}

proof fn lemma_raw_bytes_index(raws: Seq<RawRelocation>, i: int)
    requires
        0 <= i < raws.len(),
    ensures
        reloc::raw_relocs_bytes(raws).len() == 8 * raws.len(),
        reloc::raw_relocs_bytes(raws).subrange(8 * i, 8 * i + 8) == raws[i].encoded(),
    decreases raws.len(),
{
    let s = reloc::raw_relocs_bytes(raws);
    reveal_with_fuel(reloc::raw_relocs_bytes, 2);
    if raws.len() > 1 {
        lemma_raw_bytes_index(raws.drop_last(), 0);
    }
    assert(s.len() == 8 * raws.len());
    if i == raws.len() - 1 {
        assert(s.subrange(8 * i, 8 * i + 8) =~= raws[i].encoded());
    } else {
        lemma_raw_bytes_index(raws.drop_last(), i);
        assert(s.subrange(8 * i, 8 * i + 8) =~= reloc::raw_relocs_bytes(
            raws.drop_last(),
        ).subrange(8 * i, 8 * i + 8));
    }
}

proof fn lemma_decoded_of_part(s: Seq<u8>, at: int)
    requires
        0 <= at,
        at + 8 <= s.len(),
    ensures
        RawRelocation::decoded(s.subrange(at, at + 8), 0) == RawRelocation::decoded(s, at),
{
    let part = s.subrange(at, at + 8);
    assert forall|i: int| 0 <= i < 8 implies part[i] == s[at + i] by {}
}

/// `write_raw_relocs` followed by `parse_raw_relocs` gives the same entries.
pub proof fn law_raw_stream_read_of_write(raws: Seq<RawRelocation>)
    requires
        raws.len() <= u32::MAX,
        raws.len() * 8 <= usize::MAX,
        forall|i: int| 0 <= i < raws.len() ==> (#[trigger] raws[i]).fits_wire(),
    ensures
        reloc::raw_relocs_of(reloc::raw_relocs_bytes(raws), 0, raws.len() as u32)
            == Ok::<_, ReadError>(raws),
{
    let s = reloc::raw_relocs_bytes(raws);
    if raws.len() > 0 {
        lemma_raw_bytes_index(raws, 0);
    }
    assert forall|i: int| 0 <= i < raws.len() implies RawRelocation::decoded(s, 0 + 8 * i)
        == #[trigger] raws[i] by {
        lemma_raw_bytes_index(raws, i);
        lemma_decoded_of_part(s, 8 * i);
        law_raw_reloc_read_of_write(raws[i]);
    }
    assert(Seq::new(
        raws.len() as nat,
        |i: int| RawRelocation::decoded(s, 0u32 + 8 * i),
    ) =~= raws);
}

/// A referent that `parse_relocs` makes of an entry that fits the wire.
pub open spec fn wire_referent(r: Referent) -> bool {
    match r {
        Referent::Symbol(idx) => idx <= 0x00FF_FFFF,
        Referent::Section(idx) => idx != 0,
    }
}

/// A relocation that `parse_relocs` makes of entries that fit the wire.
pub open spec fn wire_reloc(r: Reloc) -> bool {
    &&& wire_referent(r.referent)
    &&& (r.kind == RelocKind::Subtractor <==> r.subtrahend is Some)
    &&& r.subtrahend is Some ==> wire_referent(r.subtrahend->0)
    &&& reloc::ADDEND_MIN <= r.addend <= reloc::ADDEND_MAX
}

proof fn lemma_signed24_range(v: u32)
    by (bit_vector)
    requires
        v <= 0x00FF_FFFF,
    ensures
        v & 0x0080_0000 != 0 ==> -0x0080_0000 <= ((v | 0xFF00_0000) as i32) && ((v | 0xFF00_0000) as i32) <= -1,
        v & 0x0080_0000 == 0 ==> (v as i32) == v && v <= 0x007F_FFFF,
{
}

proof fn lemma_addend_field(a: i64)
    by (bit_vector)
    requires
        -0x0080_0000 <= a && a <= 0x007F_FFFF,
    ensures
        ({
            let v = ((a as i32) as u32) & 0x00FF_FFFF;
            if v & 0x0080_0000 != 0 {
                ((v | 0xFF00_0000) as i32) as i64 == a
            } else {
                (v as i32) as i64 == a
            }
        }),
{
}

proof fn lemma_low24(v: u32)
    by (bit_vector)
    requires
        v <= 0x00FF_FFFF,
    ensures
        v & 0x00FF_FFFF == v,
{
}

spec fn wire_fusion(st: reloc::Fusion) -> bool {
    &&& forall|i: int| 0 <= i < st.out.len() ==> wire_reloc(#[trigger] st.out[i])
    &&& st.addend is Some ==> reloc::ADDEND_MIN <= st.addend->0
        <= reloc::ADDEND_MAX
    &&& st.subtractor is Some ==> st.subtractor->0.fits_wire()
}

proof fn lemma_fuse_from_wire(st: reloc::Fusion, raws: Seq<RawRelocation>)
    requires
        wire_fusion(st),
        forall|i: int| 0 <= i < raws.len() ==> (#[trigger] raws[i]).fits_wire(),
        reloc::fuse_from(st, raws) is Ok,
    ensures
        wire_fusion(reloc::fuse_from(st, raws)->Ok_0),
    decreases raws.len(),
{
    if raws.len() > 0 {
        let raw = raws.first();
        assert(raw == raws[0]);
        let next = reloc::fuse_step(st, raw)->Ok_0;
        lemma_signed24_range(raw.r_symbolnum);
        assert(wire_fusion(next));
        assert forall|i: int| 0 <= i < raws.drop_first().len() implies (
        #[trigger] raws.drop_first()[i]).fits_wire() by {
            assert(raws.drop_first()[i] == raws[i + 1]);
        }
        lemma_fuse_from_wire(next, raws.drop_first());
    }
}

proof fn lemma_fuse_group(out: Seq<Reloc>, r: Reloc)
    requires
        wire_reloc(r),
    ensures
        reloc::lowered_one(r) is Ok,
        reloc::fuse_from(
            reloc::settled(out),
            reloc::lowered_one(r)->Ok_0,
        ) == Ok::<_, ReadError>(reloc::settled(out.push(r))),
{
    let group = reloc::lowered_one(r)->Ok_0;
    let st = reloc::settled(out);
    lemma_i32_u32(0, r.offset);
    lemma_addend_field(r.addend);
    match r.referent {
        Referent::Symbol(idx) => lemma_low24(idx),
        Referent::Section(idx) => {},
    }
    if r.subtrahend is Some {
        match r.subtrahend->0 {
            Referent::Symbol(idx) => lemma_low24(idx),
            Referent::Section(idx) => {},
        }
    }
    reveal_with_fuel(reloc::fuse_from, 4);
    let g1 = group.drop_first();
    let g2 = g1.drop_first();
    if group.len() == 1 {
        assert(g1 =~= seq![]);
    } else if group.len() == 2 {
        assert(g1.first() == group[1]);
        assert(g2 =~= seq![]);
    } else {
        assert(g1.first() == group[1]);
        assert(g2.first() == group[2]);
        assert(g2.drop_first() =~= seq![]);
    }
}

proof fn lemma_fuse_from_split(
    st: reloc::Fusion,
    a: Seq<RawRelocation>,
    b: Seq<RawRelocation>,
)
    requires
        reloc::fuse_from(st, a) is Ok,
    ensures
        reloc::fuse_from(st, a + b) == reloc::fuse_from(
            reloc::fuse_from(st, a)->Ok_0,
            b,
        ),
    decreases a.len(),
{
    if a.len() == 0 {
        assert(a + b =~= b);
    } else {
        assert((a + b).first() == a.first());
        assert((a + b).drop_first() =~= a.drop_first() + b);
        lemma_fuse_from_split(
            reloc::fuse_step(st, a.first())->Ok_0,
            a.drop_first(),
            b,
        );
    }
}

proof fn lemma_fuse_lowered(out: Seq<Reloc>, relocs: Seq<Reloc>)
    requires
        forall|i: int| 0 <= i < relocs.len() ==> wire_reloc(#[trigger] relocs[i]),
    ensures
        reloc::lowered(relocs) is Ok,
        reloc::fuse_from(
            reloc::settled(out),
            reloc::lowered(relocs)->Ok_0,
        ) == Ok::<_, ReadError>(reloc::settled(out + relocs)),
    decreases relocs.len(),
{
    if relocs.len() == 0 {
        assert(out + relocs =~= out);
    } else {
        let r = relocs[0];
        let rest = relocs.drop_first();
        lemma_fuse_group(out, r);
        assert forall|i: int| 0 <= i < rest.len() implies wire_reloc(#[trigger] rest[i]) by {
            assert(rest[i] == relocs[i + 1]);
        }
        lemma_fuse_lowered(out.push(r), rest);
        let group = reloc::lowered_one(r)->Ok_0;
        let tail = reloc::lowered(rest)->Ok_0;
        lemma_fuse_from_split(reloc::settled(out), group, tail);
        assert(out.push(r) + rest =~= out + relocs);
    }
}

/// How many entries a relocation is written as.
spec fn group_size(r: Reloc) -> int {
    1 + if r.addend != 0 {
        1int
    } else {
        0
    } + if r.kind == RelocKind::Subtractor {
        1int
    } else {
        0
    }
}

spec fn group_sizes(relocs: Seq<Reloc>) -> int
    decreases relocs.len(),
{
    if relocs.len() == 0 {
        0
    } else {
        group_size(relocs.first()) + group_sizes(relocs.drop_first())
    }
}

/// How many entries the relocations so far, and the prefixes for the next one, are.
spec fn entries_in(st: reloc::Fusion) -> int {
    group_sizes(st.out) + if st.addend is Some {
        1int
    } else {
        0
    } + if st.subtractor is Some {
        1int
    } else {
        0
    }
}

proof fn lemma_group_sizes_push(relocs: Seq<Reloc>, r: Reloc)
    ensures
        group_sizes(relocs.push(r)) == group_sizes(relocs) + group_size(r),
    decreases relocs.len(),
{
    let all = relocs.push(r);
    if relocs.len() == 0 {
        assert(all.first() == r);
        assert(all.drop_first() =~= seq![]);
        assert(group_sizes(all.drop_first()) == 0);
    } else {
        assert(all.first() == relocs.first());
        assert(all.drop_first() =~= relocs.drop_first().push(r));
        lemma_group_sizes_push(relocs.drop_first(), r);
    }
}

proof fn lemma_lowered_size(relocs: Seq<Reloc>)
    requires
        reloc::lowered(relocs) is Ok,
    ensures
        reloc::lowered(relocs)->Ok_0.len() == group_sizes(relocs),
    decreases relocs.len(),
{
    if relocs.len() > 0 {
        lemma_lowered_size(relocs.drop_first());
    }
}

proof fn lemma_fusing_adds_none(st: reloc::Fusion, raws: Seq<RawRelocation>)
    requires
        reloc::fuse_from(st, raws) is Ok,
    ensures
        entries_in(reloc::fuse_from(st, raws)->Ok_0) <= entries_in(st) + raws.len(),
    decreases raws.len(),
{
    if raws.len() > 0 {
        let next = reloc::fuse_step(st, raws.first())->Ok_0;
        if next.out.len() > st.out.len() {
            lemma_group_sizes_push(st.out, next.out.last());
            assert(next.out =~= st.out.push(next.out.last()));
        }
        lemma_fusing_adds_none(next, raws.drop_first());
    }
}

/// `parse_relocs(write_relocs(r))` is `r` for every `r` that `parse_relocs` made of
/// entries that fit the wire. `write_relocs` makes no more entries of it than there were,
/// and their bytes are read back unchanged.
pub proof fn law_relocs_parse_of_write(raws: Seq<RawRelocation>)
    requires
        forall|i: int| 0 <= i < raws.len() ==> (#[trigger] raws[i]).fits_wire(),
        reloc::fused(raws) is Ok,
    ensures
        reloc::lowered(reloc::fused(raws)->Ok_0) is Ok,
        reloc::fused(reloc::lowered(reloc::fused(raws)->Ok_0)->Ok_0)
            == reloc::fused(raws),
        reloc::lowered(reloc::fused(raws)->Ok_0)->Ok_0.len() <= raws.len(),
        reloc::lowered(reloc::fused(raws)->Ok_0)->Ok_0.len() <= u32::MAX && reloc::lowered(
            reloc::fused(raws)->Ok_0,
        )->Ok_0.len() * 8 <= usize::MAX ==> ({
            let written = reloc::lowered(reloc::fused(raws)->Ok_0)->Ok_0;
            reloc::raw_relocs_of(
                reloc::raw_relocs_bytes(written),
                0,
                written.len() as u32,
            ) == Ok::<_, ReadError>(written)
        }),
{
    let relocs = reloc::fused(raws)->Ok_0;
    lemma_fuse_from_wire(reloc::settled(seq![]), raws);
    lemma_fuse_lowered(seq![], relocs);
    assert(Seq::<Reloc>::empty() + relocs =~= relocs);
    law_lowered_fits_wire(relocs);
    lemma_fusing_adds_none(reloc::settled(seq![]), raws);
    lemma_lowered_size(relocs);
    let written = reloc::lowered(relocs)->Ok_0;
    if written.len() <= u32::MAX && written.len() * 8 <= usize::MAX {
        law_raw_stream_read_of_write(written);
    }
}

/// What `write_relocs` makes of relocations that `parse_relocs` made of entries
/// that fit the wire fits the wire again, so its bytes are read back unchanged.
pub proof fn law_lowered_fits_wire(relocs: Seq<Reloc>)
    requires
        forall|i: int| 0 <= i < relocs.len() ==> wire_reloc(#[trigger] relocs[i]),
    ensures
        reloc::lowered(relocs) is Ok,
        forall|i: int|
            0 <= i < reloc::lowered(relocs)->Ok_0.len() ==> (
            #[trigger] reloc::lowered(relocs)->Ok_0[i]).fits_wire(),
    decreases relocs.len(),
{
    if relocs.len() > 0 {
        let r = relocs[0];
        let rest = relocs.drop_first();
        assert forall|i: int| 0 <= i < rest.len() implies wire_reloc(#[trigger] rest[i]) by {
            assert(rest[i] == relocs[i + 1]);
        }
        law_lowered_fits_wire(rest);
        let group = reloc::lowered_one(r)->Ok_0;
        match r.referent {
            Referent::Symbol(idx) => lemma_low24(idx),
            Referent::Section(idx) => {},
        }
        if r.subtrahend is Some {
            match r.subtrahend->0 {
                Referent::Symbol(idx) => lemma_low24(idx),
                Referent::Section(idx) => {},
            }
        }
        let field = ((r.addend as i32) as u32) & 0x00FF_FFFF;
        assert(field <= 0x00FF_FFFF) by {
            let v = (r.addend as i32) as u32;
            assert(v & 0x00FF_FFFF <= 0x00FF_FFFF) by (bit_vector);
        }
        assert forall|i: int| 0 <= i < group.len() implies (#[trigger] group[i]).fits_wire() by {}
    }
}

} // verus!
