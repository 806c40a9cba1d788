//! ARM64 instruction words.

use vstd::prelude::*;
use crate::bytes;
use crate::bytes::push_u32;
use crate::reloc::arm64;
use crate::reloc::arm64::{RelocError, RelocFault};
use crate::reloc::RelocKind;
use crate::resolve::AtomId;
use crate::text;
use crate::text::hex_string;

verus! {

/// `br x16`.
pub const BR_X16: u32 = 0xd61f_0200;

/// How far a forward branch reaches.
pub const BRANCH26_MAX_FORWARD_DELTA_BYTES: u64 = 0x07ff_fffc;

/// The page that an address lies in.
pub open spec fn page_of(v: u64) -> u64 {
    v & !0xfffu64
}

pub fn page(value: u64) -> (r: u64)
    ensures
        r == page_of(value),
{
    value & !0xfffu64
}

/// `value` is a two's complement number of `bits` bits.
pub open spec fn signed_fits(value: i64, bits: u32) -> bool {
    -(1i64 << ((bits - 1) as u32)) <= value < (1i64 << ((bits - 1) as u32))
}

pub fn fits_signed(value: i64, bits: u32) -> (r: bool)
    requires
        1 <= bits <= 63,
    ensures
        r == signed_fits(value, bits),
{
    let shift: u32 = bits - 1;
    assert(0 < (1i64 << shift)) by (bit_vector)
        requires
            shift <= 62,
    ;
    let half: i64 = 1i64 << shift;
    -half <= value && value < half
}

pub proof fn lemma_signed_fits(value: i64)
    ensures
        signed_fits(value, 26) == (-0x200_0000 <= value < 0x200_0000),
        signed_fits(value, 21) == (-0x10_0000 <= value < 0x10_0000),
{
    assert(1i64 << 25u32 == 0x200_0000) by (bit_vector);
    assert(1i64 << 20u32 == 0x10_0000) by (bit_vector);
}

/// `add xd, xn, #imm`.
pub open spec fn add_immediate(insn: u32) -> bool {
    (insn & 0x1f00_0000) == 0x1100_0000
}

pub fn is_add_immediate(insn: u32) -> (r: bool)
    ensures
        r == add_immediate(insn),
{
    (insn & 0x1f00_0000) == 0x1100_0000
}

/// A load or store of a vector or floating-point register.
pub open spec fn simd_fp(insn: u32) -> bool {
    ((insn >> 24) & 0b111) == 0b101
}

pub fn is_simd_fp_pageoff(insn: u32) -> (r: bool)
    ensures
        r == simd_fp(insn),
{
    ((insn >> 24) & 0b111) == 0b101
}

/// The power of two by which a vector load or store scales its offset.
pub open spec fn simd_fp_shift(insn: u32) -> u64 {
    let size = ((insn >> 30) & 0b11) as u64;
    let opc = ((insn >> 22) & 0b11) as u64;
    if size == 0 && (opc & 0b10) != 0 {
        4
    } else {
        size
    }
}

pub fn simd_fp_pageoff_shift(insn: u32) -> (r: u64)
    ensures
        r == simd_fp_shift(insn),
{
    let size: u64 = ((insn >> 30) & 0b11) as u64;
    let opc: u64 = ((insn >> 22) & 0b11) as u64;
    if size == 0 && (opc & 0b10) != 0 {
        4
    } else {
        size
    }
}

/// The power of two by which a load or store scales its offset.
pub open spec fn load_store_shift(insn: u32) -> u64 {
    if simd_fp(insn) {
        simd_fp_shift(insn)
    } else {
        ((insn >> 30) & 0b11) as u64
    }
}

pub fn pageoff_load_store_shift(insn: u32) -> (r: u64)
    ensures
        r == load_store_shift(insn),
        r <= 4,
{
    assert(((insn >> 30) & 0b11) <= 3) by (bit_vector);
    if is_simd_fp_pageoff(insn) {
        simd_fp_pageoff_shift(insn)
    } else {
        ((insn >> 30) & 0b11) as u64
    }
}

/// The distance from `place` to `target`, modulo 2^64, as a signed number.
pub open spec fn distance(place: u64, target: u64) -> i64 {
    target.wrapping_sub(place) as i64
}

/// The distance from the page of `place` to that of `target`.
pub open spec fn page_distance(place: u64, target: u64) -> i64 {
    distance(page_of(place), page_of(target))
}

/// A branch at `place` reaches `target`.
pub open spec fn branch26_reaches(place: u64, target: u64) -> bool {
    distance(place, target) & 0b11 == 0 && signed_fits(distance(place, target) >> 2, 26)
}

pub fn branch26_in_range(place: u64, target: u64) -> (r: bool)
    ensures
        r == branch26_reaches(place, target),
{
    let delta: i64 = target.wrapping_sub(place) as i64;
    delta & 0b11 == 0 && fits_signed(delta >> 2, 26)
}

/// `insn` with its 26-bit immediate set.
pub open spec fn with_imm26(insn: u32, imm: i64) -> u32 {
    (insn & !0x03ff_ffffu32) | ((imm as u32) & 0x03ff_ffff)
}

pub fn set_imm26(insn: u32, imm: i64) -> (r: u32)
    ensures
        r == with_imm26(insn, imm),
{
    (insn & !0x03ff_ffffu32) | ((imm as u32) & 0x03ff_ffff)
}

/// `insn` with the two parts of its 21-bit immediate set.
pub open spec fn with_imm21(insn: u32, imm: i64) -> u32 {
    let encoded = (imm as u32) & 0x1f_ffff;
    (insn & !0x60ff_ffe0u32) | ((encoded & 0x3) << 29) | (((encoded >> 2) & 0x7ffff) << 5)
}

pub fn set_imm21(insn: u32, imm: i64) -> (r: u32)
    ensures
        r == with_imm21(insn, imm),
{
    let encoded: u32 = (imm as u32) & 0x1f_ffff;
    (insn & !0x60ff_ffe0u32) | ((encoded & 0x3) << 29) | (((encoded >> 2) & 0x7ffff) << 5)
}

/// `insn` with its 12-bit immediate set.
pub open spec fn with_imm12(insn: u32, imm: u64) -> u32 {
    (insn & !0x003f_fc00u32) | ((imm as u32) << 10)
}

pub fn set_imm12(insn: u32, imm: u64) -> (r: u32)
    ensures
        r == with_imm12(insn, imm),
{
    (insn & !0x003f_fc00u32) | ((imm as u32) << 10)
}

/// An `add` with the registers of `insn` and `pageoff` as its immediate.
pub open spec fn add_for(insn: u32, pageoff: u64) -> u32 {
    0x9100_0000u32 | ((pageoff as u32) << 10) | (((insn >> 5) & 0x1f) << 5) | (insn & 0x1f)
}

pub fn make_add(insn: u32, pageoff: u64) -> (r: u32)
    ensures
        r == add_for(insn, pageoff),
{
    0x9100_0000u32 | ((pageoff as u32) << 10) | (((insn >> 5) & 0x1f) << 5) | (insn & 0x1f)
}

pub open spec fn hex64(v: i64) -> Seq<char> {
    text::hex((v as u64) as nat)
}

pub(crate) fn hex_i64(v: i64) -> (r: String)
    ensures
        r@ == hex64(v),
{
    hex_string(v as u64)
}

/// An error in code that the linker makes itself.
pub open spec fn stub_fault(
    atom_offset: u32,
    kind: RelocKind,
    referent: Seq<char>,
    detail: Seq<char>,
) -> RelocFault {
    RelocFault {
        input: "<synthetic stubs>"@,
        atom: AtomId(0),
        atom_offset,
        kind,
        referent,
        detail,
    }
}

fn stub_error(atom_offset: u32, kind: RelocKind, referent: String, detail: String) -> (r: RelocError)
    ensures
        r@ == stub_fault(atom_offset, kind, referent@, detail@),
{
    RelocError {
        input: "<synthetic stubs>".to_owned(),
        atom: AtomId(0),
        atom_offset,
        kind,
        referent,
        detail,
    }
}

pub open spec fn at_address(referent: Seq<char>, target: u64) -> Seq<char> {
    referent + " @ 0x"@ + text::hex(target as nat)
}

fn with_address(referent: &str, target: u64) -> (r: String)
    ensures
        r@ == at_address(referent@, target),
{
    let mut s = referent.to_owned();
    s.append(" @ 0x");
    s.append(hex_string(target).as_str());
    s
}

pub open spec fn page21_detail(delta: i64) -> Seq<char> {
    "page delta is out of PAGE21 range (0x"@ + hex64(delta) + ")"@
}

pub(crate) fn page21_message(delta: i64) -> (r: String)
    ensures
        r@ == page21_detail(delta),
{
    let mut s = "page delta is out of PAGE21 range (0x".to_owned();
    s.append(hex_i64(delta).as_str());
    s.append(")");
    s
}

pub open spec fn unaligned_detail(delta: i64) -> Seq<char> {
    "branch target delta 0x"@ + hex64(delta) + " is not 4-byte aligned"@
}

pub(crate) fn unaligned_message(delta: i64) -> (r: String)
    ensures
        r@ == unaligned_detail(delta),
{
    let mut s = "branch target delta 0x".to_owned();
    s.append(hex_i64(delta).as_str());
    s.append(" is not 4-byte aligned");
    s
}

pub open spec fn branch26_detail(delta: i64) -> Seq<char> {
    "branch target is out of BRANCH26 range (delta 0x"@ + hex64(delta) + ")"@
}

pub(crate) fn branch26_message(delta: i64) -> (r: String)
    ensures
        r@ == branch26_detail(delta),
{
    let mut s = "branch target is out of BRANCH26 range (delta 0x".to_owned();
    s.append(hex_i64(delta).as_str());
    s.append(")");
    s
}

/// `adrp reg, target`, at `place`.
pub open spec fn adrp(reg: u8, place: u64, target: u64, referent: Seq<char>) -> Result<
    u32,
    RelocFault,
> {
    let delta = page_distance(place, target);
    if !signed_fits(delta >> 12, 21) {
        Err(
            stub_fault(
                0,
                RelocKind::Page21,
                at_address(referent, target),
                page21_detail(delta),
            ),
        )
    } else {
        let encoded = ((delta >> 12) as u32) & 0x1f_ffff;
        Ok(
            0x9000_0000u32 | ((encoded & 0x3) << 29) | (((encoded >> 2) & 0x7ffff) << 5)
                | reg as u32,
        )
    }
}

pub fn encode_adrp_reg(reg: u8, place: u64, target: u64, referent: &str) -> (r: Result<
    u32,
    RelocError,
>)
    ensures
        arm64::same_outcome(r, adrp(reg, place, target, referent@)),
{
    let delta: i64 = page(target).wrapping_sub(page(place)) as i64;
    let imm: i64 = delta >> 12;
    if !fits_signed(imm, 21) {
        return Err(
            stub_error(
                0,
                RelocKind::Page21,
                with_address(referent, target),
                page21_message(delta),
            ),
        );
    }
    let encoded: u32 = (imm as u32) & 0x1f_ffff;
    let immlo: u32 = encoded & 0x3;
    let immhi: u32 = (encoded >> 2) & 0x7ffff;
    Ok(0x9000_0000u32 | (immlo << 29) | (immhi << 5) | reg as u32)
}

/// `ldr reg, [reg, target's page offset]`.
pub open spec fn ldr_pageoff(reg: u8, target: u64, referent: Seq<char>) -> Result<u32, RelocFault> {
    let low = target & 0xfff;
    if low & 0b111 != 0 {
        Err(
            stub_fault(
                4,
                RelocKind::PageOff12,
                at_address(referent, target),
                "lazy pointer page offset 0x"@ + text::hex(low as nat) + " is not 8-byte aligned"@,
            ),
        )
    } else {
        Ok(
            0xf940_0000u32 | ((((low >> 3) as u32) & 0xfff) << 10) | ((reg as u32) << 5)
                | reg as u32,
        )
    }
}

pub fn encode_ldr_x_reg_pageoff(reg: u8, target: u64, referent: &str) -> (r: Result<
    u32,
    RelocError,
>)
    ensures
        arm64::same_outcome(r, ldr_pageoff(reg, target, referent@)),
{
    let low: u64 = target & 0xfff;
    if low & 0b111 != 0 {
        let mut detail = "lazy pointer page offset 0x".to_owned();
        detail.append(hex_string(low).as_str());
        detail.append(" is not 8-byte aligned");
        return Err(
            stub_error(4, RelocKind::PageOff12, with_address(referent, target), detail),
        );
    }
    let imm12: u32 = ((low >> 3) as u32) & 0xfff;
    Ok(0xf940_0000u32 | (imm12 << 10) | ((reg as u32) << 5) | reg as u32)
}

/// `add reg, reg, target's page offset`.
pub open spec fn add_pageoff(reg: u8, target: u64) -> u32 {
    0x9100_0000u32 | (((target & 0xfff) as u32) << 10) | ((reg as u32) << 5) | reg as u32
}

pub fn encode_add_x_reg_pageoff(reg: u8, target: u64) -> (r: u32)
    ensures
        r == add_pageoff(reg, target),
{
    let low: u64 = target & 0xfff;
    0x9100_0000u32 | ((low as u32) << 10) | ((reg as u32) << 5) | reg as u32
}

/// `stp x16, x17, [sp, #-16]!`.
pub const STP_X16_X17_PRE: u32 = 0xa9bf_47f0;

pub fn encode_stp_x16_x17_sp_preindex() -> (r: u32)
    ensures
        r == STP_X16_X17_PRE,
{
    assert((0xa980_0000u32 | (0x7eu32 << 15) | (17u32 << 10) | (31u32 << 5) | 16u32)
        == 0xa9bf_47f0u32) by (bit_vector);
    let imm7: u32 = 0x7e;
    0xa980_0000u32 | (imm7 << 15) | (17u32 << 10) | (31u32 << 5) | 16u32
}

/// `ldr w16, #8`.
pub const LDR_W16_PLUS8: u32 = 0x1800_0050;

pub fn encode_ldr_w16_literal_plus8() -> (r: u32)
    ensures
        r == LDR_W16_PLUS8,
{
    LDR_W16_PLUS8
}

/// `b target`, at `place`.
pub open spec fn branch26(place: u64, target: u64, referent: Seq<char>) -> Result<u32, RelocFault> {
    let delta = distance(place, target);
    if delta & 0b11 != 0 {
        Err(stub_fault(0, RelocKind::Branch26, referent, unaligned_detail(delta)))
    } else if !signed_fits(delta >> 2, 26) {
        Err(stub_fault(0, RelocKind::Branch26, referent, branch26_detail(delta)))
    } else {
        Ok(0x1400_0000u32 | (((delta >> 2) as u32) & 0x03ff_ffff))
    }
}

pub fn encode_branch26(place: u64, target: u64, referent: &str) -> (r: Result<u32, RelocError>)
    ensures
        arm64::same_outcome(r, branch26(place, target, referent@)),
{
    let delta: i64 = target.wrapping_sub(place) as i64;
    if delta & 0b11 != 0 {
        return Err(
            stub_error(0, RelocKind::Branch26, referent.to_owned(), unaligned_message(delta)),
        );
    }
    let imm: i64 = delta >> 2;
    if !fits_signed(imm, 26) {
        return Err(
            stub_error(0, RelocKind::Branch26, referent.to_owned(), branch26_message(delta)),
        );
    }
    Ok(0x1400_0000u32 | ((imm as u32) & 0x03ff_ffff))
}

/// The first error, or all words in order.
pub open spec fn words3(
    a: Result<u32, RelocFault>,
    b: Result<u32, RelocFault>,
    c: u32,
) -> Result<Seq<u8>, RelocFault> {
    match (a, b) {
        (Ok(a), Ok(b)) => Ok(
            bytes::le32_bytes(a) + bytes::le32_bytes(b) + bytes::le32_bytes(c),
        ),
        (Err(e), _) => Err(e),
        (_, Err(e)) => Err(e),
    }
}

/// `r` is `s`, with the bytes in a vector and the error in its executable form.
pub open spec fn same_bytes_outcome(
    r: Result<Vec<u8>, RelocError>,
    s: Result<Seq<u8>, RelocFault>,
) -> bool {
    match (r, s) {
        (Ok(v), Ok(q)) => v@ == q,
        (Err(e), Err(f)) => e@ == f,
        _ => false,
    }
}

/// A stub: it jumps to where its lazy pointer points.
pub open spec fn stub(stub_addr: u64, lazy_pointer_addr: u64) -> Result<Seq<u8>, RelocFault> {
    words3(
        adrp(16, stub_addr, lazy_pointer_addr, "lazy pointer"@),
        ldr_pageoff(16, lazy_pointer_addr, "lazy pointer"@),
        BR_X16,
    )
}

pub fn encode_stub(stub_addr: u64, lazy_pointer_addr: u64) -> (r: Result<Vec<u8>, RelocError>)
    ensures
        same_bytes_outcome(r, stub(stub_addr, lazy_pointer_addr)),
        r is Ok ==> r->Ok_0@.len() == 12,
{
    let adrp_word: u32 = encode_adrp_reg(16, stub_addr, lazy_pointer_addr, "lazy pointer")?;
    let ldr_word: u32 = encode_ldr_x_reg_pageoff(16, lazy_pointer_addr, "lazy pointer")?;
    let mut out: Vec<u8> = Vec::new();
    push_u32(&mut out, adrp_word);
    push_u32(&mut out, ldr_word);
    push_u32(&mut out, BR_X16);
    assert(out@ =~= bytes::le32_bytes(adrp_word) + bytes::le32_bytes(ldr_word)
        + bytes::le32_bytes(BR_X16));
    Ok(out)
}

/// A thunk: it jumps to `target`, however far it is.
pub open spec fn thunk(thunk_addr: u64, target: u64) -> Result<Seq<u8>, RelocFault> {
    words3(
        adrp(16, thunk_addr, target, "thunk target"@),
        Ok(add_pageoff(16, target)),
        BR_X16,
    )
}

pub fn encode_thunk(thunk_addr: u64, target: u64) -> (r: Result<Vec<u8>, RelocError>)
    ensures
        same_bytes_outcome(r, thunk(thunk_addr, target)),
        r is Ok ==> r->Ok_0@.len() == 12,
{
    let adrp_word: u32 = encode_adrp_reg(16, thunk_addr, target, "thunk target")?;
    let add_word: u32 = encode_add_x_reg_pageoff(16, target);
    let mut out: Vec<u8> = Vec::new();
    push_u32(&mut out, adrp_word);
    push_u32(&mut out, add_word);
    push_u32(&mut out, BR_X16);
    assert(out@ =~= bytes::le32_bytes(adrp_word) + bytes::le32_bytes(add_word)
        + bytes::le32_bytes(BR_X16));
    Ok(out)
}

/// The code in front of the stub helper's entries: it passes dyld's private slot
/// to the binder.
pub open spec fn stub_helper_header(
    header_addr: u64,
    dyld_private_addr: u64,
    binder_got_addr: u64,
) -> Result<Seq<u8>, RelocFault> {
    let first = adrp(17, header_addr, dyld_private_addr, "__dyld_private"@);
    let second = adrp(
        16,
        header_addr.wrapping_add(12),
        binder_got_addr,
        "dyld_stub_binder@GOT"@,
    );
    let third = ldr_pageoff(16, binder_got_addr, "dyld_stub_binder@GOT"@);
    match (first, second, third) {
        (Ok(a), Ok(b), Ok(c)) => Ok(
            bytes::le32_bytes(a) + bytes::le32_bytes(add_pageoff(17, dyld_private_addr))
                + bytes::le32_bytes(STP_X16_X17_PRE) + bytes::le32_bytes(b) + bytes::le32_bytes(c)
                + bytes::le32_bytes(BR_X16),
        ),
        (Err(e), _, _) => Err(e),
        (_, Err(e), _) => Err(e),
        (_, _, Err(e)) => Err(e),
    }
}

pub fn encode_stub_helper_header(
    header_addr: u64,
    dyld_private_addr: u64,
    binder_got_addr: u64,
) -> (r: Result<Vec<u8>, RelocError>)
    ensures
        same_bytes_outcome(r, stub_helper_header(header_addr, dyld_private_addr, binder_got_addr)),
        r is Ok ==> r->Ok_0@.len() == 24,
{
    let a: u32 = encode_adrp_reg(17, header_addr, dyld_private_addr, "__dyld_private")?;
    let b: u32 = encode_adrp_reg(
        16,
        header_addr.wrapping_add(12),
        binder_got_addr,
        "dyld_stub_binder@GOT",
    )?;
    let c: u32 = encode_ldr_x_reg_pageoff(16, binder_got_addr, "dyld_stub_binder@GOT")?;
    let mut out: Vec<u8> = Vec::new();
    push_u32(&mut out, a);
    push_u32(&mut out, encode_add_x_reg_pageoff(17, dyld_private_addr));
    push_u32(&mut out, encode_stp_x16_x17_sp_preindex());
    push_u32(&mut out, b);
    push_u32(&mut out, c);
    push_u32(&mut out, BR_X16);
    assert(out@ =~= bytes::le32_bytes(a) + bytes::le32_bytes(add_pageoff(17, dyld_private_addr))
        + bytes::le32_bytes(STP_X16_X17_PRE) + bytes::le32_bytes(b) + bytes::le32_bytes(c)
        + bytes::le32_bytes(BR_X16));
    Ok(out)
}

/// A stub helper entry: it loads its lazy bind offset and goes to the header.
pub open spec fn stub_helper_entry(entry_addr: u64, header_addr: u64, lazy_bind_offset: u32) -> Result<
    Seq<u8>,
    RelocFault,
> {
    match branch26(entry_addr.wrapping_add(4), header_addr, "__stub_helper header"@) {
        Ok(b) => Ok(
            bytes::le32_bytes(LDR_W16_PLUS8) + bytes::le32_bytes(b) + bytes::le32_bytes(
                lazy_bind_offset,
            ),
        ),
        Err(e) => Err(e),
    }
}

pub fn encode_stub_helper_entry(entry_addr: u64, header_addr: u64, lazy_bind_offset: u32) -> (r:
    Result<Vec<u8>, RelocError>)
    ensures
        same_bytes_outcome(r, stub_helper_entry(entry_addr, header_addr, lazy_bind_offset)),
        r is Ok ==> r->Ok_0@.len() == 12,
{
    let b: u32 = encode_branch26(
        entry_addr.wrapping_add(4),
        header_addr,
        "__stub_helper header",
    )?;
    let mut out: Vec<u8> = Vec::new();
    push_u32(&mut out, encode_ldr_w16_literal_plus8());
    push_u32(&mut out, b);
    push_u32(&mut out, lazy_bind_offset);
    assert(out@ =~= bytes::le32_bytes(LDR_W16_PLUS8) + bytes::le32_bytes(b) + bytes::le32_bytes(
        lazy_bind_offset,
    ));
    Ok(out)
}

/// Where a branch instruction at `place` goes.
pub open spec fn branch_goes_to(insn: u32, place: u64) -> u64 {
    (place + (((((insn & 0x03ff_ffff) << 6) as i32) >> 4) as i64)) as u64
}

/// The page that an `adrp` at `place` computes.
pub open spec fn adrp_computes(insn: u32, place: u64) -> u64 {
    let imm = (((insn >> 5) & 0x7ffff) << 2) | ((insn >> 29) & 0x3);
    (page_of(place) + ((((imm << 11) as i32) >> 11) as i64) * 0x1000) as u64
}

/// The immediate of an `add` instruction.
pub open spec fn add_immediate_value(insn: u32) -> u64 {
    ((insn >> 10) & 0xfff) as u64
}

/// The offset of an 8-byte `ldr`.
pub open spec fn ldr_offset(insn: u32) -> u64 {
    (((insn >> 10) & 0xfff) * 8) as u64
}

proof fn lemma_wrapping_sub(a: u64, b: u64)
    ensures
        a.wrapping_sub(b) == (a - b) as u64,
{
    assert((a - b) as u64 == (a - b + 0x1_0000_0000_0000_0000) as u64) by (bit_vector);
}

proof fn lemma_branch_bits(place: u64, target: u64, insn: u32, delta: i64)
    by (bit_vector)
    requires
        delta == ((target - place) as u64) as i64,
        delta & 0b11 == 0,
        -0x200_0000 <= (delta >> 2),
        (delta >> 2) < 0x200_0000,
        insn & 0x03ff_ffff == ((delta >> 2) as u32) & 0x03ff_ffff,
    ensures
        (place + (((((insn & 0x03ff_ffff) << 6) as i32) >> 4) as i64)) as u64 == target,
{
}

proof fn lemma_imm26_kept(insn: u32, imm: u32)
    by (bit_vector)
    ensures
        ((insn & !0x03ff_ffffu32) | (imm & 0x03ff_ffff)) & 0x03ff_ffff == imm & 0x03ff_ffff,
        ((insn & !0x03ff_ffffu32) | (imm & 0x03ff_ffff)) & !0x03ff_ffffu32 == insn & !0x03ff_ffffu32,
        (0x1400_0000u32 | (imm & 0x03ff_ffff)) & 0x03ff_ffff == imm & 0x03ff_ffff,
{
}

/// A branch whose immediate was set for an aligned target in reach goes there,
/// and keeps its opcode.
pub proof fn law_branch26_reaches_target(insn: u32, place: u64, target: u64)
    requires
        branch26_reaches(place, target),
    ensures
        branch_goes_to(with_imm26(insn, distance(place, target) >> 2), place) == target,
        with_imm26(insn, distance(place, target) >> 2) & !0x03ff_ffffu32 == insn & !0x03ff_ffffu32,
{
    let delta = distance(place, target);
    lemma_wrapping_sub(target, place);
    lemma_signed_fits(delta >> 2);
    lemma_imm26_kept(insn, (delta >> 2) as u32);
    lemma_branch_bits(place, target, with_imm26(insn, delta >> 2), delta);
}

/// The branch that `encode_branch26` makes goes to its target.
pub proof fn law_encoded_branch_reaches_target(place: u64, target: u64, referent: Seq<char>)
    requires
        branch26(place, target, referent) is Ok,
    ensures
        branch_goes_to(branch26(place, target, referent)->Ok_0, place) == target,
{
    let delta = distance(place, target);
    lemma_wrapping_sub(target, place);
    lemma_signed_fits(delta >> 2);
    lemma_imm26_kept(0, (delta >> 2) as u32);
    lemma_branch_bits(place, target, branch26(place, target, referent)->Ok_0, delta);
}

proof fn lemma_adrp_bits(p: u64, t: u64, insn: u32, delta: i64, encoded: u32)
    by (bit_vector)
    requires
        p & 0xfff == 0,
        t & 0xfff == 0,
        delta == ((t - p) as u64) as i64,
        -0x10_0000 <= (delta >> 12),
        (delta >> 12) < 0x10_0000,
        encoded == ((delta >> 12) as u32) & 0x1f_ffff,
        (insn >> 29) & 0x3 == encoded & 0x3,
        (insn >> 5) & 0x7ffff == (encoded >> 2) & 0x7ffff,
    ensures
        ({
            let imm = (((insn >> 5) & 0x7ffff) << 2) | ((insn >> 29) & 0x3);
            (p + ((((imm << 11) as i32) >> 11) as i64) * 0x1000) as u64 == t
        }),
{
}

proof fn lemma_page_bits(v: u64)
    by (bit_vector)
    ensures
        (v & !0xfffu64) & 0xfff == 0,
        (v & !0xfffu64) + (v & 0xfff) == v,
        (v & 0xfff) <= 0xfff,
{
}

proof fn lemma_imm21_kept(insn: u32, encoded: u32, reg: u32)
    by (bit_vector)
    requires
        reg <= 31,
    ensures
        ({
            let w = (insn & !0x60ff_ffe0u32) | ((encoded & 0x3) << 29) | (((encoded >> 2)
                & 0x7ffff) << 5);
            &&& (w >> 29) & 0x3 == encoded & 0x3
            &&& (w >> 5) & 0x7ffff == (encoded >> 2) & 0x7ffff
            &&& w & !0x60ff_ffe0u32 == insn & !0x60ff_ffe0u32
        }),
        ({
            let w = 0x9000_0000u32 | ((encoded & 0x3) << 29) | (((encoded >> 2) & 0x7ffff) << 5)
                | reg;
            &&& (w >> 29) & 0x3 == encoded & 0x3
            &&& (w >> 5) & 0x7ffff == (encoded >> 2) & 0x7ffff
        }),
{
}

/// An `adrp` whose immediate was set for a page in reach computes that page.
pub proof fn law_page21_computes_page(insn: u32, place: u64, target: u64)
    requires
        signed_fits(page_distance(place, target) >> 12, 21),
    ensures
        adrp_computes(with_imm21(insn, page_distance(place, target) >> 12), place) == page_of(
            target,
        ),
        with_imm21(insn, page_distance(place, target) >> 12) & !0x60ff_ffe0u32 == insn
            & !0x60ff_ffe0u32,
{
    let delta = page_distance(place, target);
    let p = page_of(place);
    let t = page_of(target);
    lemma_wrapping_sub(t, p);
    lemma_signed_fits(delta >> 12);
    lemma_page_bits(place);
    lemma_page_bits(target);
    let encoded = ((delta >> 12) as u32) & 0x1f_ffff;
    lemma_imm21_kept(insn, encoded, 0);
    lemma_adrp_bits(p, t, with_imm21(insn, delta >> 12), delta, encoded);
}

proof fn lemma_low12(low: u64, reg: u32)
    by (bit_vector)
    requires
        low <= 0xfff,
        reg <= 31,
    ensures
        ((0x9100_0000u32 | ((low as u32) << 10) | (reg << 5) | reg) >> 10) & 0xfff == low,
        low & 0b111 == 0 ==> (((0xf940_0000u32 | ((((low >> 3) as u32) & 0xfff) << 10) | (reg << 5)
            | reg) >> 10) & 0xfff) * 8 == low,
{
}

/// The `adrp` and `add` of a thunk together compute the target's address.
pub proof fn law_thunk_reaches_target(thunk_addr: u64, target: u64)
    requires
        thunk(thunk_addr, target) is Ok,
    ensures
        adrp_computes(adrp(16, thunk_addr, target, "thunk target"@)->Ok_0, thunk_addr)
            + add_immediate_value(add_pageoff(16, target)) == target,
{
    lemma_adrp_pair(16, thunk_addr, target, "thunk target"@);
    lemma_page_bits(target);
    lemma_low12(target & 0xfff, 16);
}

/// The `adrp` and `ldr` of a stub together load from the lazy pointer.
pub proof fn law_stub_loads_lazy_pointer(stub_addr: u64, lazy_pointer_addr: u64)
    requires
        stub(stub_addr, lazy_pointer_addr) is Ok,
    ensures
        adrp_computes(adrp(16, stub_addr, lazy_pointer_addr, "lazy pointer"@)->Ok_0, stub_addr)
            + ldr_offset(ldr_pageoff(16, lazy_pointer_addr, "lazy pointer"@)->Ok_0)
            == lazy_pointer_addr,
{
    lemma_adrp_pair(16, stub_addr, lazy_pointer_addr, "lazy pointer"@);
    lemma_page_bits(lazy_pointer_addr);
    lemma_low12(lazy_pointer_addr & 0xfff, 16);
}

proof fn lemma_adrp_pair(reg: u8, place: u64, target: u64, referent: Seq<char>)
    requires
        reg <= 31,
        adrp(reg, place, target, referent) is Ok,
    ensures
        adrp_computes(adrp(reg, place, target, referent)->Ok_0, place) == page_of(target),
{
    let delta = page_distance(place, target);
    let p = page_of(place);
    let t = page_of(target);
    lemma_wrapping_sub(t, p);
    lemma_signed_fits(delta >> 12);
    lemma_page_bits(place);
    lemma_page_bits(target);
    let encoded = ((delta >> 12) as u32) & 0x1f_ffff;
    lemma_imm21_kept(0, encoded, reg as u32);
    lemma_adrp_bits(p, t, adrp(reg, place, target, referent)->Ok_0, delta, encoded);
}

proof fn lemma_fields(encoded: u32, low: u32, reg: u32, imm: u32)
    by (bit_vector)
    requires
        reg <= 31,
    ensures
        (0x9000_0000u32 | ((encoded & 0x3) << 29) | (((encoded >> 2) & 0x7ffff) << 5) | reg)
            & 0x9f00_001f == 0x9000_0000u32 + reg,
        (0xf940_0000u32 | ((low & 0xfff) << 10) | (reg << 5) | reg) & 0xffc0_03ff == 0xf940_0000u32
            + reg * 33,
        low <= 0xfff ==> (0x9100_0000u32 | (low << 10) | (reg << 5) | reg) & 0xffc0_03ff
            == 0x9100_0000u32 + reg * 33,
        (0x1400_0000u32 | (imm & 0x03ff_ffff)) & 0xfc00_0000 == 0x1400_0000u32,
{
}

proof fn lemma_words(words: Seq<u32>, s: Seq<u8>, i: int)
    requires
        0 <= i < words.len(),
        s.len() == 4 * words.len(),
        forall|j: int|
            #![trigger words[j]]
            0 <= j < words.len() ==> s.subrange(4 * j, 4 * j + 4) == bytes::le32_bytes(words[j]),
    ensures
        bytes::le32(s, 4 * i) == words[i],
{
    assert(s.subrange(4 * i, 4 * i + 4) == bytes::le32_bytes(words[i]));
    bytes::lemma_le32_of_bytes(s, 4 * i, words[i]);
}

proof fn lemma_three(a: u32, b: u32, c: u32)
    ensures
        ({
            let s = bytes::le32_bytes(a) + bytes::le32_bytes(b) + bytes::le32_bytes(c);
            &&& s.len() == 12
            &&& bytes::le32(s, 0) == a
            &&& bytes::le32(s, 4) == b
            &&& bytes::le32(s, 8) == c
        }),
{
    let s = bytes::le32_bytes(a) + bytes::le32_bytes(b) + bytes::le32_bytes(c);
    assert(s.subrange(0, 4) =~= bytes::le32_bytes(a));
    assert(s.subrange(4, 8) =~= bytes::le32_bytes(b));
    assert(s.subrange(8, 12) =~= bytes::le32_bytes(c));
    bytes::lemma_le32_of_bytes(s, 0, a);
    bytes::lemma_le32_of_bytes(s, 4, b);
    bytes::lemma_le32_of_bytes(s, 8, c);
}

/// `adrp x<reg>` at `place`.
pub open spec fn is_adrp(insn: u32, reg: u32) -> bool {
    insn & 0x9f00_001f == 0x9000_0000u32 + reg
}

/// `ldr x<reg>, [x<reg>, #..]`.
pub open spec fn is_ldr(insn: u32, reg: u32) -> bool {
    insn & 0xffc0_03ff == 0xf940_0000u32 + reg * 33
}

/// `add x<reg>, x<reg>, #..`.
pub open spec fn is_add(insn: u32, reg: u32) -> bool {
    insn & 0xffc0_03ff == 0x9100_0000u32 + reg * 33
}

/// The code of a stub loads what the lazy pointer holds and jumps there.
pub proof fn law_stub_jumps_through_lazy_pointer(stub_addr: u64, lazy_pointer_addr: u64)
    requires
        stub(stub_addr, lazy_pointer_addr) is Ok,
    ensures
        ({
            let s = stub(stub_addr, lazy_pointer_addr)->Ok_0;
            &&& s.len() == 12
            &&& is_adrp(bytes::le32(s, 0), 16)
            &&& is_ldr(bytes::le32(s, 4), 16)
            &&& adrp_computes(bytes::le32(s, 0), stub_addr) + ldr_offset(bytes::le32(s, 4))
                == lazy_pointer_addr
            &&& bytes::le32(s, 8) == 0xd61f_0200
        }),
{
    let a = adrp(16, stub_addr, lazy_pointer_addr, "lazy pointer"@)->Ok_0;
    let b = ldr_pageoff(16, lazy_pointer_addr, "lazy pointer"@)->Ok_0;
    lemma_three(a, b, BR_X16);
    law_stub_loads_lazy_pointer(stub_addr, lazy_pointer_addr);
    let delta = page_distance(stub_addr, lazy_pointer_addr);
    lemma_fields(
        ((delta >> 12) as u32) & 0x1f_ffff,
        ((lazy_pointer_addr & 0xfff) >> 3) as u32,
        16,
        0,
    );
}

/// The code of a thunk computes the target's address and jumps there.
pub proof fn law_thunk_jumps_to_target(thunk_addr: u64, target: u64)
    requires
        thunk(thunk_addr, target) is Ok,
    ensures
        ({
            let s = thunk(thunk_addr, target)->Ok_0;
            &&& s.len() == 12
            &&& is_adrp(bytes::le32(s, 0), 16)
            &&& is_add(bytes::le32(s, 4), 16)
            &&& adrp_computes(bytes::le32(s, 0), thunk_addr) + add_immediate_value(
                bytes::le32(s, 4),
            ) == target
            &&& bytes::le32(s, 8) == 0xd61f_0200
        }),
{
    let a = adrp(16, thunk_addr, target, "thunk target"@)->Ok_0;
    lemma_three(a, add_pageoff(16, target), BR_X16);
    law_thunk_reaches_target(thunk_addr, target);
    let delta = page_distance(thunk_addr, target);
    lemma_page_bits(target);
    lemma_fields(((delta >> 12) as u32) & 0x1f_ffff, (target & 0xfff) as u32, 16, 0);
}

/// The code of a stub helper entry loads the word behind it, which is where the entry's lazy
/// bind record starts, and jumps to the header.
pub proof fn law_helper_entry_passes_offset(entry_addr: u64, header_addr: u64, lazy_bind_offset: u32)
    requires
        stub_helper_entry(entry_addr, header_addr, lazy_bind_offset) is Ok,
    ensures
        ({
            let s = stub_helper_entry(entry_addr, header_addr, lazy_bind_offset)->Ok_0;
            &&& s.len() == 12
            &&& bytes::le32(s, 0) == 0x1800_0050
            &&& bytes::le32(s, 4) & 0xfc00_0000 == 0x1400_0000
            &&& branch_goes_to(bytes::le32(s, 4), entry_addr.wrapping_add(4)) == header_addr
            &&& bytes::le32(s, 8) == lazy_bind_offset
        }),
{
    let place = entry_addr.wrapping_add(4);
    let b = branch26(place, header_addr, "__stub_helper header"@)->Ok_0;
    lemma_three(LDR_W16_PLUS8, b, lazy_bind_offset);
    law_encoded_branch_reaches_target(place, header_addr, "__stub_helper header"@);
    lemma_fields(0, 0, 0, (distance(place, header_addr) >> 2) as u32);
}

/// The code of the stub helper's header pushes the address of dyld's private slot with the
/// entry's word, and jumps to where the binder's slot of the pointer table points.
pub proof fn law_helper_header_calls_binder(
    header_addr: u64,
    dyld_private_addr: u64,
    binder_got_addr: u64,
)
    requires
        stub_helper_header(header_addr, dyld_private_addr, binder_got_addr) is Ok,
    ensures
        ({
            let s = stub_helper_header(header_addr, dyld_private_addr, binder_got_addr)->Ok_0;
            &&& s.len() == 24
            &&& is_adrp(bytes::le32(s, 0), 17)
            &&& is_add(bytes::le32(s, 4), 17)
            &&& adrp_computes(bytes::le32(s, 0), header_addr) + add_immediate_value(
                bytes::le32(s, 4),
            ) == dyld_private_addr
            &&& bytes::le32(s, 8) == 0xa9bf_47f0
            &&& is_adrp(bytes::le32(s, 12), 16)
            &&& is_ldr(bytes::le32(s, 16), 16)
            &&& adrp_computes(bytes::le32(s, 12), header_addr.wrapping_add(12)) + ldr_offset(
                bytes::le32(s, 16),
            ) == binder_got_addr
            &&& bytes::le32(s, 20) == 0xd61f_0200
        }),
{
    let at2 = header_addr.wrapping_add(12);
    let s = stub_helper_header(header_addr, dyld_private_addr, binder_got_addr)->Ok_0;
    let a = adrp(17, header_addr, dyld_private_addr, "__dyld_private"@)->Ok_0;
    let b = add_pageoff(17, dyld_private_addr);
    let d = adrp(16, at2, binder_got_addr, "dyld_stub_binder@GOT"@)->Ok_0;
    let e = ldr_pageoff(16, binder_got_addr, "dyld_stub_binder@GOT"@)->Ok_0;
    let words = seq![a, b, STP_X16_X17_PRE, d, e, BR_X16];
    assert(s.subrange(0, 4) =~= bytes::le32_bytes(a));
    assert(s.subrange(4, 8) =~= bytes::le32_bytes(b));
    assert(s.subrange(8, 12) =~= bytes::le32_bytes(STP_X16_X17_PRE));
    assert(s.subrange(12, 16) =~= bytes::le32_bytes(d));
    assert(s.subrange(16, 20) =~= bytes::le32_bytes(e));
    assert(s.subrange(20, 24) =~= bytes::le32_bytes(BR_X16));
    assert forall|j: int| #![trigger words[j]] 0 <= j < words.len() implies s.subrange(
        4 * j,
        4 * j + 4,
    ) == bytes::le32_bytes(words[j]) by {
        assert(j == 0 || j == 1 || j == 2 || j == 3 || j == 4 || j == 5);
    }
    lemma_words(words, s, 0);
    lemma_words(words, s, 1);
    lemma_words(words, s, 2);
    lemma_words(words, s, 3);
    lemma_words(words, s, 4);
    lemma_words(words, s, 5);
    lemma_adrp_pair(17, header_addr, dyld_private_addr, "__dyld_private"@);
    lemma_adrp_pair(16, at2, binder_got_addr, "dyld_stub_binder@GOT"@);
    lemma_page_bits(dyld_private_addr);
    lemma_page_bits(binder_got_addr);
    lemma_low12(dyld_private_addr & 0xfff, 17);
    lemma_low12(binder_got_addr & 0xfff, 16);
    let d1 = page_distance(header_addr, dyld_private_addr);
    let d2 = page_distance(at2, binder_got_addr);
    lemma_fields(
        ((d1 >> 12) as u32) & 0x1f_ffff,
        (dyld_private_addr & 0xfff) as u32,
        17,
        0,
    );
    lemma_fields(
        ((d2 >> 12) as u32) & 0x1f_ffff,
        ((binder_got_addr & 0xfff) >> 3) as u32,
        16,
        0,
    );
}

} // verus!
