//! Little-endian integers in byte sequences.

use vstd::prelude::*;

verus! {

/// The unsigned 16-bit number stored least significant byte first at `at`.
pub open spec fn le16(s: Seq<u8>, at: int) -> u16 {
    (s[at] + 0x100 * s[at + 1]) as u16
}

/// The unsigned 32-bit number stored least significant byte first at `at`.
pub open spec fn le32(s: Seq<u8>, at: int) -> u32 {
    (s[at] + 0x100 * s[at + 1] + 0x1_0000 * s[at + 2] + 0x100_0000 * s[at + 3]) as u32
}

/// The unsigned 64-bit number stored least significant byte first at `at`.
pub open spec fn le64(s: Seq<u8>, at: int) -> u64 {
    (le32(s, at) + 0x1_0000_0000 * le32(s, at + 4)) as u64
}

/// The two bytes of `v`, least significant first.
pub open spec fn le16_bytes(v: u16) -> Seq<u8> {
    seq![(v % 0x100) as u8, (v / 0x100) as u8]
}

/// The four bytes of `v`, least significant first.
pub open spec fn le32_bytes(v: u32) -> Seq<u8> {
    seq![
        (v % 0x100) as u8,
        (v / 0x100 % 0x100) as u8,
        (v / 0x1_0000 % 0x100) as u8,
        (v / 0x100_0000) as u8,
    ]
}

/// The eight bytes of `v`, least significant first.
pub open spec fn le64_bytes(v: u64) -> Seq<u8> {
    le32_bytes((v % 0x1_0000_0000) as u32) + le32_bytes((v / 0x1_0000_0000) as u32)
}

pub fn read_u16(bytes: &[u8], at: usize) -> (v: u16)
    requires
        at + 2 <= bytes@.len(),
    ensures
        v == le16(bytes@, at as int),
{
    bytes[at] as u16 + 0x100 * (bytes[at + 1] as u16)
}

pub fn read_u32(bytes: &[u8], at: usize) -> (v: u32)
    requires
        at + 4 <= bytes@.len(),
    ensures
        v == le32(bytes@, at as int),
{
    bytes[at] as u32 + 0x100 * (bytes[at + 1] as u32) + 0x1_0000 * (bytes[at + 2] as u32)
        + 0x100_0000 * (bytes[at + 3] as u32)
}

pub fn read_u64(bytes: &[u8], at: usize) -> (v: u64)
    requires
        at + 8 <= bytes@.len(),
    ensures
        v == le64(bytes@, at as int),
{
    assert(bytes.len() == bytes@.len());
    read_u32(bytes, at) as u64 + 0x1_0000_0000 * (read_u32(bytes, at + 4) as u64)
}

pub fn push_u16(out: &mut Vec<u8>, v: u16)
    ensures
        final(out)@ == old(out)@ + le16_bytes(v),
{
    out.push((v % 0x100) as u8);
    out.push((v / 0x100) as u8);
}

pub fn push_u32(out: &mut Vec<u8>, v: u32)
    ensures
        final(out)@ == old(out)@ + le32_bytes(v),
{
    out.push((v % 0x100) as u8);
    out.push((v / 0x100 % 0x100) as u8);
    out.push((v / 0x1_0000 % 0x100) as u8);
    out.push((v / 0x100_0000) as u8);
}

pub fn push_u64(out: &mut Vec<u8>, v: u64)
    ensures
        final(out)@ == old(out)@ + le64_bytes(v),
{
    push_u32(out, (v % 0x1_0000_0000) as u32);
    push_u32(out, (v / 0x1_0000_0000) as u32);
}

/// Appends the whole of `part` to `out`.
pub fn push_bytes(out: &mut Vec<u8>, part: &[u8])
    ensures
        final(out)@ == old(out)@ + part@,
{
    let mut i: usize = 0;
    while i < part.len()
        invariant
            i <= part@.len(),
            out@ == old(out)@ + part@.take(i as int),
        decreases part@.len() - i,
    {
        out.push(part[i]);
        i += 1;
    }
    assert(part@.take(i as int) == part@);
}

/// Reading a 16-bit number back from the bytes it was written as gives the number.
pub proof fn lemma_le16_of_bytes(s: Seq<u8>, at: int, v: u16)
    requires
        0 <= at,
        at + 2 <= s.len(),
        s.subrange(at, at + 2) == le16_bytes(v),
    ensures
        le16(s, at) == v,
{
    let part = s.subrange(at, at + 2);
    assert(part[0] == s[at] && part[1] == s[at + 1]);
}

/// Reading a 32-bit number back from the bytes it was written as gives the number.
pub proof fn lemma_le32_of_bytes(s: Seq<u8>, at: int, v: u32)
    requires
        0 <= at,
        at + 4 <= s.len(),
        s.subrange(at, at + 4) == le32_bytes(v),
    ensures
        le32(s, at) == v,
{
    let part = s.subrange(at, at + 4);
    assert(part[0] == s[at] && part[1] == s[at + 1] && part[2] == s[at + 2] && part[3] == s[at
        + 3]);
}

/// Reading a 64-bit number back from the bytes it was written as gives the number.
pub proof fn lemma_le64_of_bytes(s: Seq<u8>, at: int, v: u64)
    requires
        0 <= at,
        at + 8 <= s.len(),
        s.subrange(at, at + 8) == le64_bytes(v),
    ensures
        le64(s, at) == v,
{
    let part = s.subrange(at, at + 8);
    let lo = le32_bytes((v % 0x1_0000_0000) as u32);
    let hi = le32_bytes((v / 0x1_0000_0000) as u32);
    assert(s.subrange(at, at + 4) =~= part.subrange(0, 4));
    assert(part.subrange(0, 4) =~= lo);
    assert(s.subrange(at + 4, at + 8) =~= part.subrange(4, 8));
    assert(part.subrange(4, 8) =~= hi);
    lemma_le32_of_bytes(s, at, (v % 0x1_0000_0000) as u32);
    lemma_le32_of_bytes(s, at + 4, (v / 0x1_0000_0000) as u32);
}

/// Writing a 16-bit number that was read gives back the bytes it was read from.
pub proof fn lemma_bytes_of_le16(s: Seq<u8>, at: int)
    requires
        0 <= at,
        at + 2 <= s.len(),
    ensures
        le16_bytes(le16(s, at)) == s.subrange(at, at + 2),
{
    assert(le16_bytes(le16(s, at)) =~= s.subrange(at, at + 2));
}

/// Writing a 32-bit number that was read gives back the bytes it was read from.
pub proof fn lemma_bytes_of_le32(s: Seq<u8>, at: int)
    requires
        0 <= at,
        at + 4 <= s.len(),
    ensures
        le32_bytes(le32(s, at)) == s.subrange(at, at + 4),
{
    let v: u32 = le32(s, at);
    assert(v / 0x100 == s[at + 1] + 0x100 * s[at + 2] + 0x1_0000 * s[at + 3]);
    assert(v / 0x1_0000 == s[at + 2] + 0x100 * s[at + 3]);
    assert(v / 0x100_0000 == s[at + 3]);
    assert(v % 0x100 == s[at]);
    assert(v / 0x100 % 0x100 == s[at + 1]);
    assert(v / 0x1_0000 % 0x100 == s[at + 2]);
    assert(le32_bytes(v) =~= s.subrange(at, at + 4));
}

proof fn lemma_halves(lo: u32, hi: u32, v: u64)
    requires
        v == lo + 0x1_0000_0000 * hi,
    ensures
        (v % 0x1_0000_0000) as u32 == lo,
        (v / 0x1_0000_0000) as u32 == hi,
{
}

/// Writing a 64-bit number that was read gives back the bytes it was read from.
pub proof fn lemma_bytes_of_le64(s: Seq<u8>, at: int)
    requires
        0 <= at,
        at + 8 <= s.len(),
    ensures
        le64_bytes(le64(s, at)) == s.subrange(at, at + 8),
{
    lemma_bytes_of_le32(s, at);
    lemma_bytes_of_le32(s, at + 4);
    let lo = le32(s, at);
    let hi = le32(s, at + 4);
    let v = le64(s, at);
    lemma_halves(lo, hi, v);
    assert(le64_bytes(v) == le32_bytes(lo) + le32_bytes(hi));
    assert(s.subrange(at, at + 4) + s.subrange(at + 4, at + 8) =~= s.subrange(at, at + 8));
}


/// `s` with `part` in place of the bytes from `at` on.
pub open spec fn replaced(s: Seq<u8>, at: int, part: Seq<u8>) -> Seq<u8> {
    s.take(at) + part + s.skip(at + part.len())
}

/// Overwrites the bytes from `at` on with `part`.
pub fn overwrite(out: &mut Vec<u8>, at: usize, part: &[u8])
    requires
        at + part@.len() <= old(out)@.len(),
    ensures
        final(out)@ == replaced(old(out)@, at as int, part@),
{
    let mut i: usize = 0;
    let n: usize = part.len();
    assert(out.len() == out@.len());
    assert(out@ =~= replaced(old(out)@, at as int, part@.take(0)));
    while i < n
        invariant
            i <= n,
            n == part@.len(),
            at + n <= old(out)@.len() <= usize::MAX,
            out@ == replaced(old(out)@, at as int, part@.take(i as int)),
        decreases n - i,
    {
        out[at + i] = part[i];
        assert(out@ =~= replaced(old(out)@, at as int, part@.take(i + 1)));
        i += 1;
    }
    assert(part@.take(i as int) =~= part@);
}

pub fn overwrite_u32(out: &mut Vec<u8>, at: usize, v: u32)
    requires
        at + 4 <= old(out)@.len(),
    ensures
        final(out)@ == replaced(old(out)@, at as int, le32_bytes(v)),
{
    let mut part: Vec<u8> = Vec::new();
    push_u32(&mut part, v);
    assert(part@ =~= le32_bytes(v));
    overwrite(out, at, part.as_slice());
}

pub fn overwrite_u64(out: &mut Vec<u8>, at: usize, v: u64)
    requires
        at + 8 <= old(out)@.len(),
    ensures
        final(out)@ == replaced(old(out)@, at as int, le64_bytes(v)),
{
    let mut part: Vec<u8> = Vec::new();
    push_u64(&mut part, v);
    assert(part@ =~= le64_bytes(v));
    overwrite(out, at, part.as_slice());
}

/// What was overwritten is read back, and nothing else has changed.
pub proof fn lemma_replaced(s: Seq<u8>, at: int, part: Seq<u8>)
    requires
        0 <= at,
        at + part.len() <= s.len(),
    ensures
        replaced(s, at, part).len() == s.len(),
        replaced(s, at, part).subrange(at, at + part.len()) == part,
        forall|i: int|
            0 <= i < s.len() && !(at <= i < at + part.len()) ==> #[trigger] replaced(s, at, part)[i]
                == s[i],
{
    assert(replaced(s, at, part).subrange(at, at + part.len()) =~= part);
}

/// `n` zero bytes.
pub open spec fn zeros(n: int) -> Seq<u8> {
    Seq::new(
        if n < 0 {
            0
        } else {
            n as nat
        },
        |i: int| 0u8,
    )
}

/// Appends `n` zero bytes.
pub fn push_zeros(out: &mut Vec<u8>, n: usize)
    ensures
        final(out)@ == old(out)@ + zeros(n as int),
{
    let mut i: usize = 0;
    assert(out@ =~= old(out)@ + zeros(0));
    while i < n
        invariant
            i <= n,
            out@ == old(out)@ + zeros(i as int),
        decreases n - i,
    {
        out.push(0);
        assert(out@ =~= old(out)@ + zeros(i + 1));
        i += 1;
    }
}

} // verus!
