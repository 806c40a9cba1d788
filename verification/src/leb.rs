//! Variable-length integers: seven bits a byte, least significant first, with the high
//! bit set on all bytes but the last.

use vstd::prelude::*;

verus! {

/// `v` as a variable-length integer.
pub open spec fn uleb(v: nat) -> Seq<u8>
    decreases v,
{
    if v < 0x80 {
        seq![v as u8]
    } else {
        seq![(v % 0x80 + 0x80) as u8] + uleb(v / 0x80)
    }
}

pub fn write_uleb(value: u64, out: &mut Vec<u8>)
    ensures
        final(out)@ == old(out)@ + uleb(value as nat),
{
    let mut v: u64 = value;
    let ghost before = out@;
    while v >= 0x80
        invariant
            before == old(out)@,
            before + uleb(value as nat) == out@ + uleb(v as nat),
        decreases v,
    {
        let ghost prev = out@;
        out.push((v % 0x80 + 0x80) as u8);
        assert(prev + uleb(v as nat) =~= out@ + uleb((v / 0x80) as nat));
        v = v / 0x80;
    }
    out.push(v as u8);
    assert(out@ =~= before + uleb(value as nat));
}

/// The number at the front of the bytes and how many bytes it takes; nothing if it does
/// not end or does not fit 64 bits.
pub open spec fn read(s: Seq<u8>) -> Option<(nat, nat)>
    decreases s.len(),
{
    if s.len() == 0 {
        None
    } else if s[0] < 0x80 {
        Some((s[0] as nat, 1))
    } else {
        match read(s.drop_first()) {
            Some((v, n)) => Some(((s[0] - 0x80 + 0x80 * v) as nat, n + 1)),
            None => None,
        }
    }
}

pub open spec fn read64(s: Seq<u8>) -> Option<(u64, usize)> {
    match read(s) {
        Some((v, n)) => if v <= u64::MAX {
            Some((v as u64, n as usize))
        } else {
            None
        },
        None => None,
    }
}

proof fn lemma_read_size(s: Seq<u8>)
    ensures
        match read(s) {
            Some((v, n)) => 1 <= n <= s.len(),
            None => true,
        },
    decreases s.len(),
{
    if s.len() > 0 {
        lemma_read_size(s.drop_first());
    }
}

/// Reads a variable-length integer.
pub fn read_uleb(bytes: &[u8]) -> (r: Option<(u64, usize)>)
    ensures
        r == read64(bytes@),
{
    assert(bytes@.skip(0) =~= bytes@);
    read_uleb_from(bytes, 0)
}

fn read_uleb_from(bytes: &[u8], at: usize) -> (r: Option<(u64, usize)>)
    requires
        at <= bytes@.len(),
    ensures
        r == read64(bytes@.skip(at as int)),
    decreases bytes@.len() - at,
{
    proof {
        lemma_read_size(bytes@.skip(at as int));
    }
    if at >= bytes.len() {
        return None;
    }
    let b: u8 = bytes[at];
    assert(bytes@.skip(at as int)[0] == b);
    if b < 0x80 {
        return Some((b as u64, 1));
    }
    proof {
        assert(bytes@.skip(at as int).drop_first() =~= bytes@.skip(at + 1));
        lemma_read_size(bytes@.skip(at + 1));
    }
    match read_uleb_from(bytes, at + 1) {
        Some((v, n)) => {
            if v <= (u64::MAX - (b as u64 - 0x80)) / 0x80 {
                Some((b as u64 - 0x80 + 0x80 * v, n + 1))
            } else {
                None
            }
        },
        None => None,
    }
}

/// Reading gives back the number that was written, and the bytes that it took.
pub proof fn law_uleb_read_of_write(v: u64, rest: Seq<u8>)
    ensures
        read64(uleb(v as nat) + rest) == Some((v, uleb(v as nat).len() as usize)),
{
    lemma_read_of_write(v as nat, rest);
    lemma_uleb_len(v as nat, 10);
}

proof fn lemma_uleb_len(v: nat, n: nat)
    requires
        n == 10 && v <= u64::MAX || n == 9 && v < 0x200_0000_0000_0000 || n == 8 && v
            < 0x4_0000_0000_0000 || n == 7 && v < 0x800_0000_0000 || n == 6 && v < 0x10_0000_0000
            || n == 5 && v < 0x2000_0000 || n == 4 && v < 0x40_0000 || n == 3 && v < 0x8000 || n
            == 2 && v < 0x100 || n == 1 && v < 2,
    ensures
        uleb(v).len() <= n,
    decreases n,
{
    if v >= 0x80 {
        lemma_uleb_len(v / 0x80, (n - 1) as nat);
    }
}

/// A number takes at least one byte.
pub proof fn lemma_uleb_nonempty(v: nat)
    ensures
        uleb(v).len() > 0,
{
}

/// A 64-bit number takes at most ten bytes.
pub proof fn lemma_uleb_short(v: u64)
    ensures
        uleb(v as nat).len() <= 10,
{
    lemma_uleb_len(v as nat, 10);
}

proof fn lemma_read_of_write(v: nat, rest: Seq<u8>)
    ensures
        read(uleb(v) + rest) == Some((v, uleb(v).len())),
    decreases v,
{
    let s = uleb(v) + rest;
    if v >= 0x80 {
        assert(s.drop_first() =~= uleb(v / 0x80) + rest);
        lemma_read_of_write(v / 0x80, rest);
        assert(s[0] == (v % 0x80 + 0x80) as u8);
    } else {
        assert(s[0] == v as u8);
    }
}

/// `v` as a signed variable-length integer: two's complement, with as many bytes as it
/// takes to show the sign.
pub open spec fn sleb(v: int) -> Seq<u8>
    decreases
            if v < 0 {
                -v
            } else {
                v
            },
{
    if -0x40 <= v < 0x40 {
        seq![(v % 0x80) as u8]
    } else {
        seq![(v % 0x80 + 0x80) as u8] + sleb(v / 0x80)
    }
}

pub fn write_sleb(value: i64, out: &mut Vec<u8>)
    ensures
        final(out)@ == old(out)@ + sleb(value as int),
{
    let mut v: i64 = value;
    let ghost before = out@;
    while v < -0x40 || v >= 0x40
        invariant
            before == old(out)@,
            before + sleb(value as int) == out@ + sleb(v as int),
        decreases
                if v < 0 {
                    -v
                } else {
                    v as int
                },
    {
        let ghost prev = out@;
        let low: u8 = low_bits(v);
        let next: i64 = floor_div(v);
        out.push(low + 0x80);
        assert(prev + sleb(v as int) =~= out@ + sleb(next as int));
        v = next;
    }
    let low: u8 = low_bits(v);
    out.push(low);
    assert(out@ =~= before + sleb(value as int));
}

fn low_bits(v: i64) -> (r: u8)
    ensures
        r == v as int % 0x80,
        r < 0x80,
{
    if v >= 0 {
        (v % 0x80) as u8
    } else {
        // The quotient of `-(v + 1)` is one less than the magnitude of the floor.
        (0x7f - (-(v + 1)) % 0x80) as u8
    }
}

fn floor_div(v: i64) -> (r: i64)
    ensures
        r == v as int / 0x80,
{
    if v >= 0 {
        v / 0x80
    } else {
        -1 - (-(v + 1)) / 0x80
    }
}

/// The signed number at the start of `s`, and how many bytes it takes.
pub open spec fn read_signed(s: Seq<u8>) -> Option<(int, nat)>
    decreases s.len(),
{
    if s.len() == 0 {
        None
    } else if s[0] < 0x40 {
        Some((s[0] as int, 1))
    } else if s[0] < 0x80 {
        Some((s[0] - 0x80, 1))
    } else {
        match read_signed(s.drop_first()) {
            Some((v, n)) => Some((s[0] - 0x80 + 0x80 * v, n + 1)),
            None => None,
        }
    }
}

/// Reading a signed number back gives the number that was written.
pub proof fn law_sleb_read_of_write(v: int, rest: Seq<u8>)
    ensures
        read_signed(sleb(v) + rest) == Some((v, sleb(v).len())),
        sleb(v).len() > 0,
    decreases
            if v < 0 {
                -v
            } else {
                v
            },
{
    let s = sleb(v) + rest;
    if -0x40 <= v < 0x40 {
        assert(s[0] == (v % 0x80) as u8);
    } else {
        assert(s.drop_first() =~= sleb(v / 0x80) + rest);
        law_sleb_read_of_write(v / 0x80, rest);
        assert(s[0] == (v % 0x80 + 0x80) as u8);
    }
}

} // verus!
