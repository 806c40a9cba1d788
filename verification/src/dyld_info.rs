//! The opcode streams that tell dyld which pointers to slide and which to bind.

use vstd::prelude::*;
use crate::bytes::push_bytes;
use crate::leb;
use crate::leb::{write_sleb, write_uleb};
use crate::macho::constants::{
    BIND_OPCODE_DONE, BIND_OPCODE_DO_BIND, BIND_OPCODE_SET_ADDEND_SLEB,
    BIND_OPCODE_SET_DYLIB_ORDINAL_IMM, BIND_OPCODE_SET_DYLIB_ORDINAL_ULEB,
    BIND_OPCODE_SET_DYLIB_SPECIAL_IMM, BIND_OPCODE_SET_SEGMENT_AND_OFFSET_ULEB,
    BIND_OPCODE_SET_SYMBOL_TRAILING_FLAGS_IMM, BIND_OPCODE_SET_TYPE_IMM,
    BIND_SYMBOL_FLAGS_WEAK_IMPORT, BIND_TYPE_POINTER, REBASE_IMMEDIATE_MASK,
    REBASE_OPCODE_ADD_ADDR_ULEB, REBASE_OPCODE_DONE, REBASE_OPCODE_DO_REBASE_IMM_TIMES,
    REBASE_OPCODE_DO_REBASE_ULEB_TIMES, REBASE_OPCODE_SET_SEGMENT_AND_OFFSET_ULEB,
    REBASE_OPCODE_SET_TYPE_IMM, REBASE_TYPE_POINTER,
};
use crate::sorting::Order;
use crate::text;

verus! {

/// A pointer that dyld slides with the image.
#[derive(Debug, Clone, Copy, PartialEq, Eq, Structural)]
pub struct RebaseSite {
    pub segment_index: u8,
    pub segment_offset: u64,
}

/// Sites by segment, then by place.
pub struct ByPlace;

impl Order<RebaseSite> for ByPlace {
    open spec fn less(a: RebaseSite, b: RebaseSite) -> bool {
        a.segment_index < b.segment_index || a.segment_index == b.segment_index
            && a.segment_offset < b.segment_offset
    }

    fn is_less(a: &RebaseSite, b: &RebaseSite) -> (r: bool) {
        a.segment_index < b.segment_index || a.segment_index == b.segment_index
            && a.segment_offset < b.segment_offset
    }

    proof fn law_asymmetric(a: RebaseSite, b: RebaseSite) {
    }

    proof fn law_transitive(a: RebaseSite, b: RebaseSite, c: RebaseSite) {
    }
}

/// The opcode that slides `n` pointers in a row.
pub open spec fn rebase_run(n: nat) -> Seq<u8> {
    if n < 16 {
        seq![(REBASE_OPCODE_DO_REBASE_IMM_TIMES + n) as u8]
    } else {
        seq![REBASE_OPCODE_DO_REBASE_ULEB_TIMES] + leb::uleb(n)
    }
}

pub fn emit_rebase_run(out: &mut Vec<u8>, n: usize)
    ensures
        final(out)@ == old(out)@ + rebase_run(n as nat),
{
    if n < 16 {
        out.push(REBASE_OPCODE_DO_REBASE_IMM_TIMES + n as u8);
    } else {
        out.push(REBASE_OPCODE_DO_REBASE_ULEB_TIMES);
        write_uleb(n as u64, out);
    }
    assert(out@ =~= old(out)@ + rebase_run(n as nat));
}

/// The place behind `n` pointers in a row.
pub open spec fn behind(offset: u64, n: nat) -> u64 {
    offset.wrapping_add((n as u64).wrapping_mul(8))
}

/// How many of the sites from `i` on follow one another without a gap, once `n` do.
pub open spec fn run_from(sites: Seq<RebaseSite>, i: int, n: nat) -> nat
    decreases sites.len() - i - n,
{
    if i + n < sites.len() && sites[i + n].segment_index == sites[i].segment_index && sites[i
        + n].segment_offset == behind(sites[i].segment_offset, n) {
        run_from(sites, i, n + 1)
    } else {
        n
    }
}

pub proof fn lemma_run_from(sites: Seq<RebaseSite>, i: int, n: nat)
    requires
        0 <= i,
        i + n <= sites.len(),
    ensures
        n <= run_from(sites, i, n),
        i + run_from(sites, i, n) <= sites.len(),
        forall|k: int|
            n <= k < run_from(sites, i, n) ==> (#[trigger] sites[i + k]).segment_index
                == sites[i].segment_index && sites[i + k].segment_offset == behind(
                sites[i].segment_offset,
                k as nat,
            ),
    decreases sites.len() - i - n,
{
    if i + n < sites.len() && sites[i + n].segment_index == sites[i].segment_index && sites[i
        + n].segment_offset == behind(sites[i].segment_offset, n) {
        lemma_run_from(sites, i, n + 1);
    }
}

/// The opcodes that go to a segment.
pub open spec fn rebase_goto(site: RebaseSite) -> Seq<u8> {
    seq![
        REBASE_OPCODE_SET_SEGMENT_AND_OFFSET_ULEB | (site.segment_index & REBASE_IMMEDIATE_MASK),
    ] + leb::uleb(site.segment_offset as nat)
}

/// The opcodes that move from `at` to a site: to its segment if another was current,
/// forward in it if the site is further on.
pub open spec fn rebase_move(at: Option<RebaseSite>, site: RebaseSite) -> Seq<u8> {
    match at {
        Some(at) => if at.segment_index == site.segment_index {
            if site.segment_offset > at.segment_offset {
                seq![REBASE_OPCODE_ADD_ADDR_ULEB] + leb::uleb(
                    (site.segment_offset - at.segment_offset) as nat,
                )
            } else {
                seq![]
            }
        } else {
            rebase_goto(site)
        },
        None => rebase_goto(site),
    }
}

/// The opcodes for the sites from `i` on.
pub open spec fn rebase_ops(sites: Seq<RebaseSite>, i: int, at: Option<RebaseSite>) -> Seq<u8>
    decreases sites.len() - i,
    when 0 <= i
    via rebase_ops_ends
{
    if i >= sites.len() {
        seq![REBASE_OPCODE_DONE]
    } else {
        let n = run_from(sites, i, 1);
        let next = RebaseSite {
            segment_index: sites[i].segment_index,
            segment_offset: behind(sites[i].segment_offset, n),
        };
        rebase_move(at, sites[i]) + rebase_run(n) + rebase_ops(sites, i + n, Some(next))
    }
}

#[via_fn]
proof fn rebase_ops_ends(sites: Seq<RebaseSite>, i: int, at: Option<RebaseSite>) {
    if i < sites.len() {
        lemma_run_from(sites, i, 1);
    }
}

/// The stream for these sites; none where there are no sites.
pub open spec fn rebase_stream(sites: Seq<RebaseSite>) -> Seq<u8> {
    if sites.len() == 0 {
        seq![]
    } else {
        seq![REBASE_OPCODE_SET_TYPE_IMM | REBASE_TYPE_POINTER] + rebase_ops(sites, 0, None)
    }
}

fn emit_rebase_move(out: &mut Vec<u8>, at: Option<RebaseSite>, site: RebaseSite)
    ensures
        final(out)@ == old(out)@ + rebase_move(at, site),
{
    let ghost before = out@;
    if let Some(at) = at {
        if at.segment_index == site.segment_index {
            if site.segment_offset > at.segment_offset {
                out.push(REBASE_OPCODE_ADD_ADDR_ULEB);
                write_uleb(site.segment_offset - at.segment_offset, out);
            }
            assert(out@ =~= before + rebase_move(Some(at), site));
            return;
        }
    }
    out.push(
        REBASE_OPCODE_SET_SEGMENT_AND_OFFSET_ULEB | (site.segment_index & REBASE_IMMEDIATE_MASK),
    );
    write_uleb(site.segment_offset, out);
    assert(out@ =~= before + rebase_move(at, site));
}

/// Writes the stream for sites in order.
pub fn emit_rebase_stream(sites: &Vec<RebaseSite>) -> (r: Vec<u8>)
    ensures
        r@ == rebase_stream(sites@),
{
    let mut out: Vec<u8> = Vec::new();
    if sites.len() == 0 {
        return out;
    }
    out.push(REBASE_OPCODE_SET_TYPE_IMM | REBASE_TYPE_POINTER);
    let ghost want = rebase_stream(sites@);
    let mut at: Option<RebaseSite> = None;
    let mut i: usize = 0;
    while i < sites.len()
        invariant
            i <= sites@.len(),
            want == rebase_stream(sites@),
            want == out@ + rebase_ops(sites@, i as int, at),
        decreases sites@.len() - i,
    {
        let ghost before = out@;
        let ghost was = at;
        let site = sites[i];
        emit_rebase_move(&mut out, at, site);
        let mut n: usize = 1;
        assert(sites.len() == sites@.len());
        while i + n < sites.len() && sites[i + n].segment_index == site.segment_index && sites[i
            + n].segment_offset == site.segment_offset.wrapping_add((n as u64).wrapping_mul(8))
            invariant
                1 <= n,
                i + n <= sites@.len(),
                sites@.len() <= usize::MAX,
                site == sites@[i as int],
                run_from(sites@, i as int, 1) == run_from(sites@, i as int, n as nat),
            decreases sites@.len() - i - n,
        {
            n += 1;
        }
        emit_rebase_run(&mut out, n);
        at = Some(
            RebaseSite {
                segment_index: site.segment_index,
                segment_offset: site.segment_offset.wrapping_add((n as u64).wrapping_mul(8)),
            },
        );
        proof {
            assert(before + rebase_ops(sites@, i as int, was) =~= out@ + rebase_ops(
                sites@,
                i + n,
                at,
            ));
        }
        i += n;
    }
    out.push(REBASE_OPCODE_DONE);
    assert(out@ =~= want);
    out
}

/// A pointer that dyld binds to a symbol of a dylib.
#[derive(Debug, Clone)]
pub struct BindRecordSpec {
    pub segment_index: u8,
    pub segment_offset: u64,
    pub ordinal: u16,
    pub name: String,
    pub weak_import: bool,
    pub addend: i64,
}

/// A `BindRecordSpec` with its name as a character sequence.
#[verifier::ext_equal]
pub struct BindModel {
    pub segment_index: u8,
    pub segment_offset: u64,
    pub ordinal: u16,
    pub name: Seq<char>,
    pub weak_import: bool,
    pub addend: i64,
}

impl View for BindRecordSpec {
    type V = BindModel;

    open spec fn view(&self) -> BindModel {
        BindModel {
            segment_index: self.segment_index,
            segment_offset: self.segment_offset,
            ordinal: self.ordinal,
            name: self.name@,
            weak_import: self.weak_import,
            addend: self.addend,
        }
    }
}

pub open spec fn binds_view(specs: Seq<BindRecordSpec>) -> Seq<BindModel> {
    specs.map_values(|s: BindRecordSpec| s@)
}

/// The opcodes that name a dylib. Ordinals from 0xfff0 on are dyld's special ones.
pub open spec fn ordinal_ops(ordinal: u16) -> Seq<u8> {
    if ordinal >= 0xfff0 {
        seq![(BIND_OPCODE_SET_DYLIB_SPECIAL_IMM + (ordinal - 0xfff0)) as u8]
    } else if ordinal < 16 {
        seq![(BIND_OPCODE_SET_DYLIB_ORDINAL_IMM + ordinal) as u8]
    } else {
        seq![BIND_OPCODE_SET_DYLIB_ORDINAL_ULEB] + leb::uleb(ordinal as nat)
    }
}

fn emit_ordinal(out: &mut Vec<u8>, ordinal: u16)
    ensures
        final(out)@ == old(out)@ + ordinal_ops(ordinal),
{
    if ordinal >= 0xfff0 {
        out.push(BIND_OPCODE_SET_DYLIB_SPECIAL_IMM + (ordinal - 0xfff0) as u8);
    } else if ordinal < 16 {
        out.push(BIND_OPCODE_SET_DYLIB_ORDINAL_IMM + ordinal as u8);
    } else {
        out.push(BIND_OPCODE_SET_DYLIB_ORDINAL_ULEB);
        write_uleb(ordinal as u64, out);
    }
    assert(out@ =~= old(out)@ + ordinal_ops(ordinal));
}

/// The opcodes that name a symbol.
pub open spec fn symbol_ops(name: Seq<char>, weak_import: bool) -> Seq<u8> {
    seq![
        (BIND_OPCODE_SET_SYMBOL_TRAILING_FLAGS_IMM + if weak_import {
            BIND_SYMBOL_FLAGS_WEAK_IMPORT
        } else {
            0
        }) as u8,
    ] + text::utf8(name) + seq![0u8]
}

fn emit_symbol(out: &mut Vec<u8>, name: &str, weak_import: bool)
    ensures
        final(out)@ == old(out)@ + symbol_ops(name@, weak_import),
{
    let flags: u8 = if weak_import {
        BIND_SYMBOL_FLAGS_WEAK_IMPORT
    } else {
        0
    };
    out.push(BIND_OPCODE_SET_SYMBOL_TRAILING_FLAGS_IMM + flags);
    push_bytes(out, name.as_bytes());
    out.push(0);
    assert(out@ =~= old(out)@ + symbol_ops(name@, weak_import));
}

/// The opcodes that go to a pointer.
pub open spec fn bind_goto(segment_index: u8, segment_offset: u64) -> Seq<u8> {
    seq![BIND_OPCODE_SET_SEGMENT_AND_OFFSET_ULEB | (segment_index & 0x0f)] + leb::uleb(
        segment_offset as nat,
    )
}

fn emit_bind_goto(out: &mut Vec<u8>, segment_index: u8, segment_offset: u64)
    ensures
        final(out)@ == old(out)@ + bind_goto(segment_index, segment_offset),
{
    out.push(BIND_OPCODE_SET_SEGMENT_AND_OFFSET_ULEB | (segment_index & 0x0f));
    write_uleb(segment_offset, out);
    assert(out@ =~= old(out)@ + bind_goto(segment_index, segment_offset));
}

/// The opcodes of one record, behind one with this addend.
pub open spec fn bind_ops(record: BindModel, addend: i64) -> Seq<u8> {
    ordinal_ops(record.ordinal) + symbol_ops(record.name, record.weak_import) + seq![
        BIND_OPCODE_SET_TYPE_IMM | BIND_TYPE_POINTER,
    ] + (if record.addend == addend {
        seq![]
    } else {
        seq![BIND_OPCODE_SET_ADDEND_SLEB] + leb::sleb(record.addend as int)
    }) + bind_goto(record.segment_index, record.segment_offset) + seq![BIND_OPCODE_DO_BIND]
}

/// The addend in force behind these records.
pub open spec fn addend_behind(records: Seq<BindModel>) -> i64 {
    if records.len() == 0 {
        0
    } else {
        records.last().addend
    }
}

/// The opcodes of the records, in their order.
pub open spec fn binds_ops(records: Seq<BindModel>) -> Seq<u8>
    decreases records.len(),
{
    if records.len() == 0 {
        seq![]
    } else {
        let rest = records.drop_last();
        binds_ops(rest) + bind_ops(records.last(), addend_behind(rest))
    }
}

/// The stream for these records; none where there are no records.
pub open spec fn bind_stream(records: Seq<BindModel>) -> Seq<u8> {
    if records.len() == 0 {
        seq![]
    } else {
        binds_ops(records) + seq![BIND_OPCODE_DONE]
    }
}

fn emit_bind_record(out: &mut Vec<u8>, record: &BindRecordSpec, addend: i64)
    ensures
        final(out)@ == old(out)@ + bind_ops(record@, addend),
{
    let ghost before = out@;
    emit_ordinal(out, record.ordinal);
    emit_symbol(out, record.name.as_str(), record.weak_import);
    out.push(BIND_OPCODE_SET_TYPE_IMM | BIND_TYPE_POINTER);
    if record.addend != addend {
        out.push(BIND_OPCODE_SET_ADDEND_SLEB);
        write_sleb(record.addend, out);
    }
    emit_bind_goto(out, record.segment_index, record.segment_offset);
    out.push(BIND_OPCODE_DO_BIND);
    assert(out@ =~= before + bind_ops(record@, addend));
}

pub fn emit_bind_records(records: &Vec<BindRecordSpec>) -> (r: Vec<u8>)
    ensures
        r@ == bind_stream(binds_view(records@)),
{
    let mut out: Vec<u8> = Vec::new();
    if records.len() == 0 {
        return out;
    }
    let ghost all = binds_view(records@);
    let mut addend: i64 = 0;
    let mut i: usize = 0;
    assert(out@ =~= binds_ops(all.take(0)));
    while i < records.len()
        invariant
            i <= records@.len(),
            all == binds_view(records@),
            addend == addend_behind(all.take(i as int)),
            out@ == binds_ops(all.take(i as int)),
        decreases records@.len() - i,
    {
        proof {
            assert(all.take(i + 1).drop_last() =~= all.take(i as int));
            assert(all.take(i + 1).last() == records@[i as int]@);
        }
        emit_bind_record(&mut out, &records[i], addend);
        addend = records[i].addend;
        i += 1;
    }
    assert(all.take(i as int) =~= all);
    out.push(BIND_OPCODE_DONE);
    out
}

/// The opcodes of a record that dyld reads on the symbol's first use.
pub open spec fn lazy_record(
    segment_index: u8,
    segment_offset: u64,
    ordinal: u16,
    name: Seq<char>,
    weak_import: bool,
) -> Seq<u8> {
    bind_goto(segment_index, segment_offset) + ordinal_ops(ordinal) + symbol_ops(name, weak_import)
        + seq![BIND_OPCODE_DO_BIND, BIND_OPCODE_DONE]
}

pub fn emit_lazy_bind_record(
    out: &mut Vec<u8>,
    segment_index: u8,
    segment_offset: u64,
    ordinal: u16,
    name: &str,
    weak_import: bool,
)
    ensures
        final(out)@ == old(out)@ + lazy_record(
            segment_index,
            segment_offset,
            ordinal,
            name@,
            weak_import,
        ),
{
    let ghost before = out@;
    emit_bind_goto(out, segment_index, segment_offset);
    emit_ordinal(out, ordinal);
    emit_symbol(out, name, weak_import);
    out.push(BIND_OPCODE_DO_BIND);
    out.push(BIND_OPCODE_DONE);
    assert(out@ =~= before + lazy_record(
        segment_index,
        segment_offset,
        ordinal,
        name@,
        weak_import,
    ));
}

/// What a rebase opcode stream makes dyld do, from a place on: the pointers that it
/// slides, up to the end of the stream.
pub open spec fn rebased(s: Seq<u8>, at: RebaseSite) -> Seq<RebaseSite>
    decreases s.len(),
{
    if s.len() == 0 || s[0] == 0 {
        seq![]
    } else {
        let op = (s[0] / 16 * 16) as u8;
        let imm = (s[0] % 16) as u8;
        let tail = s.drop_first();
        if op == 0x10 {
            rebased(tail, at)
        } else if op == 0x50 {
            pointers(at, imm as nat) + rebased(
                tail,
                RebaseSite { segment_offset: behind(at.segment_offset, imm as nat), ..at },
            )
        } else {
            match leb::read64(tail) {
                Some((v, n)) => if n > tail.len() {
                    seq![]
                } else if op == 0x20 {
                    rebased(
                        tail.skip(n as int),
                        RebaseSite { segment_index: imm, segment_offset: v },
                    )
                } else if op == 0x30 {
                    rebased(
                        tail.skip(n as int),
                        RebaseSite {
                            segment_offset: at.segment_offset.wrapping_add(v),
                            ..at
                        },
                    )
                } else if op == 0x60 {
                    pointers(at, v as nat) + rebased(
                        tail.skip(n as int),
                        RebaseSite { segment_offset: behind(at.segment_offset, v as nat), ..at },
                    )
                } else {
                    seq![]
                },
                None => seq![],
            }
        }
    }
}

/// `n` pointers in a row.
pub open spec fn pointers(at: RebaseSite, n: nat) -> Seq<RebaseSite> {
    Seq::new(
        n,
        |k: int| RebaseSite { segment_offset: behind(at.segment_offset, k as nat), ..at },
    )
}

/// Segments fit an opcode, and pointers of one segment do not overlap.
pub open spec fn apart(sites: Seq<RebaseSite>) -> bool {
    &&& sites.len() < 0x1000_0000_0000_0000
    &&& forall|i: int|
        0 <= i < sites.len() ==> (#[trigger] sites[i]).segment_index < 16
            && sites[i].segment_offset <= u64::MAX - 8
    &&& forall|i: int|
        0 < i < sites.len() ==> (#[trigger] sites[i - 1]).segment_index < sites[i].segment_index
            || sites[i - 1].segment_index == sites[i].segment_index && sites[i - 1].segment_offset
            + 8 <= sites[i].segment_offset
}

proof fn lemma_move_rebased(at: Option<RebaseSite>, site: RebaseSite, here: RebaseSite, rest: Seq<
    u8,
>)
    requires
        site.segment_index < 16,
        match at {
            Some(at) => here == at && (at.segment_index == site.segment_index
                ==> at.segment_offset <= site.segment_offset),
            None => true,
        },
    ensures
        rebased(rebase_move(at, site) + rest, here) == rebased(rest, site),
{
    let s = rebase_move(at, site) + rest;
    let seg = site.segment_index;
    assert(REBASE_OPCODE_SET_SEGMENT_AND_OFFSET_ULEB | (seg & REBASE_IMMEDIATE_MASK) == 0x20 + seg)
        by {
        assert(0x20u8 | (seg & 0x0f) == 0x20 + seg) by (bit_vector)
            requires
                seg < 16,
        ;
    }
    let goto = match at {
        Some(at) => at.segment_index != site.segment_index,
        None => true,
    };
    if goto {
        let v = site.segment_offset;
        assert(s[0] == 0x20 + seg);
        assert(s.drop_first() =~= leb::uleb(v as nat) + rest);
        leb::law_uleb_read_of_write(v, rest);
        leb::lemma_uleb_short(v);
        let n = leb::uleb(v as nat).len();
        assert(s.drop_first().skip(n as int) =~= rest);
    } else if site.segment_offset > here.segment_offset {
        let v = (site.segment_offset - here.segment_offset) as u64;
        assert(s[0] == REBASE_OPCODE_ADD_ADDR_ULEB);
        assert(s.drop_first() =~= leb::uleb(v as nat) + rest);
        leb::law_uleb_read_of_write(v, rest);
        leb::lemma_uleb_short(v);
        let n = leb::uleb(v as nat).len();
        assert(s.drop_first().skip(n as int) =~= rest);
    } else {
        assert(s =~= rest);
        assert(here == site);
    }
}

proof fn lemma_run_rebased(at: RebaseSite, n: nat, rest: Seq<u8>)
    requires
        n <= u64::MAX,
    ensures
        rebased(rebase_run(n) + rest, at) == pointers(at, n) + rebased(
            rest,
            RebaseSite { segment_offset: behind(at.segment_offset, n), ..at },
        ),
{
    let s = rebase_run(n) + rest;
    if n < 16 {
        assert(s.drop_first() =~= rest);
        assert(s[0] == 0x50 + n);
    } else {
        assert(s.drop_first() =~= leb::uleb(n) + rest);
        leb::law_uleb_read_of_write(n as u64, rest);
        leb::lemma_uleb_short(n as u64);
        let used = leb::uleb(n).len();
        assert(s.drop_first().skip(used as int) =~= rest);
    }
}

proof fn lemma_behind_step(offset: u64, n: nat)
    requires
        0 < n < 0x1000_0000_0000_0000,
    ensures
        behind(offset, 0) == offset,
        behind(offset, n) == behind(offset, (n - 1) as nat).wrapping_add(8),
{
    let a: u64 = n as u64;
    let b: u64 = (n - 1) as u64;
    assert(a.wrapping_mul(8) == a * 8);
    assert(b.wrapping_mul(8) == b * 8);
}

/// A run of sites is the pointers in a row from its first on, and ends behind its last.
proof fn lemma_run_is_pointers(sites: Seq<RebaseSite>, i: int, n: nat)
    requires
        apart(sites),
        0 <= i < sites.len(),
        n == run_from(sites, i, 1),
    ensures
        1 <= n,
        i + n <= sites.len(),
        sites.subrange(i, i + n) == pointers(sites[i], n),
        behind(sites[i].segment_offset, n) == sites[i + n - 1].segment_offset + 8,
        sites[i + n - 1].segment_index == sites[i].segment_index,
{
    lemma_run_from(sites, i, 1);
    let site = sites[i];
    lemma_behind_step(site.segment_offset, n);
    assert forall|k: int| 0 <= k < n implies sites[i + k] == #[trigger] pointers(site, n)[k] by {
        if k > 0 {
            assert(sites[i + k].segment_index == site.segment_index);
        }
    }
    assert(sites.subrange(i, i + n) =~= pointers(site, n));
    let k = n - 1;
    assert(sites[i + k] == pointers(site, n)[k]);
    assert(sites[i + k].segment_offset <= u64::MAX - 8);
}

proof fn lemma_ops_rebased(sites: Seq<RebaseSite>, i: int, at: Option<RebaseSite>, here: RebaseSite)
    requires
        apart(sites),
        0 <= i <= sites.len(),
        match at {
            Some(at) => here == at && (i < sites.len() && at.segment_index
                == sites[i].segment_index ==> at.segment_offset <= sites[i].segment_offset),
            None => true,
        },
    ensures
        rebased(rebase_ops(sites, i, at), here) == sites.skip(i),
    decreases sites.len() - i,
{
    if i < sites.len() {
        let n = run_from(sites, i, 1);
        lemma_run_is_pointers(sites, i, n);
        let site = sites[i];
        let next = RebaseSite {
            segment_index: site.segment_index,
            segment_offset: behind(site.segment_offset, n),
        };
        let more = rebase_ops(sites, i + n, Some(next));
        assert(rebase_ops(sites, i, at) =~= rebase_move(at, site) + (rebase_run(n) + more));
        lemma_move_rebased(at, site, here, rebase_run(n) + more);
        lemma_run_rebased(site, n, more);
        if i + n < sites.len() {
            let k = i + n;
            assert(sites[k - 1].segment_index < sites[k].segment_index || sites[k
                - 1].segment_offset + 8 <= sites[k].segment_offset);
        }
        lemma_ops_rebased(sites, i + n, Some(next), next);
        assert(sites.subrange(i, i + n) + sites.skip(i + n) =~= sites.skip(i));
    } else {
        let s = rebase_ops(sites, i, at);
        assert(s[0] == REBASE_OPCODE_DONE);
        assert(sites.skip(i) =~= seq![]);
    }
}

/// dyld slides exactly the sites that the stream was made for, where they do not overlap
/// and their segments fit an opcode.
pub proof fn law_rebase_stream_slides_sites(sites: Seq<RebaseSite>, start: RebaseSite)
    requires
        apart(sites),
    ensures
        rebased(rebase_stream(sites), start) == sites,
{
    if sites.len() > 0 {
        let s = rebase_stream(sites);
        assert(0x10u8 | 1u8 == 0x11u8) by (bit_vector);
        assert(s[0] == 0x11);
        assert(s.drop_first() =~= rebase_ops(sites, 0, None));
        lemma_ops_rebased(sites, 0, None, start);
        assert(sites.skip(0) =~= sites);
    } else {
        assert(rebased(rebase_stream(sites), start) =~= sites);
    }
}

} // verus!
