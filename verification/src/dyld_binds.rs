//! What dyld makes of a stream of bind opcodes.

use vstd::prelude::*;
use crate::dyld_info;
use crate::dyld_info::BindModel;
use crate::leb;
use crate::text;

verus! {

/// A pointer and what dyld puts there; or, within a stream, what the opcodes so far say.
#[verifier::ext_equal]
pub struct Bound {
    pub segment_index: u8,
    pub segment_offset: u64,
    pub ordinal: u16,
    pub name: Seq<u8>,
    pub weak_import: bool,
    pub addend: int,
}

/// How many bytes stand in front of the first zero.
pub open spec fn until_zero(s: Seq<u8>) -> nat
    decreases s.len(),
{
    if s.len() == 0 || s[0] == 0 {
        0
    } else {
        1 + until_zero(s.drop_first())
    }
}

/// The pointers that a stream binds, from a state on, up to the end of the stream.
pub open spec fn bound(s: Seq<u8>, st: Bound) -> Seq<Bound>
    decreases s.len(),
{
    if s.len() == 0 || s[0] == 0 {
        seq![]
    } else {
        let op = s[0] / 16;
        let imm = (s[0] % 16) as u8;
        let tail = s.drop_first();
        let number = leb::read64(tail);
        let n = (number->0).1;
        if op == 1 {
            bound(tail, Bound { ordinal: imm as u16, ..st })
        } else if op == 2 {
            if number is Some && n <= tail.len() {
                bound(tail.skip(n as int), Bound { ordinal: (number->0).0 as u16, ..st })
            } else {
                seq![]
            }
        } else if op == 3 {
            bound(tail, Bound { ordinal: (0xfff0 + imm) as u16, ..st })
        } else if op == 4 {
            let len = until_zero(tail) as int;
            if len < tail.len() {
                bound(
                    tail.skip(len + 1),
                    Bound { name: tail.take(len), weak_import: imm % 2 == 1, ..st },
                )
            } else {
                seq![]
            }
        } else if op == 5 {
            bound(tail, st)
        } else if op == 6 {
            match leb::read_signed(tail) {
                Some((v, n)) => if n <= tail.len() {
                    bound(tail.skip(n as int), Bound { addend: v, ..st })
                } else {
                    seq![]
                },
                None => seq![],
            }
        } else if op == 7 {
            if number is Some && n <= tail.len() {
                bound(
                    tail.skip(n as int),
                    Bound { segment_index: imm, segment_offset: (number->0).0, ..st },
                )
            } else {
                seq![]
            }
        } else if op == 9 {
            seq![st] + bound(tail, moved(st))
        } else {
            seq![]
        }
    }
}

/// The state behind a bound pointer.
pub open spec fn moved(st: Bound) -> Bound {
    Bound { segment_offset: st.segment_offset.wrapping_add(8), ..st }
}

/// What a record asks for.
pub open spec fn wanted(r: BindModel) -> Bound {
    Bound {
        segment_index: r.segment_index,
        segment_offset: r.segment_offset,
        ordinal: r.ordinal,
        name: text::utf8(r.name),
        weak_import: r.weak_import,
        addend: r.addend as int,
    }
}

/// The record's segment fits an opcode and its name ends where it ends.
pub open spec fn writable(r: BindModel) -> bool {
    r.segment_index < 16 && !text::utf8(r.name).contains(0u8)
}

proof fn lemma_until_zero(name: Seq<u8>, rest: Seq<u8>)
    requires
        !name.contains(0u8),
    ensures
        until_zero(name + seq![0u8] + rest) == name.len(),
    decreases name.len(),
{
    let s = name + seq![0u8] + rest;
    if name.len() > 0 {
        assert(name.contains(name[0]));
        assert(s[0] == name[0]);
        assert(s.drop_first() =~= name.drop_first() + seq![0u8] + rest);
        assert(!name.drop_first().contains(0u8)) by {
            if name.drop_first().contains(0u8) {
                let i = choose|i: int|
                    0 <= i < name.drop_first().len() && name.drop_first()[i] == 0u8;
                assert(name[i + 1] == 0u8);
            }
        }
        lemma_until_zero(name.drop_first(), rest);
    } else {
        assert(s[0] == 0);
    }
}

proof fn lemma_ordinal(ordinal: u16, rest: Seq<u8>, st: Bound)
    ensures
        bound(dyld_info::ordinal_ops(ordinal) + rest, st) == bound(rest, Bound { ordinal, ..st }),
{
    let s = dyld_info::ordinal_ops(ordinal) + rest;
    if ordinal >= 0xfff0 || ordinal < 16 {
        assert(s.drop_first() =~= rest);
    } else {
        leb::law_uleb_read_of_write(ordinal as u64, rest);
        leb::lemma_uleb_short(ordinal as u64);
        let n = leb::uleb(ordinal as nat).len() as int;
        assert(s.drop_first() =~= leb::uleb(ordinal as nat) + rest);
        assert(s.drop_first().skip(n) =~= rest);
    }
}

proof fn lemma_symbol(name: Seq<char>, weak_import: bool, rest: Seq<u8>, st: Bound)
    requires
        !text::utf8(name).contains(0u8),
    ensures
        bound(dyld_info::symbol_ops(name, weak_import) + rest, st) == bound(
            rest,
            Bound { name: text::utf8(name), weak_import, ..st },
        ),
{
    let s = dyld_info::symbol_ops(name, weak_import) + rest;
    let bytes = text::utf8(name);
    assert(s.drop_first() =~= bytes + seq![0u8] + rest);
    lemma_until_zero(bytes, rest);
    assert(s.drop_first().take(bytes.len() as int) =~= bytes);
    assert(s.drop_first().skip(bytes.len() as int + 1) =~= rest);
}

proof fn lemma_goto(segment_index: u8, segment_offset: u64, rest: Seq<u8>, st: Bound)
    requires
        segment_index < 16,
    ensures
        bound(dyld_info::bind_goto(segment_index, segment_offset) + rest, st) == bound(
            rest,
            Bound { segment_index, segment_offset, ..st },
        ),
{
    let s = dyld_info::bind_goto(segment_index, segment_offset) + rest;
    assert(0x70u8 | (segment_index & 0x0f) == 0x70 + segment_index) by (bit_vector)
        requires
            segment_index < 16,
    ;
    leb::law_uleb_read_of_write(segment_offset, rest);
    leb::lemma_uleb_short(segment_offset);
    let n = leb::uleb(segment_offset as nat).len() as int;
    assert(s.drop_first() =~= leb::uleb(segment_offset as nat) + rest);
    assert(s.drop_first().skip(n) =~= rest);
}

proof fn lemma_addend(v: int, rest: Seq<u8>, st: Bound)
    ensures
        bound(seq![0x60u8] + leb::sleb(v) + rest, st) == bound(rest, Bound { addend: v, ..st }),
{
    let s = seq![0x60u8] + leb::sleb(v) + rest;
    assert(s.drop_first() =~= leb::sleb(v) + rest);
    leb::law_sleb_read_of_write(v, rest);
    assert(s.drop_first().skip(leb::sleb(v).len() as int) =~= rest);
}

proof fn lemma_one(rest: Seq<u8>, st: Bound)
    ensures
        bound(seq![0x51u8] + rest, st) == bound(rest, st),
        bound(seq![0x90u8] + rest, st) == seq![st] + bound(rest, moved(st)),
        bound(seq![0u8] + rest, st) == Seq::<Bound>::empty(),
{
    assert((seq![0x51u8] + rest).drop_first() =~= rest);
    assert((seq![0x90u8] + rest).drop_first() =~= rest);
}

proof fn lemma_record(r: BindModel, addend: i64, rest: Seq<u8>, st: Bound)
    requires
        writable(r),
        st.addend == addend,
    ensures
        bound(dyld_info::bind_ops(r, addend) + rest, st) == seq![wanted(r)] + bound(
            rest,
            moved(wanted(r)),
        ),
{
    let e6 = seq![0x90u8] + rest;
    let e5 = dyld_info::bind_goto(r.segment_index, r.segment_offset) + e6;
    let e4 = if r.addend == addend {
        e5
    } else {
        seq![0x60u8] + leb::sleb(r.addend as int) + e5
    };
    let e3 = seq![0x51u8] + e4;
    let e2 = dyld_info::symbol_ops(r.name, r.weak_import) + e3;
    let e1 = dyld_info::ordinal_ops(r.ordinal) + e2;
    assert(0x50u8 | 1u8 == 0x51) by (bit_vector);
    assert(dyld_info::bind_ops(r, addend) + rest =~= e1);
    let s1 = Bound { ordinal: r.ordinal, ..st };
    let s2 = Bound { name: text::utf8(r.name), weak_import: r.weak_import, ..s1 };
    let s3 = Bound { addend: r.addend as int, ..s2 };
    lemma_ordinal(r.ordinal, e2, st);
    lemma_symbol(r.name, r.weak_import, e3, s1);
    lemma_one(e4, s2);
    if r.addend != addend {
        lemma_addend(r.addend as int, e5, s2);
    }
    lemma_goto(r.segment_index, r.segment_offset, e6, s3);
    lemma_one(rest, wanted(r));
}

/// The state behind these records.
spec fn state_behind(records: Seq<BindModel>, st: Bound) -> Bound {
    if records.len() == 0 {
        st
    } else {
        moved(wanted(records.last()))
    }
}

proof fn lemma_records(records: Seq<BindModel>, rest: Seq<u8>, st: Bound)
    requires
        forall|i: int| 0 <= i < records.len() ==> writable(#[trigger] records[i]),
        st.addend == 0,
    ensures
        bound(dyld_info::binds_ops(records) + rest, st) == records.map_values(
            |r: BindModel| wanted(r),
        ) + bound(rest, state_behind(records, st)),
    decreases records.len(),
{
    if records.len() == 0 {
        assert(dyld_info::binds_ops(records) + rest =~= rest);
        assert(records.map_values(|r: BindModel| wanted(r)) + bound(rest, st) =~= bound(rest, st));
    } else {
        let front = records.drop_last();
        let last = records.last();
        let addend = dyld_info::addend_behind(front);
        let ops = dyld_info::bind_ops(last, addend);
        assert forall|i: int| 0 <= i < front.len() implies writable(#[trigger] front[i]) by {
            assert(front[i] == records[i]);
        }
        assert(writable(records[records.len() - 1]));
        lemma_records(front, ops + rest, st);
        assert(dyld_info::binds_ops(records) + rest =~= dyld_info::binds_ops(front) + (ops + rest));
        lemma_record(last, addend, rest, state_behind(front, st));
        let tail = bound(rest, moved(wanted(last)));
        assert(records.map_values(|r: BindModel| wanted(r)) + tail =~= front.map_values(
            |r: BindModel| wanted(r),
        ) + (seq![wanted(last)] + tail));
    }
}

/// dyld binds exactly the pointers that the stream was made for, in their order, each to
/// the name, the dylib and the addend of its record.
pub proof fn law_bind_stream_binds_records(records: Seq<BindModel>, st: Bound)
    requires
        forall|i: int| 0 <= i < records.len() ==> writable(#[trigger] records[i]),
        st.addend == 0,
    ensures
        bound(dyld_info::bind_stream(records), st).len() == records.len(),
        forall|i: int|
            0 <= i < records.len() ==> #[trigger] bound(dyld_info::bind_stream(records), st)[i] == (
            Bound {
                segment_index: records[i].segment_index,
                segment_offset: records[i].segment_offset,
                ordinal: records[i].ordinal,
                name: text::utf8(records[i].name),
                weak_import: records[i].weak_import,
                addend: records[i].addend as int,
            }),
{
    if records.len() > 0 {
        let done = seq![0u8];
        lemma_records(records, done, st);
        lemma_one(seq![], state_behind(records, st));
        assert(done =~= done + Seq::<u8>::empty());
        let all = records.map_values(|r: BindModel| wanted(r));
        assert(bound(dyld_info::bind_stream(records), st) =~= all);
        assert forall|i: int| 0 <= i < records.len() implies #[trigger] all[i] == wanted(
            records[i],
        ) by {}
    }
}

/// A lazy record binds its one pointer, and dyld reads no further.
pub proof fn law_lazy_record_binds_one(
    segment_index: u8,
    segment_offset: u64,
    ordinal: u16,
    name: Seq<char>,
    weak_import: bool,
    rest: Seq<u8>,
    st: Bound,
)
    requires
        segment_index < 16,
        !text::utf8(name).contains(0u8),
    ensures
        bound(
            dyld_info::lazy_record(segment_index, segment_offset, ordinal, name, weak_import) + rest,
            st,
        ) == seq![
            Bound {
                segment_index,
                segment_offset,
                ordinal,
                name: text::utf8(name),
                weak_import,
                addend: st.addend,
            },
        ],
{
    let e4 = seq![0u8] + rest;
    let e3 = seq![0x90u8] + e4;
    let e2 = dyld_info::symbol_ops(name, weak_import) + e3;
    let e1 = dyld_info::ordinal_ops(ordinal) + e2;
    let s1 = Bound { segment_index, segment_offset, ..st };
    let s2 = Bound { ordinal, ..s1 };
    let s3 = Bound { name: text::utf8(name), weak_import, ..s2 };
    assert(dyld_info::lazy_record(segment_index, segment_offset, ordinal, name, weak_import) + rest
        =~= dyld_info::bind_goto(segment_index, segment_offset) + e1);
    lemma_goto(segment_index, segment_offset, e1, st);
    lemma_ordinal(ordinal, e2, s1);
    lemma_symbol(name, weak_import, e3, s2);
    lemma_one(e4, s3);
    lemma_one(rest, moved(s3));
    assert(seq![s3] + Seq::<Bound>::empty() =~= seq![s3]);
}

} // verus!
