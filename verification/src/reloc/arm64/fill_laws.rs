//! What the sections that the linker makes hold: pointers to what they stand for, and code
//! that gets there.

use vstd::prelude::*;
use crate::bytes;
use crate::layout;
use crate::reloc::arm64::apply::Contents;
use crate::reloc::arm64::encode;
use crate::reloc::arm64::fill;
use crate::reloc::arm64::maps;
use crate::reloc::arm64::places;
use crate::reloc::arm64::targets::Targets;
use crate::reloc::arm64::RelocFault;
use crate::section::OutputSection;
use crate::synth::{SlotEntry, SyntheticPlan};

verus! {

proof fn lemma_filled(
    s: Seq<u8>,
    n: nat,
    first: int,
    stride: int,
    part: spec_fn(int) -> Result<Seq<u8>, RelocFault>,
)
    requires
        fill::filled(s, n, first, stride, part) is Ok,
        0 <= first,
        0 < stride,
        first + n * stride <= s.len(),
        forall|j: int| 0 <= j < n && (#[trigger] part(j)) is Ok ==> part(j)->Ok_0.len() == stride,
    ensures
        ({
            let out = fill::filled(s, n, first, stride, part)->Ok_0;
            &&& out.len() == s.len()
            &&& forall|x: int|
                0 <= x < s.len() && !(first <= x < first + n * stride) ==> #[trigger] out[x] == s[x]
            &&& forall|j: int|
                0 <= j < n ==> (#[trigger] part(j)) is Ok && out.subrange(
                    first + j * stride,
                    first + j * stride + stride,
                ) == part(j)->Ok_0
        }),
    decreases n,
{
    if n > 0 {
        let m = (n - 1) as nat;
        assert(n * stride == m * stride + stride) by (nonlinear_arith)
            requires
                n == m + 1,
        ;
        assert(0 <= m * stride) by (nonlinear_arith)
            requires
                0 < stride,
        ;
        lemma_filled(s, m, first, stride, part);
        let b = fill::filled(s, m, first, stride, part)->Ok_0;
        let p = part(n - 1)->Ok_0;
        let at = first + (n - 1) * stride;
        bytes::lemma_replaced(b, at, p);
        let out = fill::filled(s, n, first, stride, part)->Ok_0;
        assert forall|j: int| 0 <= j < n implies (#[trigger] part(j)) is Ok && out.subrange(
            first + j * stride,
            first + j * stride + stride,
        ) == part(j)->Ok_0 by {
            if j < m {
                assert(j * stride + stride <= m * stride) by (nonlinear_arith)
                    requires
                        j + 1 <= m,
                        0 < stride,
                ;
                assert(0 <= j * stride) by (nonlinear_arith)
                    requires
                        0 < stride,
                        0 <= j,
                ;
                assert(out.subrange(first + j * stride, first + j * stride + stride)
                    =~= b.subrange(first + j * stride, first + j * stride + stride));
            }
        }
    }
}

proof fn lemma_slot_address(base: u64, stride: u64, entries: Seq<SlotEntry>, e: int)
    requires
        0 <= e < entries.len(),
        entries.len() * stride <= u64::MAX,
        entries.len() <= u64::MAX,
        forall|j: int| e < j < entries.len() ==> (#[trigger] entries[j]).symbol != entries[e].symbol,
    ensures
        maps::slot_addresses(base, stride, entries).contains_key(entries[e].symbol.0),
        maps::slot_addresses(base, stride, entries)[entries[e].symbol.0] == (base + e * stride)
            % 0x1_0000_0000_0000_0000,
    decreases entries.len(),
{
    let front = entries.drop_last();
    let last = entries.len() - 1;
    assert(last * stride + stride == entries.len() * stride) by (nonlinear_arith)
        requires
            last + 1 == entries.len(),
    ;
    assert(0 <= last * stride) by (nonlinear_arith)
        requires
            0 <= last,
    ;
    if e < last {
        assert(front[e] == entries[e]);
        assert forall|j: int| e < j < front.len() implies (#[trigger] front[j]).symbol
            != front[e].symbol by {
            assert(front[j] == entries[j]);
        }
        assert(entries[last].symbol != entries[e].symbol);
        lemma_slot_address(base, stride, front, e);
    } else {
        let k = last as u64;
        assert(k.wrapping_mul(stride) == last * stride) by {
            assert(0 <= k * stride <= u64::MAX);
        }
    }
}

/// The section `i` is the first of that segment and name.
pub open spec fn first_section(
    sections: Seq<OutputSection>,
    i: int,
    segment: Seq<char>,
    name: Seq<char>,
) -> bool {
    &&& 0 <= i < sections.len()
    &&& sections[i].segment@ == segment && sections[i].name@ == name
    &&& forall|k: int|
        0 <= k < i ==> !((#[trigger] sections[k]).segment@ == segment && sections[k].name@ == name)
}

proof fn lemma_first_section(
    sections: Seq<OutputSection>,
    i: int,
    segment: Seq<char>,
    name: Seq<char>,
)
    requires
        first_section(sections, i, segment, name),
    ensures
        layout::section_at(sections, segment, name) == Some(i),
{
    layout::lemma_section_at(sections, segment, name);
    assert(layout::is_section(sections[i], segment, name));
}

/// The entry `e` is the last of its symbol.
pub open spec fn last_entry(entries: Seq<SlotEntry>, e: int) -> bool {
    &&& 0 <= e < entries.len() < 0x1000_0000
    &&& forall|j: int| e < j < entries.len() ==> (#[trigger] entries[j]).symbol != entries[e].symbol
}

proof fn lemma_table_slot(
    sections: Seq<OutputSection>,
    i: int,
    segment: Seq<char>,
    name: Seq<char>,
    skip: u64,
    stride: u64,
    entries: Seq<SlotEntry>,
    e: int,
)
    requires
        first_section(sections, i, segment, name),
        last_entry(entries, e),
        skip <= 24,
        stride == 8 || stride == 12,
    ensures
        ({
            let table = maps::table_addresses(sections, segment, name, skip, stride, entries);
            &&& table.contains_key(entries[e].symbol.0)
            &&& table[entries[e].symbol.0] == (sections[i].addr + skip + stride * e)
                % 0x1_0000_0000_0000_0000
            &&& layout::section_at(sections, segment, name) == Some(i)
        }),
{
    let base = sections[i].addr.wrapping_add(skip);
    lemma_first_section(sections, i, segment, name);
    lemma_slot_address(base, stride, entries, e);
    let distance: int = if stride == 8 {
        8 * e
    } else {
        12 * e
    };
    assert(stride * e == distance);
    assert(e * stride == distance);
    if base != sections[i].addr + skip {
        vstd::arithmetic::div_mod::lemma_mod_add_multiples_vanish(
            base + distance,
            0x1_0000_0000_0000_0000,
        );
    }
}

/// The stub of a symbol lies as far into `__stubs` as its number in the plan says.
pub proof fn law_stub_lies_in_stubs(
    t: Targets,
    sections: Seq<OutputSection>,
    plan: SyntheticPlan,
    i: int,
    e: int,
)
    requires
        t == maps::targets_of(sections, t.atoms, t.symbols, Some(&plan), t.redirects),
        first_section(sections, i, "__TEXT"@, "__stubs"@),
        last_entry(plan.stubs.entries@, e),
    ensures
        t.stub_addrs.contains_key(plan.stubs.entries@[e].symbol.0),
        t.stub_addrs[plan.stubs.entries@[e].symbol.0] == (sections[i].addr + 12 * e)
            % 0x1_0000_0000_0000_0000,
{
    lemma_table_slot(sections, i, "__TEXT"@, "__stubs"@, 0, 12, plan.stubs.entries@, e);
}

/// The slot of a symbol lies as far into `__got` as its number in the plan says.
pub proof fn law_slot_lies_in_pointer_table(
    t: Targets,
    sections: Seq<OutputSection>,
    plan: SyntheticPlan,
    i: int,
    e: int,
)
    requires
        t == maps::targets_of(sections, t.atoms, t.symbols, Some(&plan), t.redirects),
        first_section(sections, i, "__DATA_CONST"@, "__got"@),
        last_entry(plan.got.entries@, e),
    ensures
        t.got_addrs.contains_key(plan.got.entries@[e].symbol.0),
        t.got_addrs[plan.got.entries@[e].symbol.0] == (sections[i].addr + 8 * e)
            % 0x1_0000_0000_0000_0000,
{
    lemma_table_slot(sections, i, "__DATA_CONST"@, "__got"@, 0, 8, plan.got.entries@, e);
}

/// The thread pointer of a symbol lies as far into `__thread_ptrs` as its number in the plan
/// says.
pub proof fn law_thread_pointer_lies_in_its_table(
    t: Targets,
    sections: Seq<OutputSection>,
    plan: SyntheticPlan,
    i: int,
    e: int,
)
    requires
        t == maps::targets_of(sections, t.atoms, t.symbols, Some(&plan), t.redirects),
        first_section(sections, i, "__DATA"@, "__thread_ptrs"@),
        last_entry(plan.thread_pointers.entries@, e),
    ensures
        t.thread_pointer_addrs.contains_key(plan.thread_pointers.entries@[e].symbol.0),
        t.thread_pointer_addrs[plan.thread_pointers.entries@[e].symbol.0] == (sections[i].addr + 8 * e)
            % 0x1_0000_0000_0000_0000,
{
    lemma_table_slot(sections, i, "__DATA"@, "__thread_ptrs"@, 0, 8, plan.thread_pointers.entries@, e);
}

/// The lazy pointer of a symbol lies as far into `__la_symbol_ptr` as its number in the plan
/// says.
pub proof fn law_lazy_pointer_lies_in_its_table(
    t: Targets,
    sections: Seq<OutputSection>,
    plan: SyntheticPlan,
    i: int,
    e: int,
)
    requires
        t == maps::targets_of(sections, t.atoms, t.symbols, Some(&plan), t.redirects),
        first_section(sections, i, "__DATA"@, "__la_symbol_ptr"@),
        last_entry(plan.lazy_pointers.entries@, e),
    ensures
        t.lazy_pointer_addrs.contains_key(plan.lazy_pointers.entries@[e].symbol.0),
        t.lazy_pointer_addrs[plan.lazy_pointers.entries@[e].symbol.0] == (sections[i].addr + 8 * e)
            % 0x1_0000_0000_0000_0000,
{
    lemma_table_slot(sections, i, "__DATA"@, "__la_symbol_ptr"@, 0, 8, plan.lazy_pointers.entries@, e);
}

/// The stub helper entry of a symbol lies behind the header, as far as its number in the plan
/// says.
pub proof fn law_helper_entry_lies_behind_header(
    t: Targets,
    sections: Seq<OutputSection>,
    plan: SyntheticPlan,
    i: int,
    e: int,
)
    requires
        t == maps::targets_of(sections, t.atoms, t.symbols, Some(&plan), t.redirects),
        first_section(sections, i, "__TEXT"@, "__stub_helper"@),
        last_entry(plan.lazy_pointers.entries@, e),
    ensures
        t.stub_helper_entry_addrs.contains_key(plan.lazy_pointers.entries@[e].symbol.0),
        t.stub_helper_entry_addrs[plan.lazy_pointers.entries@[e].symbol.0] == (sections[i].addr + 24 + 12 * e)
            % 0x1_0000_0000_0000_0000,
        t.stub_helper_header_addr == Some(sections[i].addr),
{
    lemma_table_slot(sections, i, "__TEXT"@, "__stub_helper"@, 24, 12, plan.lazy_pointers.entries@, e);
}

proof fn lemma_part64(out: Seq<u8>, at: int, v: u64)
    requires
        0 <= at,
        at + 8 <= out.len(),
        out.subrange(at, at + 8) == bytes::le64_bytes(v),
    ensures
        bytes::le64(out, at) == v,
{
    bytes::lemma_le64_of_bytes(out, at, v);
}

/// A slot of the pointer table holds the final address of the symbol that it stands for;
/// that of an import is zero until dyld fills it in.
#[verifier::rlimit(50)]
#[verifier::spinoff_prover]
pub proof fn law_slot_holds_address(
    t: Targets,
    sections: Seq<OutputSection>,
    plan: SyntheticPlan,
    c: Contents,
    g: int,
    e: int,
    i: int,
    k: int,
)
    requires
        fill::got_contents(t, sections, plan, c) is Ok,
        first_section(sections, g, "__DATA_CONST"@, "__got"@),
        g < c.synthetic.len(),
        8 * plan.got.entries@.len() <= c.synthetic[g].len(),
        0 <= e < plan.got.entries@.len(),
    ensures
        ({
            let out = (fill::got_contents(t, sections, plan, c)->Ok_0).synthetic[g];
            let symbol = t.symbols.at(plan.got.entries@[e].symbol);
            &&& out.len() == c.synthetic[g].len()
            &&& symbol is DylibImport ==> bytes::le64(out, 8 * e) == 0
            &&& symbol is Defined && t.atom_addrs == maps::atom_addresses(sections)
                && places::stands_at(sections, i, k, symbol->Defined_atom.0) ==> bytes::le64(
                out,
                8 * e,
            ) == (places::final_address(sections, i, k) + symbol->value) % 0x1_0000_0000_0000_0000
        }),
{
    lemma_slot_bytes(t, sections, plan, c, g, e);
    let symbol = t.symbols.at(plan.got.entries@[e].symbol);
    if symbol is Defined && t.atom_addrs == maps::atom_addresses(sections) && places::stands_at(
        sections,
        i,
        k,
        symbol->Defined_atom.0,
    ) {
        places::law_atom_address(sections, i, k, symbol->Defined_atom.0);
    }
}

#[verifier::rlimit(50)]
#[verifier::spinoff_prover]
proof fn lemma_slot_bytes(
    t: Targets,
    sections: Seq<OutputSection>,
    plan: SyntheticPlan,
    c: Contents,
    g: int,
    e: int,
)
    requires
        fill::got_contents(t, sections, plan, c) is Ok,
        first_section(sections, g, "__DATA_CONST"@, "__got"@),
        g < c.synthetic.len(),
        8 * plan.got.entries@.len() <= c.synthetic[g].len(),
        0 <= e < plan.got.entries@.len(),
    ensures
        ({
            let out = (fill::got_contents(t, sections, plan, c)->Ok_0).synthetic[g];
            let v = fill::got_value(t, plan.got.entries@[e].symbol, (e * 8) as u32);
            &&& out.len() == c.synthetic[g].len()
            &&& v is Ok
            &&& bytes::le64(out, 8 * e) == v->Ok_0
        }),
{
    lemma_first_section(sections, g, "__DATA_CONST"@, "__got"@);
    let entries = plan.got.entries@;
    let part = fill::got_slots(t, entries);
    assert forall|j: int| 0 <= j < entries.len() && (#[trigger] part(j)) is Ok implies part(
        j,
    )->Ok_0.len() == 8 by {
        assert(part(j) == fill::got_slot(t, entries, j));
    }
    lemma_filled(c.synthetic[g], entries.len(), 0, 8, part);
    assert(part(e) == fill::got_slot(t, entries, e));
    let out = (fill::got_contents(t, sections, plan, c)->Ok_0).synthetic[g];
    let v = fill::got_value(t, entries[e].symbol, (e * 8) as u32)->Ok_0;
    assert(out.subrange(0 + e * 8, 0 + e * 8 + 8) == bytes::le64_bytes(v));
    lemma_part64(out, 8 * e, v);
}

/// A lazy pointer first holds the address of its own stub helper entry.
#[verifier::rlimit(50)]
#[verifier::spinoff_prover]
pub proof fn law_lazy_pointer_starts_at_helper(
    t: Targets,
    sections: Seq<OutputSection>,
    plan: SyntheticPlan,
    c: Contents,
    g: int,
    e: int,
)
    requires
        fill::lazy_contents(t, sections, plan, c) is Ok,
        first_section(sections, g, "__DATA"@, "__la_symbol_ptr"@),
        g < c.synthetic.len(),
        8 * plan.lazy_pointers.entries@.len() <= c.synthetic[g].len(),
        0 <= e < plan.lazy_pointers.entries@.len(),
    ensures
        ({
            let out = (fill::lazy_contents(t, sections, plan, c)->Ok_0).synthetic[g];
            let id = plan.lazy_pointers.entries@[e].symbol.0;
            &&& out.len() == c.synthetic[g].len()
            &&& t.stub_helper_entry_addrs.contains_key(id)
            &&& bytes::le64(out, 8 * e) == t.stub_helper_entry_addrs[id]
        }),
{
    lemma_first_section(sections, g, "__DATA"@, "__la_symbol_ptr"@);
    let entries = plan.lazy_pointers.entries@;
    let part = fill::lazy_parts(t, entries);
    assert forall|j: int| 0 <= j < entries.len() && (#[trigger] part(j)) is Ok implies part(
        j,
    )->Ok_0.len() == 8 by {
        assert(part(j) == fill::lazy_part(t, entries, j));
    }
    lemma_filled(c.synthetic[g], entries.len(), 0, 8, part);
    assert(part(e) == fill::lazy_part(t, entries, e));
    let out = (fill::lazy_contents(t, sections, plan, c)->Ok_0).synthetic[g];
    assert(out.subrange(0 + e * 8, 0 + e * 8 + 8) == part(e)->Ok_0);
    lemma_part64(out, 8 * e, t.stub_helper_entry_addrs[entries[e].symbol.0]);
}

proof fn lemma_word(out: Seq<u8>, at: int, n: int, w: int)
    requires
        0 <= at,
        0 <= w,
        w + 4 <= n,
        at + n <= out.len(),
    ensures
        bytes::le32(out, at + w) == bytes::le32(out.subrange(at, at + n), w),
{
    let s = out.subrange(at, at + n);
    assert(s[w] == out[at + w] && s[w + 1] == out[at + w + 1] && s[w + 2] == out[at + w + 2]
        && s[w + 3] == out[at + w + 3]);
}

/// The code at `at`, which runs at `place`, jumps to where the pointer at `pointer` points.
pub open spec fn jumps_through(s: Seq<u8>, at: int, place: u64, pointer: u64) -> bool {
    &&& encode::is_adrp(bytes::le32(s, at), 16)
    &&& encode::is_ldr(bytes::le32(s, at + 4), 16)
    &&& encode::adrp_computes(bytes::le32(s, at), place) + encode::ldr_offset(
        bytes::le32(s, at + 4),
    ) == pointer
    &&& bytes::le32(s, at + 8) == 0xd61f_0200
}

/// The code at `at`, which runs at `place`, pushes the address of `private` with what the
/// entries bring, and jumps to where the pointer at `binder` points.
pub open spec fn calls_binder(s: Seq<u8>, at: int, place: u64, private: u64, binder: u64) -> bool {
    &&& encode::is_adrp(bytes::le32(s, at), 17)
    &&& encode::is_add(bytes::le32(s, at + 4), 17)
    &&& encode::adrp_computes(bytes::le32(s, at), place) + encode::add_immediate_value(
        bytes::le32(s, at + 4),
    ) == private
    &&& bytes::le32(s, at + 8) == 0xa9bf_47f0
    &&& jumps_through(s, at + 12, place.wrapping_add(12), binder)
}

/// The code at `at`, which runs at `place`, brings the number to the header.
pub open spec fn passes_number(s: Seq<u8>, at: int, place: u64, header: u64, number: u32) -> bool {
    &&& bytes::le32(s, at) == 0x1800_0050
    &&& bytes::le32(s, at + 4) & 0xfc00_0000 == 0x1400_0000
    &&& encode::branch_goes_to(bytes::le32(s, at + 4), place.wrapping_add(4)) == header
    &&& bytes::le32(s, at + 8) == number
}

proof fn lemma_stub_in(out: Seq<u8>, at: int, place: u64, pointer: u64)
    requires
        0 <= at,
        at + 12 <= out.len(),
        encode::stub(place, pointer) is Ok,
        out.subrange(at, at + 12) == encode::stub(place, pointer)->Ok_0,
    ensures
        jumps_through(out, at, place, pointer),
{
    encode::law_stub_jumps_through_lazy_pointer(place, pointer);
    lemma_word(out, at, 12, 0);
    lemma_word(out, at, 12, 4);
    lemma_word(out, at, 12, 8);
}

proof fn lemma_entry_in(out: Seq<u8>, at: int, place: u64, header: u64, number: u32)
    requires
        0 <= at,
        at + 12 <= out.len(),
        encode::stub_helper_entry(place, header, number) is Ok,
        out.subrange(at, at + 12) == encode::stub_helper_entry(place, header, number)->Ok_0,
    ensures
        passes_number(out, at, place, header, number),
{
    encode::law_helper_entry_passes_offset(place, header, number);
    lemma_word(out, at, 12, 0);
    lemma_word(out, at, 12, 4);
    lemma_word(out, at, 12, 8);
}

proof fn lemma_header_in(out: Seq<u8>, place: u64, private: u64, binder: u64)
    requires
        24 <= out.len(),
        encode::stub_helper_header(place, private, binder) is Ok,
        out.subrange(0, 24) == encode::stub_helper_header(place, private, binder)->Ok_0,
    ensures
        calls_binder(out, 0, place, private, binder),
{
    encode::law_helper_header_calls_binder(place, private, binder);
    lemma_word(out, 0, 24, 0);
    lemma_word(out, 0, 24, 4);
    lemma_word(out, 0, 24, 8);
    lemma_word(out, 0, 24, 12);
    lemma_word(out, 0, 24, 16);
    lemma_word(out, 0, 24, 20);
}

/// The code of each stub loads the lazy pointer of its own symbol and jumps to where that
/// points.
#[verifier::rlimit(50)]
#[verifier::spinoff_prover]
pub proof fn law_stub_uses_its_lazy_pointer(
    t: Targets,
    sections: Seq<OutputSection>,
    plan: SyntheticPlan,
    c: Contents,
    g: int,
    e: int,
)
    requires
        fill::stub_contents(t, sections, plan, c) is Ok,
        first_section(sections, g, "__TEXT"@, "__stubs"@),
        g < c.synthetic.len(),
        12 * plan.stubs.entries@.len() <= c.synthetic[g].len(),
        plan.stubs.entries@.len() < 0x1000_0000,
        0 <= e < plan.stubs.entries@.len(),
    ensures
        ({
            let out = (fill::stub_contents(t, sections, plan, c)->Ok_0).synthetic[g];
            let id = plan.stubs.entries@[e].symbol.0;
            let place = ((sections[g].addr + 12 * e) % 0x1_0000_0000_0000_0000) as u64;
            &&& out.len() == c.synthetic[g].len()
            &&& t.lazy_pointer_addrs.contains_key(id)
            &&& jumps_through(out, 12 * e, place, t.lazy_pointer_addrs[id])
        }),
{
    let place = ((sections[g].addr + 12 * e) % 0x1_0000_0000_0000_0000) as u64;
    lemma_stub_bytes(t, sections, plan, c, g, e, place);
    let out = (fill::stub_contents(t, sections, plan, c)->Ok_0).synthetic[g];
    lemma_stub_in(out, 12 * e, place, t.lazy_pointer_addrs[plan.stubs.entries@[e].symbol.0]);
}

#[verifier::rlimit(50)]
#[verifier::spinoff_prover]
proof fn lemma_stub_bytes(
    t: Targets,
    sections: Seq<OutputSection>,
    plan: SyntheticPlan,
    c: Contents,
    g: int,
    e: int,
    place: u64,
)
    requires
        fill::stub_contents(t, sections, plan, c) is Ok,
        first_section(sections, g, "__TEXT"@, "__stubs"@),
        g < c.synthetic.len(),
        12 * plan.stubs.entries@.len() <= c.synthetic[g].len(),
        plan.stubs.entries@.len() < 0x1000_0000,
        0 <= e < plan.stubs.entries@.len(),
        place == (sections[g].addr + 12 * e) % 0x1_0000_0000_0000_0000,
    ensures
        ({
            let out = (fill::stub_contents(t, sections, plan, c)->Ok_0).synthetic[g];
            let id = plan.stubs.entries@[e].symbol.0;
            let code = encode::stub(place, t.lazy_pointer_addrs[id]);
            &&& out.len() == c.synthetic[g].len()
            &&& t.lazy_pointer_addrs.contains_key(id)
            &&& code is Ok
            &&& out.subrange(12 * e, 12 * e + 12) == code->Ok_0
        }),
{
    lemma_first_section(sections, g, "__TEXT"@, "__stubs"@);
    let entries = plan.stubs.entries@;
    let base = sections[g].addr;
    let part = fill::stub_parts(t, base, entries);
    assert forall|j: int| 0 <= j < entries.len() && (#[trigger] part(j)) is Ok implies part(
        j,
    )->Ok_0.len() == 12 by {
        assert(part(j) == fill::stub_part(t, base, entries, j));
        let lazy = t.lazy_pointer_addrs[entries[j].symbol.0];
        let at = base.wrapping_add((j as u64).wrapping_mul(12));
        encode::law_stub_jumps_through_lazy_pointer(at, lazy);
    }
    lemma_filled(c.synthetic[g], entries.len(), 0, 12, part);
    assert(part(e) == fill::stub_part(t, base, entries, e));
    let out = (fill::stub_contents(t, sections, plan, c)->Ok_0).synthetic[g];
    assert(out.subrange(0 + e * 12, 0 + e * 12 + 12) == part(e)->Ok_0);
    assert((e as u64).wrapping_mul(12) == 12 * e);
    assert(base.wrapping_add((e as u64).wrapping_mul(12)) == place);
}

/// The code of the stub helper: its header hands dyld's private slot to the binder, and each
/// entry brings the place of its own symbol's lazy bind record to the header.
#[verifier::rlimit(50)]
#[verifier::spinoff_prover]
pub proof fn law_helper_names_its_record(
    t: Targets,
    sections: Seq<OutputSection>,
    plan: SyntheticPlan,
    offsets: Map<u32, u32>,
    c: Contents,
    g: int,
    e: int,
)
    requires
        plan.binder_symbol is Some,
        fill::helper_contents(t, sections, plan, offsets, c) is Ok,
        first_section(sections, g, "__TEXT"@, "__stub_helper"@),
        g < c.synthetic.len(),
        24 + 12 * plan.lazy_pointers.entries@.len() <= c.synthetic[g].len(),
        0 <= e < plan.lazy_pointers.entries@.len(),
    ensures
        ({
            let out = (fill::helper_contents(t, sections, plan, offsets, c)->Ok_0).synthetic[g];
            let id = plan.lazy_pointers.entries@[e].symbol.0;
            let binder = (plan.binder_symbol->0).0;
            let header = t.stub_helper_header_addr->0;
            &&& out.len() == c.synthetic[g].len()
            &&& t.stub_helper_header_addr is Some
            &&& t.dyld_private_addr is Some
            &&& t.got_addrs.contains_key(binder)
            &&& calls_binder(out, 0, header, t.dyld_private_addr->0, t.got_addrs[binder])
            &&& t.stub_helper_entry_addrs.contains_key(id)
            &&& offsets.contains_key(id)
            &&& passes_number(
                out,
                24 + 12 * e,
                t.stub_helper_entry_addrs[id],
                header,
                offsets[id],
            )
        }),
{
    lemma_first_section(sections, g, "__TEXT"@, "__stub_helper"@);
    let entries = plan.lazy_pointers.entries@;
    let binder = (plan.binder_symbol->0).0;
    let s = c.synthetic[g];
    let header = t.stub_helper_header_addr->0;
    let private = t.dyld_private_addr->0;
    let code = encode::stub_helper_header(header, private, t.got_addrs[binder])->Ok_0;
    assert(code.len() == 24);
    bytes::lemma_replaced(s, 0, code);
    let b = bytes::replaced(s, 0, code);
    let part = fill::helper_parts(t, header, offsets, entries);
    assert forall|j: int| 0 <= j < entries.len() && (#[trigger] part(j)) is Ok implies part(
        j,
    )->Ok_0.len() == 12 by {
        assert(part(j) == fill::helper_part(t, header, offsets, entries, j));
    }
    lemma_filled(b, entries.len(), 24, 12, part);
    assert(part(e) == fill::helper_part(t, header, offsets, entries, e));
    let out = (fill::helper_contents(t, sections, plan, offsets, c)->Ok_0).synthetic[g];
    assert(out == fill::filled(b, entries.len(), 24, 12, part)->Ok_0);
    let id = entries[e].symbol.0;
    assert(out.subrange(24 + e * 12, 24 + e * 12 + 12) == part(e)->Ok_0);
    lemma_entry_in(out, 24 + 12 * e, t.stub_helper_entry_addrs[id], header, offsets[id]);
    assert(b.subrange(0, 24) =~= code);
    assert(out.subrange(0, 24) =~= b.subrange(0, 24));
    lemma_header_in(out, header, private, t.got_addrs[binder]);
}

} // verus!
