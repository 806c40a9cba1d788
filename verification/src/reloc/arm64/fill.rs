//! The sections that the linker fills itself: pointer tables, stubs and the stub
//! helper.

use std::collections::HashMap;
use vstd::prelude::*;
use crate::bytes;
use crate::bytes::{overwrite, overwrite_u64};
use crate::layout;
use crate::layout::Layout;
use crate::reloc::arm64::apply;
use crate::reloc::arm64::apply::Contents;
use crate::reloc::arm64::encode;
use crate::reloc::arm64::encode::{
    encode_stub, encode_stub_helper_entry, encode_stub_helper_header,
};
use crate::reloc::arm64::targets;
use crate::reloc::arm64::targets::{find_addr, tag_str, ResolveView, Targets};
use crate::reloc::arm64::{RelocError, RelocFault};
use crate::reloc::RelocKind;
use crate::resolve::{AtomId, Symbol, SymbolId};
use crate::section::OutputSection;
use crate::synth::{
    SlotEntry, SyntheticPlan, STUB_HELPER_ENTRY_SIZE, STUB_HELPER_HEADER_SIZE, STUB_SIZE,
};
use crate::text;
use crate::text::dec_string;

verus! {

broadcast use vstd::std_specs::hash::group_hash_axioms;

/// An error in a section that the linker makes.
pub open spec fn made_fault(
    input: Seq<char>,
    atom_offset: u32,
    kind: RelocKind,
    referent: Seq<char>,
    detail: Seq<char>,
) -> RelocFault {
    RelocFault { input, atom: AtomId(0), atom_offset, kind, referent, detail }
}

pub(crate) fn made_error(
    input: &str,
    atom_offset: u32,
    kind: RelocKind,
    referent: String,
    detail: &str,
) -> (r: RelocError)
    ensures
        r@ == made_fault(input@, atom_offset, kind, referent@, detail@),
{
    RelocError {
        input: input.to_owned(),
        atom: AtomId(0),
        atom_offset,
        kind,
        referent,
        detail: detail.to_owned(),
    }
}

/// How an error names a symbol.
pub open spec fn symbol_text(id: SymbolId) -> Seq<char> {
    "symbol SymbolId("@ + text::dec(id.0 as nat) + ")"@
}

fn describe_symbol(id: SymbolId) -> (r: String)
    ensures
        r@ == symbol_text(id),
{
    let mut s = "symbol SymbolId(".to_owned();
    s.append(dec_string(id.0 as u64).as_str());
    s.append(")");
    s
}

/// `s` with the first `n` parts written over it, `stride` bytes apart from `first` on;
/// or the first error.
pub open spec fn filled(
    s: Seq<u8>,
    n: nat,
    first: int,
    stride: int,
    part: spec_fn(int) -> Result<Seq<u8>, RelocFault>,
) -> Result<Seq<u8>, RelocFault>
    decreases n,
{
    if n == 0 {
        Ok(s)
    } else {
        match filled(s, (n - 1) as nat, first, stride, part) {
            Err(e) => Err(e),
            Ok(b) => match part(n - 1) {
                Err(e) => Err(e),
                Ok(p) => Ok(bytes::replaced(b, first + (n - 1) * stride, p)),
            },
        }
    }
}

/// An error among the first parts is the error of them all.
proof fn lemma_filled_fault(
    s: Seq<u8>,
    n: nat,
    first: int,
    stride: int,
    part: spec_fn(int) -> Result<Seq<u8>, RelocFault>,
    all: nat,
)
    requires
        n <= all,
        filled(s, n, first, stride, part) is Err,
    ensures
        filled(s, all, first, stride, part) == filled(s, n, first, stride, part),
    decreases all - n,
{
    if n < all {
        lemma_filled_fault(s, n + 1, first, stride, part, all);
    }
}

/// The contents with other bytes in one section.
pub open spec fn with_synthetic(c: Contents, i: int, s: Seq<u8>) -> Contents {
    Contents { synthetic: c.synthetic.update(i, s), ..c }
}

/// The contents with one section's own bytes rewritten; unchanged where the image does
/// not have it.
pub open spec fn rewritten(
    c: Contents,
    place: Option<int>,
    s: Result<Seq<u8>, RelocFault>,
) -> Result<Contents, RelocFault> {
    match place {
        None => Ok(c),
        Some(i) => match s {
            Ok(s) => Ok(with_synthetic(c, i, s)),
            Err(e) => Err(e),
        },
    }
}

pub proof fn lemma_synthetic_written(
    before: Seq<OutputSection>,
    after: Seq<OutputSection>,
    i: int,
    s: Seq<u8>,
)
    requires
        0 <= i < before.len(),
        after == before.update(i, after[i]),
        after[i] == (OutputSection { synthetic_data: after[i].synthetic_data, ..before[i] }),
        after[i].synthetic_data@ == s,
    ensures
        apply::same_shape(before, after),
        apply::contents_of(after) == with_synthetic(apply::contents_of(before), i, s),
{
    let a = apply::contents_of(after);
    let b = with_synthetic(apply::contents_of(before), i, s);
    assert(a.synthetic =~= b.synthetic);
    assert(a.atoms =~= b.atoms);
}

/// Every symbol of the table is known.
pub open spec fn symbols_known(entries: Seq<SlotEntry>, count: nat) -> bool {
    forall|i: int| 0 <= i < entries.len() ==> (#[trigger] entries[i]).symbol.0 < count
}

/// The section, if it is in the image, has room for `need` bytes.
pub open spec fn has_room(
    sections: Seq<OutputSection>,
    segment: Seq<char>,
    name: Seq<char>,
    need: int,
) -> bool {
    match layout::section_at(sections, segment, name) {
        Some(i) => need <= sections[i].synthetic_data@.len(),
        None => true,
    }
}

pub open spec fn unsupported_got_detail(symbol: Symbol) -> Seq<char> {
    "synthetic GOT currently does not support symbol kind "@ + targets::tag_name(
        symbol.spec_kind(),
    )
}

/// What a slot of the pointer table holds: the address of a symbol of this image, or
/// zero for dyld to fill in.
pub open spec fn got_value(t: Targets, id: SymbolId, start: u32) -> Result<u64, RelocFault> {
    match t.symbols.at(id) {
        Symbol::DylibImport { .. } => Ok(0),
        Symbol::Defined { atom, value, .. } => match t.atom_addr(atom) {
            Some(addr) => Ok(addr.wrapping_add(value)),
            None => Err(
                made_fault(
                    "<synthetic got>"@,
                    start,
                    RelocKind::PointerToGot,
                    symbol_text(id),
                    "defined GOT target is missing final address"@,
                ),
            ),
        },
        other => Err(
            made_fault(
                "<synthetic got>"@,
                start,
                RelocKind::PointerToGot,
                symbol_text(id),
                unsupported_got_detail(other),
            ),
        ),
    }
}

pub open spec fn got_slot(t: Targets, entries: Seq<SlotEntry>, i: int) -> Result<
    Seq<u8>,
    RelocFault,
> {
    match got_value(t, entries[i].symbol, (i * 8) as u32) {
        Ok(v) => Ok(bytes::le64_bytes(v)),
        Err(e) => Err(e),
    }
}

pub open spec fn got_slots(t: Targets, entries: Seq<SlotEntry>) -> spec_fn(int) -> Result<
    Seq<u8>,
    RelocFault,
> {
    |i: int| got_slot(t, entries, i)
}

fn got_slot_value(v: &ResolveView<'_>, id: SymbolId, start: u32) -> (r: Result<u64, RelocError>)
    requires
        v.wf(),
        id.0 < v@.symbols.symbols.len(),
    ensures
        crate::reloc::arm64::same_outcome(r, got_value(v@, id, start)),
{
    match v.sym_table.get(id) {
        Symbol::DylibImport { .. } => Ok(0),
        Symbol::Defined { atom, value, .. } => match find_addr(v.atom_addrs, atom.0) {
            Some(addr) => Ok(addr.wrapping_add(*value)),
            None => Err(
                made_error(
                    "<synthetic got>",
                    start,
                    RelocKind::PointerToGot,
                    describe_symbol(id),
                    "defined GOT target is missing final address",
                ),
            ),
        },
        other => {
            let mut detail = "synthetic GOT currently does not support symbol kind ".to_owned();
            detail.append(tag_str(other.kind()));
            Err(
                made_error(
                    "<synthetic got>",
                    start,
                    RelocKind::PointerToGot,
                    describe_symbol(id),
                    detail.as_str(),
                ),
            )
        },
    }
}

fn fill_got(data: &mut Vec<u8>, entries: &Vec<SlotEntry>, v: &ResolveView<'_>) -> (r: Result<
    (),
    RelocError,
>)
    requires
        v.wf(),
        symbols_known(entries@, v@.symbols.symbols.len()),
        entries@.len() * 8 <= old(data)@.len(),
    ensures
        match (r, filled(old(data)@, entries@.len(), 0, 8, got_slots(v@, entries@))) {
            (Ok(_), Ok(s)) => final(data)@ == s,
            (Err(e), Err(f)) => e@ == f,
            _ => false,
        },
{
    let ghost before = data@;
    let ghost part = got_slots(v@, entries@);
    assert(data.len() == data@.len());
    let mut i: usize = 0;
    while i < entries.len()
        invariant
            i <= entries@.len(),
            v.wf(),
            symbols_known(entries@, v@.symbols.symbols.len()),
            before == old(data)@,
            part == got_slots(v@, entries@),
            entries@.len() * 8 <= before.len(),
            before.len() <= usize::MAX,
            data@.len() == before.len(),
            filled(before, i as nat, 0, 8, part) == Ok::<_, RelocFault>(data@),
        decreases entries@.len() - i,
    {
        assert(part(i as int) == got_slot(v@, entries@, i as int));
        let value: u64 = match got_slot_value(v, entries[i].symbol, (i * 8) as u32) {
            Ok(value) => value,
            Err(e) => {
                proof {
                    lemma_filled_fault(before, (i + 1) as nat, 0, 8, part, entries@.len());
                }
                return Err(e);
            },
        };
        overwrite_u64(data, i * 8, value);
        i += 1;
    }
    Ok(())
}

/// The contents with the pointer table filled in.
pub open spec fn got_contents(
    t: Targets,
    sections: Seq<OutputSection>,
    plan: SyntheticPlan,
    c: Contents,
) -> Result<Contents, RelocFault> {
    let place = layout::section_at(sections, "__DATA_CONST"@, "__got"@);
    rewritten(
        c,
        place,
        filled(
            c.synthetic[place->0],
            plan.got.entries@.len(),
            0,
            8,
            got_slots(t, plan.got.entries@),
        ),
    )
}

pub fn synthesize_got_section(layout: &mut Layout, plan: &SyntheticPlan, v: &ResolveView<'_>) -> (r:
    Result<(), RelocError>)
    requires
        v.wf(),
        symbols_known(plan.got.entries@, v@.symbols.symbols.len()),
        has_room(
            old(layout).sections@,
            "__DATA_CONST"@,
            "__got"@,
            plan.got.entries@.len() * 8 as int,
        ),
    ensures
        apply::outcome(
            *old(layout),
            *final(layout),
            r,
            got_contents(
                v@,
                old(layout).sections@,
                *plan,
                apply::contents_of(old(layout).sections@),
            ),
        ),
{
    let ghost before = layout.sections@;
    let i: usize = match layout.find_section("__DATA_CONST", "__got") {
        Some(i) => i,
        None => {
            return Ok(());
        },
    };
    let r = fill_got(&mut layout.sections[i].synthetic_data, &plan.got.entries, v);
    proof {
        lemma_synthetic_written(
            before,
            layout.sections@,
            i as int,
            layout.sections@[i as int].synthetic_data@,
        );
    }
    r
}

/// The code of one stub.
pub open spec fn stub_part(t: Targets, base: u64, entries: Seq<SlotEntry>, i: int) -> Result<
    Seq<u8>,
    RelocFault,
> {
    match targets::lookup(t.lazy_pointer_addrs, entries[i].symbol.0) {
        None => Err(
            made_fault(
                "<synthetic stubs>"@,
                (i * STUB_SIZE) as u32,
                RelocKind::Branch26,
                symbol_text(entries[i].symbol),
                "synthetic stub is missing lazy pointer target"@,
            ),
        ),
        Some(lazy) => encode::stub(
            base.wrapping_add((i as u64).wrapping_mul(STUB_SIZE)),
            lazy,
        ),
    }
}

pub open spec fn stub_parts(t: Targets, base: u64, entries: Seq<SlotEntry>) -> spec_fn(
    int,
) -> Result<Seq<u8>, RelocFault> {
    |i: int| stub_part(t, base, entries, i)
}

fn fill_stubs(
    data: &mut Vec<u8>,
    base: u64,
    entries: &Vec<SlotEntry>,
    v: &ResolveView<'_>,
) -> (r: Result<(), RelocError>)
    requires
        entries@.len() * STUB_SIZE <= old(data)@.len(),
    ensures
        match (r, filled(old(data)@, entries@.len(), 0, 12, stub_parts(v@, base, entries@))) {
            (Ok(_), Ok(s)) => final(data)@ == s,
            (Err(e), Err(f)) => e@ == f,
            _ => false,
        },
{
    let ghost before = data@;
    let ghost part = stub_parts(v@, base, entries@);
    assert(data.len() == data@.len());
    let mut i: usize = 0;
    while i < entries.len()
        invariant
            i <= entries@.len(),
            before == old(data)@,
            part == stub_parts(v@, base, entries@),
            entries@.len() * 12 <= before.len(),
            before.len() <= usize::MAX,
            data@.len() == before.len(),
            filled(before, i as nat, 0, 12, part) == Ok::<_, RelocFault>(data@),
        decreases entries@.len() - i,
    {
        assert(part(i as int) == stub_part(v@, base, entries@, i as int));
        let start: usize = i * 12;
        let lazy: u64 = match find_addr(v.lazy_pointer_addrs, entries[i].symbol.0) {
            Some(lazy) => lazy,
            None => {
                proof {
                    lemma_filled_fault(before, (i + 1) as nat, 0, 12, part, entries@.len());
                }
                return Err(
                    made_error(
                        "<synthetic stubs>",
                        start as u32,
                        RelocKind::Branch26,
                        describe_symbol(entries[i].symbol),
                        "synthetic stub is missing lazy pointer target",
                    ),
                );
            },
        };
        let code = match encode_stub(
            base.wrapping_add((i as u64).wrapping_mul(STUB_SIZE)),
            lazy,
        ) {
            Ok(code) => code,
            Err(e) => {
                proof {
                    lemma_filled_fault(before, (i + 1) as nat, 0, 12, part, entries@.len());
                }
                return Err(e);
            },
        };
        overwrite(data, start, code.as_slice());
        i += 1;
    }
    Ok(())
}

/// The contents with the stubs filled in.
pub open spec fn stub_contents(
    t: Targets,
    sections: Seq<OutputSection>,
    plan: SyntheticPlan,
    c: Contents,
) -> Result<Contents, RelocFault> {
    let place = layout::section_at(sections, "__TEXT"@, "__stubs"@);
    rewritten(
        c,
        place,
        filled(
            c.synthetic[place->0],
            plan.stubs.entries@.len(),
            0,
            12,
            stub_parts(t, sections[place->0].addr, plan.stubs.entries@),
        ),
    )
}

pub fn synthesize_stub_section(layout: &mut Layout, plan: &SyntheticPlan, v: &ResolveView<'_>) -> (r:
    Result<(), RelocError>)
    requires
        has_room(
            old(layout).sections@,
            "__TEXT"@,
            "__stubs"@,
            plan.stubs.entries@.len() * STUB_SIZE,
        ),
    ensures
        apply::outcome(
            *old(layout),
            *final(layout),
            r,
            stub_contents(
                v@,
                old(layout).sections@,
                *plan,
                apply::contents_of(old(layout).sections@),
            ),
        ),
{
    let ghost before = layout.sections@;
    let i: usize = match layout.find_section("__TEXT", "__stubs") {
        Some(i) => i,
        None => {
            return Ok(());
        },
    };
    let base: u64 = layout.sections[i].addr;
    let r = fill_stubs(
        &mut layout.sections[i].synthetic_data,
        base,
        &plan.stubs.entries,
        v,
    );
    proof {
        lemma_synthetic_written(
            before,
            layout.sections@,
            i as int,
            layout.sections@[i as int].synthetic_data@,
        );
    }
    r
}

/// What a lazy pointer holds at first: the address of its stub helper entry.
pub open spec fn lazy_part(t: Targets, entries: Seq<SlotEntry>, i: int) -> Result<
    Seq<u8>,
    RelocFault,
> {
    match targets::lookup(t.stub_helper_entry_addrs, entries[i].symbol.0) {
        None => Err(
            made_fault(
                "<synthetic lazy pointers>"@,
                (i * 8) as u32,
                RelocKind::Unsigned,
                symbol_text(entries[i].symbol),
                "lazy pointer is missing stub helper target"@,
            ),
        ),
        Some(addr) => Ok(bytes::le64_bytes(addr)),
    }
}

pub open spec fn lazy_parts(t: Targets, entries: Seq<SlotEntry>) -> spec_fn(int) -> Result<
    Seq<u8>,
    RelocFault,
> {
    |i: int| lazy_part(t, entries, i)
}

fn fill_lazy_pointers(data: &mut Vec<u8>, entries: &Vec<SlotEntry>, v: &ResolveView<'_>) -> (r:
    Result<(), RelocError>)
    requires
        entries@.len() * 8 <= old(data)@.len(),
    ensures
        match (r, filled(old(data)@, entries@.len(), 0, 8, lazy_parts(v@, entries@))) {
            (Ok(_), Ok(s)) => final(data)@ == s,
            (Err(e), Err(f)) => e@ == f,
            _ => false,
        },
{
    let ghost before = data@;
    let ghost part = lazy_parts(v@, entries@);
    assert(data.len() == data@.len());
    let mut i: usize = 0;
    while i < entries.len()
        invariant
            i <= entries@.len(),
            before == old(data)@,
            part == lazy_parts(v@, entries@),
            entries@.len() * 8 <= before.len(),
            before.len() <= usize::MAX,
            data@.len() == before.len(),
            filled(before, i as nat, 0, 8, part) == Ok::<_, RelocFault>(data@),
        decreases entries@.len() - i,
    {
        assert(part(i as int) == lazy_part(v@, entries@, i as int));
        let start: usize = i * 8;
        let addr: u64 = match find_addr(v.stub_helper_entry_addrs, entries[i].symbol.0) {
            Some(addr) => addr,
            None => {
                proof {
                    lemma_filled_fault(before, (i + 1) as nat, 0, 8, part, entries@.len());
                }
                return Err(
                    made_error(
                        "<synthetic lazy pointers>",
                        start as u32,
                        RelocKind::Unsigned,
                        describe_symbol(entries[i].symbol),
                        "lazy pointer is missing stub helper target",
                    ),
                );
            },
        };
        overwrite_u64(data, start, addr);
        i += 1;
    }
    Ok(())
}

/// The contents with the lazy pointers filled in.
pub open spec fn lazy_contents(
    t: Targets,
    sections: Seq<OutputSection>,
    plan: SyntheticPlan,
    c: Contents,
) -> Result<Contents, RelocFault> {
    let place = layout::section_at(sections, "__DATA"@, "__la_symbol_ptr"@);
    rewritten(
        c,
        place,
        filled(
            c.synthetic[place->0],
            plan.lazy_pointers.entries@.len(),
            0,
            8,
            lazy_parts(t, plan.lazy_pointers.entries@),
        ),
    )
}

pub fn synthesize_lazy_pointer_section(
    layout: &mut Layout,
    plan: &SyntheticPlan,
    v: &ResolveView<'_>,
) -> (r: Result<(), RelocError>)
    requires
        has_room(
            old(layout).sections@,
            "__DATA"@,
            "__la_symbol_ptr"@,
            plan.lazy_pointers.entries@.len() * 8 as int,
        ),
    ensures
        apply::outcome(
            *old(layout),
            *final(layout),
            r,
            lazy_contents(
                v@,
                old(layout).sections@,
                *plan,
                apply::contents_of(old(layout).sections@),
            ),
        ),
{
    let ghost before = layout.sections@;
    let i: usize = match layout.find_section("__DATA", "__la_symbol_ptr") {
        Some(i) => i,
        None => {
            return Ok(());
        },
    };
    let r = fill_lazy_pointers(
        &mut layout.sections[i].synthetic_data,
        &plan.lazy_pointers.entries,
        v,
    );
    proof {
        lemma_synthetic_written(
            before,
            layout.sections@,
            i as int,
            layout.sections@[i as int].synthetic_data@,
        );
    }
    r
}

/// The code of one stub helper entry.
pub open spec fn helper_part(
    t: Targets,
    header: u64,
    lazy_bind_offsets: Map<u32, u32>,
    entries: Seq<SlotEntry>,
    i: int,
) -> Result<Seq<u8>, RelocFault> {
    let id = entries[i].symbol;
    let start = (STUB_HELPER_HEADER_SIZE + i * STUB_HELPER_ENTRY_SIZE) as u32;
    match targets::lookup(t.stub_helper_entry_addrs, id.0) {
        None => Err(
            made_fault(
                "<synthetic stub helper>"@,
                start,
                RelocKind::Branch26,
                symbol_text(id),
                "stub helper entry missing final address"@,
            ),
        ),
        Some(addr) => match targets::lookup(lazy_bind_offsets, id.0) {
            None => Err(
                made_fault(
                    "<synthetic stub helper>"@,
                    start,
                    RelocKind::Unsigned,
                    symbol_text(id),
                    "lazy bind offset missing for stub helper entry"@,
                ),
            ),
            Some(offset) => encode::stub_helper_entry(addr, header, offset),
        },
    }
}

pub open spec fn helper_parts(
    t: Targets,
    header: u64,
    lazy_bind_offsets: Map<u32, u32>,
    entries: Seq<SlotEntry>,
) -> spec_fn(int) -> Result<Seq<u8>, RelocFault> {
    |i: int| helper_part(t, header, lazy_bind_offsets, entries, i)
}

fn helper_entry(
    i: usize,
    id: SymbolId,
    header: u64,
    v: &ResolveView<'_>,
    lazy_bind_offsets: &HashMap<u32, u32>,
    Ghost(entries): Ghost<Seq<SlotEntry>>,
) -> (r: Result<Vec<u8>, RelocError>)
    requires
        i < entries.len(),
        entries[i as int].symbol == id,
        24 + i * 12 <= usize::MAX,
    ensures
        encode::same_bytes_outcome(
            r,
            helper_part(v@, header, lazy_bind_offsets@, entries, i as int),
        ),
        r is Ok ==> r->Ok_0@.len() == 12,
{
    let start: u32 = (24 + i * 12) as u32;
    let addr: u64 = match find_addr(v.stub_helper_entry_addrs, id.0) {
        Some(addr) => addr,
        None => {
            return Err(
                made_error(
                    "<synthetic stub helper>",
                    start,
                    RelocKind::Branch26,
                    describe_symbol(id),
                    "stub helper entry missing final address",
                ),
            );
        },
    };
    let offset: u32 = match lazy_bind_offsets.get(&id.0) {
        Some(offset) => *offset,
        None => {
            return Err(
                made_error(
                    "<synthetic stub helper>",
                    start,
                    RelocKind::Unsigned,
                    describe_symbol(id),
                    "lazy bind offset missing for stub helper entry",
                ),
            );
        },
    };
    encode_stub_helper_entry(addr, header, offset)
}

/// The stub helper's bytes: the header, then one entry for each lazy pointer.
pub open spec fn helper_bytes(
    t: Targets,
    binder: SymbolId,
    lazy_bind_offsets: Map<u32, u32>,
    entries: Seq<SlotEntry>,
    s: Seq<u8>,
) -> Result<Seq<u8>, RelocFault> {
    match (
        t.stub_helper_header_addr,
        t.dyld_private_addr,
        targets::lookup(t.got_addrs, binder.0),
    ) {
        (None, _, _) => Err(
            made_fault(
                "<synthetic stub helper>"@,
                0,
                RelocKind::Branch26,
                "__stub_helper"@,
                "stub helper section missing final address"@,
            ),
        ),
        (Some(_), None, _) => Err(
            made_fault(
                "<synthetic stub helper>"@,
                0,
                RelocKind::Unsigned,
                "__dyld_private"@,
                "dyld-private slot missing final address"@,
            ),
        ),
        (Some(_), Some(_), None) => Err(
            made_fault(
                "<synthetic stub helper>"@,
                0,
                RelocKind::GotLoadPage21,
                "dyld_stub_binder"@,
                "binder GOT slot missing final address"@,
            ),
        ),
        (Some(header), Some(private), Some(got)) => match encode::stub_helper_header(
            header,
            private,
            got,
        ) {
            Err(e) => Err(e),
            Ok(code) => filled(
                bytes::replaced(s, 0, code),
                entries.len(),
                24,
                12,
                helper_parts(t, header, lazy_bind_offsets, entries),
            ),
        },
    }
}

fn fill_stub_helper(
    data: &mut Vec<u8>,
    binder: SymbolId,
    entries: &Vec<SlotEntry>,
    v: &ResolveView<'_>,
    lazy_bind_offsets: &HashMap<u32, u32>,
) -> (r: Result<(), RelocError>)
    requires
        STUB_HELPER_HEADER_SIZE + entries@.len() * STUB_HELPER_ENTRY_SIZE <= old(data)@.len(),
    ensures
        match (r, helper_bytes(v@, binder, lazy_bind_offsets@, entries@, old(data)@)) {
            (Ok(_), Ok(s)) => final(data)@ == s,
            (Err(e), Err(f)) => e@ == f,
            _ => false,
        },
{
    let header: u64 = match v.stub_helper_header_addr {
        Some(addr) => addr,
        None => {
            return Err(
                made_error(
                    "<synthetic stub helper>",
                    0,
                    RelocKind::Branch26,
                    "__stub_helper".to_owned(),
                    "stub helper section missing final address",
                ),
            );
        },
    };
    let private: u64 = match v.dyld_private_addr {
        Some(addr) => addr,
        None => {
            return Err(
                made_error(
                    "<synthetic stub helper>",
                    0,
                    RelocKind::Unsigned,
                    "__dyld_private".to_owned(),
                    "dyld-private slot missing final address",
                ),
            );
        },
    };
    let got: u64 = match find_addr(v.got_addrs, binder.0) {
        Some(addr) => addr,
        None => {
            return Err(
                made_error(
                    "<synthetic stub helper>",
                    0,
                    RelocKind::GotLoadPage21,
                    "dyld_stub_binder".to_owned(),
                    "binder GOT slot missing final address",
                ),
            );
        },
    };
    let code = match encode_stub_helper_header(header, private, got) {
        Ok(code) => code,
        Err(e) => {
            return Err(e);
        },
    };
    assert(data.len() == data@.len());
    overwrite(data, 0, code.as_slice());
    let ghost before = data@;
    let ghost part = helper_parts(v@, header, lazy_bind_offsets@, entries@);
    let ghost want = helper_bytes(v@, binder, lazy_bind_offsets@, entries@, old(data)@);
    let mut i: usize = 0;
    while i < entries.len()
        invariant
            i <= entries@.len(),
            want == helper_bytes(v@, binder, lazy_bind_offsets@, entries@, old(data)@),
            want == filled(before, entries@.len(), 24, 12, part),
            part == helper_parts(v@, header, lazy_bind_offsets@, entries@),
            24 + entries@.len() * 12 <= before.len(),
            before.len() <= usize::MAX,
            data@.len() == before.len(),
            filled(before, i as nat, 24, 12, part) == Ok::<_, RelocFault>(data@),
        decreases entries@.len() - i,
    {
        assert(part(i as int) == helper_part(
            v@,
            header,
            lazy_bind_offsets@,
            entries@,
            i as int,
        ));
        let code = match helper_entry(
            i,
            entries[i].symbol,
            header,
            v,
            lazy_bind_offsets,
            Ghost(entries@),
        ) {
            Ok(code) => code,
            Err(e) => {
                proof {
                    lemma_filled_fault(before, (i + 1) as nat, 24, 12, part, entries@.len());
                }
                return Err(e);
            },
        };
        overwrite(data, 24 + i * 12, code.as_slice());
        i += 1;
    }
    Ok(())
}

/// The contents with the stub helper filled in, if there is a binder to call.
pub open spec fn helper_contents(
    t: Targets,
    sections: Seq<OutputSection>,
    plan: SyntheticPlan,
    lazy_bind_offsets: Map<u32, u32>,
    c: Contents,
) -> Result<Contents, RelocFault> {
    let place = layout::section_at(sections, "__TEXT"@, "__stub_helper"@);
    match plan.binder_symbol {
        None => Ok(c),
        Some(binder) => rewritten(
            c,
            place,
            helper_bytes(
                t,
                binder,
                lazy_bind_offsets,
                plan.lazy_pointers.entries@,
                c.synthetic[place->0],
            ),
        ),
    }
}

pub fn synthesize_stub_helper_section(
    layout: &mut Layout,
    plan: &SyntheticPlan,
    v: &ResolveView<'_>,
    lazy_bind_offsets: &HashMap<u32, u32>,
) -> (r: Result<(), RelocError>)
    requires
        plan.binder_symbol is Some ==> has_room(
            old(layout).sections@,
            "__TEXT"@,
            "__stub_helper"@,
            STUB_HELPER_HEADER_SIZE + plan.lazy_pointers.entries@.len() * STUB_HELPER_ENTRY_SIZE,
        ),
    ensures
        apply::outcome(
            *old(layout),
            *final(layout),
            r,
            helper_contents(
                v@,
                old(layout).sections@,
                *plan,
                lazy_bind_offsets@,
                apply::contents_of(old(layout).sections@),
            ),
        ),
{
    let ghost before = layout.sections@;
    let binder = match plan.binder_symbol {
        Some(binder) => binder,
        None => {
            return Ok(());
        },
    };
    let i: usize = match layout.find_section("__TEXT", "__stub_helper") {
        Some(i) => i,
        None => {
            return Ok(());
        },
    };
    let r = fill_stub_helper(
        &mut layout.sections[i].synthetic_data,
        binder,
        &plan.lazy_pointers.entries,
        v,
        lazy_bind_offsets,
    );
    proof {
        lemma_synthetic_written(
            before,
            layout.sections@,
            i as int,
            layout.sections@[i as int].synthetic_data@,
        );
    }
    r
}

} // verus!
