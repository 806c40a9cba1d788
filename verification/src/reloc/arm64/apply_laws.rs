//! What applying a relocation means for the program that runs: the addresses that its
//! pointers hold and that its instructions reach.

use vstd::prelude::*;
use crate::atom::Atom;
use crate::bytes;
use crate::input::ObjectFile;
use crate::reloc::arm64::apply;
use crate::reloc::arm64::apply::PlacedThunks;
use crate::reloc::arm64::encode;
use crate::reloc::arm64::maps;
use crate::reloc::arm64::patch;
use crate::reloc::arm64::patch::Site;
use crate::reloc::arm64::places;
use crate::reloc::arm64::targets;
use crate::reloc::arm64::targets::Targets;
use crate::reloc::arm64::RelocFault;
use crate::reloc::{Referent, Reloc, RelocKind, RelocLength};
use crate::resolve::table;
use crate::resolve::{AtomId, Symbol, SymbolId};
use crate::section::OutputSection;

verus! {

/// Addresses are numbers modulo this one.
pub open spec fn span() -> int {
    0x1_0000_0000_0000_0000
}

/// `after` differs from `before` in no byte outside the `n` from `at` on.
pub open spec fn changed_only(before: Seq<u8>, after: Seq<u8>, at: int, n: int) -> bool {
    &&& after.len() == before.len()
    &&& forall|j: int|
        0 <= j < before.len() && !(at <= j < at + n) ==> #[trigger] after[j] == before[j]
}

/// The handle leads to the slot `id`, itself or as another name of it.
pub open spec fn handle_leads_to(t: table::TableState, h: u32, id: SymbolId) -> bool {
    &&& t.by_name.contains_key(h)
    &&& !(t.at(id) is Alias)
    &&& {
        ||| t.by_name[h] == id
        ||| {
            &&& t.at(t.by_name[h]) is Alias
            &&& t.by_name.contains_key(t.at(t.by_name[h])->aliased.0)
            &&& t.by_name[t.at(t.by_name[h])->aliased.0] == id
        }
    }
}

/// The object's symbol `idx` has the name that the slot `id` is found under.
pub open spec fn names_slot(
    t: table::TableState,
    obj: ObjectFile,
    idx: u32,
    h: u32,
    id: SymbolId,
) -> bool {
    &&& idx < obj.symbols@.len()
    &&& t.names.no_duplicates()
    &&& h < t.names.len()
    &&& obj.name_of(obj.symbols@[idx as int]) is Ok
    &&& obj.name_of(obj.symbols@[idx as int])->Ok_0 == t.names[h as int]
    &&& handle_leads_to(t, h, id)
}

pub proof fn lemma_names_slot(t: table::TableState, obj: ObjectFile, idx: u32, h: u32, id: SymbolId)
    requires
        names_slot(t, obj, idx, h, id),
    ensures
        targets::referent_symbol(obj, Referent::Symbol(idx), t) == Some(id),
{
    let name = t.names[h as int];
    assert(t.names.contains(name));
    assert(t.names.index_of(name) == h);
    reveal_with_fuel(table::TableState::chain, 3);
    assert(table::MAX_ALIAS_DEPTH as nat >= 2);
}

/// A relocation against a symbol that an object of this link defines means the address
/// of the defining atom in the layout plus the symbol's offset in it.
pub proof fn law_defined_symbol_address(
    t: Targets,
    sections: Seq<OutputSection>,
    obj: ObjectFile,
    atom: Atom,
    kind: RelocKind,
    idx: u32,
    h: u32,
    id: SymbolId,
    i: int,
    k: int,
)
    requires
        t.atom_addrs == maps::atom_addresses(sections),
        names_slot(t.symbols, obj, idx, h, id),
        t.symbols.at(id) is Defined,
        places::stands_at(sections, i, k, t.symbols.at(id)->Defined_atom.0),
    ensures
        targets::import_symbol(obj, Referent::Symbol(idx), t.symbols) is None,
        targets::referent_target(t, obj, atom, kind, Referent::Symbol(idx)) is Ok,
        targets::referent_target(t, obj, atom, kind, Referent::Symbol(idx))->Ok_0 == (
        places::final_address(sections, i, k) + t.symbols.at(id)->value) % span(),
{
    lemma_names_slot(t.symbols, obj, idx, h, id);
    places::law_atom_address(sections, i, k, t.symbols.at(id)->Defined_atom.0);
}

proof fn lemma_signed_view(v: u64)
    ensures
        v < 0x8000_0000_0000_0000 ==> v as i64 == v,
        v >= 0x8000_0000_0000_0000 ==> v as i64 == v - 0x1_0000_0000_0000_0000,
{
    assert(v < 0x8000_0000_0000_0000 ==> v as i64 == v) by (bit_vector);
    assert(v >= 0x8000_0000_0000_0000 ==> v as i64 == v - 0x1_0000_0000_0000_0000)
        by (bit_vector);
}

proof fn lemma_pointer_value(x: u64, a: i64, b: u64)
    ensures
        x.wrapping_add_signed(a).wrapping_add_signed(b as i64) == (x + a + b) % span(),
{
    lemma_signed_view(b);
    let c = b as i64;
    assert(x.wrapping_add_signed(a).wrapping_add_signed(c) == (x + a + c) % span());
    if c != b {
        vstd::arithmetic::div_mod::lemma_mod_add_multiples_vanish(x + a + c, span());
    }
}

proof fn lemma_difference_value(x: u64, m: u64, a: i64, b: u64)
    ensures
        x.wrapping_sub(m).wrapping_add_signed(a).wrapping_add_signed(b as i64) == (x - m + a + b)
            % span(),
{
    let d = x.wrapping_sub(m);
    lemma_pointer_value(d, a, b);
    if d != x - m {
        vstd::arithmetic::div_mod::lemma_mod_add_multiples_vanish(x - m + a + b, span());
    }
}

proof fn lemma_store64(s: Seq<u8>, at: int, v: u64)
    requires
        0 <= at,
        at + 8 <= s.len(),
    ensures
        bytes::le64(bytes::replaced(s, at, bytes::le64_bytes(v)), at) == v,
        changed_only(s, bytes::replaced(s, at, bytes::le64_bytes(v)), at, 8),
{
    assert(bytes::le64_bytes(v).len() == 8);
    bytes::lemma_replaced(s, at, bytes::le64_bytes(v));
    bytes::lemma_le64_of_bytes(bytes::replaced(s, at, bytes::le64_bytes(v)), at, v);
}

proof fn lemma_store32(s: Seq<u8>, at: int, v: u32)
    requires
        0 <= at,
        at + 4 <= s.len(),
    ensures
        bytes::le32(bytes::replaced(s, at, bytes::le32_bytes(v)), at) == v,
        changed_only(s, bytes::replaced(s, at, bytes::le32_bytes(v)), at, 4),
{
    bytes::lemma_replaced(s, at, bytes::le32_bytes(v));
    bytes::lemma_le32_of_bytes(bytes::replaced(s, at, bytes::le32_bytes(v)), at, v);
}

/// The relocation lies in the atom, the atom is placed, and `n` bytes are there for it.
pub open spec fn has_room(t: Targets, atom: Atom, reloc: Reloc, s: Seq<u8>, n: int) -> bool {
    &&& atom.input_offset <= reloc.offset
    &&& t.atom_addrs.contains_key(atom.id.0)
    &&& reloc.offset - atom.input_offset + n <= s.len()
}

/// An 8-byte pointer to something that is no import ends up as the sum of the address
/// that it refers to, the addend of the relocation and what the pointer held before. No
/// other byte changes.
#[verifier::rlimit(50)]
#[verifier::spinoff_prover]
pub proof fn law_pointer_adds_up(
    t: Targets,
    thunks: PlacedThunks,
    atom: Atom,
    obj: ObjectFile,
    reloc: Reloc,
    s: Seq<u8>,
    target: u64,
)
    requires
        reloc.kind == RelocKind::Unsigned,
        reloc.length == RelocLength::Quad,
        targets::import_symbol(obj, reloc.referent, t.symbols) is None,
        targets::referent_target(t, obj, atom, reloc.kind, reloc.referent) == Ok::<u64, RelocFault>(
            target,
        ),
        has_room(t, atom, reloc, s, 8),
    ensures
        ({
            let at = reloc.offset - atom.input_offset;
            let r = apply::relocated_once(t, thunks, atom, obj, reloc, s);
            &&& r is Ok
            &&& bytes::le64(r->Ok_0, at) == (target + reloc.addend + bytes::le64(s, at)) % span()
            &&& changed_only(s, r->Ok_0, at, 8)
        }),
{
    let at = reloc.offset - atom.input_offset;
    let b = bytes::le64(s, at);
    let v = target.wrapping_add_signed(reloc.addend).wrapping_add_signed(b as i64);
    let r = apply::relocated_once(t, thunks, atom, obj, reloc, s);
    assert(r == Ok::<Seq<u8>, RelocFault>(bytes::replaced(s, at, bytes::le64_bytes(v))));
    assert(v == (target + reloc.addend + b) % span()) by {
        lemma_pointer_value(target, reloc.addend, b);
    }
    lemma_store64(s, at, v);
}

/// An 8-byte pointer to a symbol that an object defines ends up as the final address of
/// the symbol plus the addend plus what the pointer held before.
#[verifier::rlimit(50)]
#[verifier::spinoff_prover]
pub proof fn law_pointer_to_defined_symbol(
    t: Targets,
    thunks: PlacedThunks,
    sections: Seq<OutputSection>,
    atom: Atom,
    obj: ObjectFile,
    reloc: Reloc,
    s: Seq<u8>,
    h: u32,
    id: SymbolId,
    i: int,
    k: int,
)
    requires
        t.atom_addrs == maps::atom_addresses(sections),
        reloc.kind == RelocKind::Unsigned,
        reloc.length == RelocLength::Quad,
        reloc.referent is Symbol,
        names_slot(t.symbols, obj, reloc.referent->Symbol_0, h, id),
        t.symbols.at(id) is Defined,
        places::stands_at(sections, i, k, t.symbols.at(id)->Defined_atom.0),
        has_room(t, atom, reloc, s, 8),
    ensures
        ({
            let at = reloc.offset - atom.input_offset;
            let r = apply::relocated_once(t, thunks, atom, obj, reloc, s);
            &&& r is Ok
            &&& bytes::le64(r->Ok_0, at) == (places::final_address(sections, i, k) + t.symbols.at(
                id,
            )->value + reloc.addend + bytes::le64(s, at)) % span()
            &&& changed_only(s, r->Ok_0, at, 8)
        }),
{
    let idx = reloc.referent->Symbol_0;
    law_defined_symbol_address(t, sections, obj, atom, reloc.kind, idx, h, id, i, k);
    let target = targets::referent_target(t, obj, atom, reloc.kind, reloc.referent)->Ok_0;
    law_pointer_adds_up(t, thunks, atom, obj, reloc, s, target);
    let b = bytes::le64(s, reloc.offset - atom.input_offset);
    lemma_mod_inside(
        places::final_address(sections, i, k) + t.symbols.at(id)->value,
        reloc.addend + b,
    );
}

proof fn lemma_mod_inside(a: int, b: int)
    ensures
        (a % span() + b) % span() == (a + b) % span(),
{
    vstd::arithmetic::div_mod::lemma_add_mod_noop_right(b, a, span());
}

/// Two pointers to the same thing that differed before relocation differ by as much
/// after it.
#[verifier::rlimit(50)]
#[verifier::spinoff_prover]
pub proof fn law_pointers_keep_their_difference(
    t: Targets,
    thunks: PlacedThunks,
    obj: ObjectFile,
    atom: Atom,
    first: Reloc,
    s1: Seq<u8>,
    second: Reloc,
    s2: Seq<u8>,
    target: u64,
)
    requires
        first.kind == RelocKind::Unsigned,
        first.length == RelocLength::Quad,
        second == (Reloc { offset: second.offset, ..first }),
        targets::import_symbol(obj, first.referent, t.symbols) is None,
        targets::referent_target(t, obj, atom, first.kind, first.referent) == Ok::<u64, RelocFault>(
            target,
        ),
        has_room(t, atom, first, s1, 8),
        has_room(t, atom, second, s2, 8),
    ensures
        ({
            let at1 = first.offset - atom.input_offset;
            let at2 = second.offset - atom.input_offset;
            let after1 = apply::relocated_once(t, thunks, atom, obj, first, s1)->Ok_0;
            let after2 = apply::relocated_once(t, thunks, atom, obj, second, s2)->Ok_0;
            (bytes::le64(after1, at1) - bytes::le64(after2, at2)) % span() == (bytes::le64(s1, at1)
                - bytes::le64(s2, at2)) % span()
        }),
{
    law_pointer_adds_up(t, thunks, atom, obj, first, s1, target);
    law_pointer_adds_up(t, thunks, atom, obj, second, s2, target);
    lemma_mod_difference(
        target + first.addend,
        bytes::le64(s1, first.offset - atom.input_offset) as int,
        bytes::le64(s2, second.offset - atom.input_offset) as int,
    );
}

proof fn lemma_mod_difference(x: int, b1: int, b2: int)
    ensures
        ((x + b1) % span() - (x + b2) % span()) % span() == (b1 - b2) % span(),
{
    vstd::arithmetic::div_mod::lemma_sub_mod_noop(x + b1, x + b2, span());
}

/// A pointer to an import is cleared, for dyld to fill in.
pub proof fn law_imported_pointer_is_cleared(
    t: Targets,
    thunks: PlacedThunks,
    atom: Atom,
    obj: ObjectFile,
    reloc: Reloc,
    s: Seq<u8>,
    h: u32,
    id: SymbolId,
)
    requires
        reloc.kind == RelocKind::Unsigned,
        reloc.length == RelocLength::Quad,
        !reloc.pcrel,
        reloc.subtrahend is None,
        reloc.referent is Symbol,
        names_slot(t.symbols, obj, reloc.referent->Symbol_0, h, id),
        t.symbols.at(id) is DylibImport,
        has_room(t, atom, reloc, s, 8),
    ensures
        ({
            let at = reloc.offset - atom.input_offset;
            let r = apply::relocated_once(t, thunks, atom, obj, reloc, s);
            &&& r is Ok
            &&& bytes::le64(r->Ok_0, at) == 0
            &&& changed_only(s, r->Ok_0, at, 8)
        }),
{
    lemma_names_slot(t.symbols, obj, reloc.referent->Symbol_0, h, id);
    lemma_store64(s, reloc.offset - atom.input_offset, 0);
}

/// The difference of two addresses ends up as the address of the one less that of the
/// other, plus the addend, plus what was there before.
#[verifier::rlimit(50)]
#[verifier::spinoff_prover]
pub proof fn law_difference_adds_up(
    t: Targets,
    thunks: PlacedThunks,
    atom: Atom,
    obj: ObjectFile,
    reloc: Reloc,
    s: Seq<u8>,
    minuend: u64,
    subtrahend: u64,
)
    requires
        reloc.kind == RelocKind::Subtractor,
        reloc.length == RelocLength::Quad,
        reloc.subtrahend is Some,
        targets::referent_target(t, obj, atom, reloc.kind, reloc.referent) == Ok::<u64, RelocFault>(
            minuend,
        ),
        targets::referent_target(t, obj, atom, reloc.kind, reloc.subtrahend->0) == Ok::<
            u64,
            RelocFault,
        >(subtrahend),
        has_room(t, atom, reloc, s, 8),
    ensures
        ({
            let at = reloc.offset - atom.input_offset;
            let r = apply::relocated_once(t, thunks, atom, obj, reloc, s);
            &&& r is Ok
            &&& bytes::le64(r->Ok_0, at) == (minuend - subtrahend + reloc.addend + bytes::le64(
                s,
                at,
            )) % span()
            &&& changed_only(s, r->Ok_0, at, 8)
        }),
{
    let at = reloc.offset - atom.input_offset;
    let b = bytes::le64(s, at);
    let v = minuend.wrapping_sub(subtrahend).wrapping_add_signed(reloc.addend).wrapping_add_signed(
        b as i64,
    );
    let r = apply::relocated_once(t, thunks, atom, obj, reloc, s);
    assert(r == Ok::<Seq<u8>, RelocFault>(bytes::replaced(s, at, bytes::le64_bytes(v))));
    assert(v == (minuend - subtrahend + reloc.addend + b) % span()) by {
        lemma_difference_value(minuend, subtrahend, reloc.addend, b);
    }
    lemma_store64(s, at, v);
}

/// A 4-byte pointer that is no import's ends up as the low half of the same sum.
#[verifier::rlimit(50)]
#[verifier::spinoff_prover]
pub proof fn law_short_pointer_adds_up(
    t: Targets,
    thunks: PlacedThunks,
    atom: Atom,
    obj: ObjectFile,
    reloc: Reloc,
    s: Seq<u8>,
    target: u64,
)
    requires
        reloc.kind == RelocKind::Unsigned,
        reloc.length == RelocLength::Word,
        targets::import_symbol(obj, reloc.referent, t.symbols) is None,
        targets::referent_target(t, obj, atom, reloc.kind, reloc.referent) == Ok::<u64, RelocFault>(
            target,
        ),
        has_room(t, atom, reloc, s, 4),
    ensures
        ({
            let at = reloc.offset - atom.input_offset;
            let r = apply::relocated_once(t, thunks, atom, obj, reloc, s);
            &&& r is Ok
            &&& bytes::le32(r->Ok_0, at) == (target + reloc.addend + bytes::le32(s, at))
                % 0x1_0000_0000
            &&& changed_only(s, r->Ok_0, at, 4)
        }),
{
    let at = reloc.offset - atom.input_offset;
    let b = bytes::le32(s, at);
    let sum = target.wrapping_add_signed(reloc.addend);
    let v = sum.wrapping_add_signed((b as i32) as i64);
    let r = apply::relocated_once(t, thunks, atom, obj, reloc, s);
    assert(r == Ok::<Seq<u8>, RelocFault>(bytes::replaced(s, at, bytes::le32_bytes(v as u32))));
    assert(v as u32 == (target + reloc.addend + b) % 0x1_0000_0000) by {
        lemma_short_value(target, reloc.addend, b);
    }
    lemma_store32(s, at, v as u32);
}

proof fn lemma_short_value(x: u64, a: i64, b: u32)
    ensures
        x.wrapping_add_signed(a).wrapping_add_signed((b as i32) as i64) as u32 == (x + a + b)
            % 0x1_0000_0000,
{
    let c = (b as i32) as i64;
    assert(b < 0x8000_0000 ==> (b as i32) as i64 == b) by (bit_vector);
    assert(b >= 0x8000_0000 ==> (b as i32) as i64 == b - 0x1_0000_0000) by (bit_vector);
    let v = x.wrapping_add_signed(a).wrapping_add_signed(c);
    assert(v as u32 == v % 0x1_0000_0000) by (bit_vector);
    assert(v == (x + a + c) % span());
    let full = x + a + c;
    let q = full / span();
    assert(full == q * span() + v);
    assert(full == (q * 0x1_0000_0000) * 0x1_0000_0000 + v);
    vstd::arithmetic::div_mod::lemma_mod_multiples_vanish(
        q * 0x1_0000_0000,
        v as int,
        0x1_0000_0000,
    );
    if c != b {
        vstd::arithmetic::div_mod::lemma_mod_add_multiples_vanish(full, 0x1_0000_0000);
    }
}

/// Where the relocation's first byte ends up.
pub open spec fn place_of(t: Targets, atom: Atom, reloc: Reloc) -> int {
    (t.atom_addrs[atom.id.0] + (reloc.offset - atom.input_offset)) % span()
}

/// The site of a relocation that lies in its atom.
pub open spec fn site_of<'a>(atom: &'a Atom, obj: &'a ObjectFile, reloc: Reloc) -> Site<'a> {
    Site { atom, obj, local_offset: (reloc.offset - atom.input_offset) as u32, reloc }
}

/// A relocated branch goes to its destination plus the addend, and is otherwise the
/// instruction that it was. It fails only where no such branch exists.
#[verifier::rlimit(50)]
#[verifier::spinoff_prover]
pub proof fn law_branch_lands(
    t: Targets,
    thunks: PlacedThunks,
    atom: Atom,
    obj: ObjectFile,
    reloc: Reloc,
    s: Seq<u8>,
    dest: u64,
)
    requires
        reloc.kind == RelocKind::Branch26,
        apply::branch_destination(t, thunks, site_of(&atom, &obj, reloc)) == Ok::<u64, RelocFault>(
            dest,
        ),
        has_room(t, atom, reloc, s, 4),
    ensures
        ({
            let at = reloc.offset - atom.input_offset;
            let place = place_of(t, atom, reloc) as u64;
            let wanted = ((dest + reloc.addend) % span()) as u64;
            let r = apply::relocated_once(t, thunks, atom, obj, reloc, s);
            &&& r is Ok <==> encode::branch26_reaches(place, wanted)
            &&& r is Ok ==> encode::branch_goes_to(bytes::le32(r->Ok_0, at), place) == wanted
            &&& r is Ok ==> bytes::le32(r->Ok_0, at) & !0x03ff_ffffu32 == bytes::le32(s, at)
                & !0x03ff_ffffu32
            &&& r is Ok ==> changed_only(s, r->Ok_0, at, 4)
        }),
{
    let place = place_of(t, atom, reloc) as u64;
    let wanted = ((dest + reloc.addend) % span()) as u64;
    lemma_branch_step(t, thunks, atom, obj, reloc, s, dest);
    assert(dest.wrapping_add_signed(reloc.addend) == wanted);
    lemma_branch_patch(site_of(&atom, &obj, reloc), s, place, dest, wanted);
}

proof fn lemma_branch_step(
    t: Targets,
    thunks: PlacedThunks,
    atom: Atom,
    obj: ObjectFile,
    reloc: Reloc,
    s: Seq<u8>,
    dest: u64,
)
    requires
        reloc.kind == RelocKind::Branch26,
        apply::branch_destination(t, thunks, site_of(&atom, &obj, reloc)) == Ok::<u64, RelocFault>(
            dest,
        ),
        atom.input_offset <= reloc.offset,
        t.atom_addrs.contains_key(atom.id.0),
    ensures
        apply::relocated_once(t, thunks, atom, obj, reloc, s) == patch::branch26_patch(
            site_of(&atom, &obj, reloc),
            s,
            place_of(t, atom, reloc) as u64,
            dest,
        ),
{
    let at = (reloc.offset - atom.input_offset) as u32;
    assert(t.atom_addrs[atom.id.0].wrapping_add(at as u64) == place_of(t, atom, reloc) as u64);
}

proof fn lemma_branch_patch(site: Site, s: Seq<u8>, place: u64, dest: u64, wanted: u64)
    requires
        dest.wrapping_add_signed(site.reloc.addend) == wanted,
        site.local_offset + 4 <= s.len(),
    ensures
        ({
            let at = site.local_offset as int;
            let r = patch::branch26_patch(site, s, place, dest);
            &&& r is Ok <==> encode::branch26_reaches(place, wanted)
            &&& r is Ok ==> encode::branch_goes_to(bytes::le32(r->Ok_0, at), place) == wanted
            &&& r is Ok ==> bytes::le32(r->Ok_0, at) & !0x03ff_ffffu32 == bytes::le32(s, at)
                & !0x03ff_ffffu32
            &&& r is Ok ==> changed_only(s, r->Ok_0, at, 4)
        }),
{
    if encode::branch26_reaches(place, wanted) {
        let at = site.local_offset as int;
        let insn = bytes::le32(s, at);
        encode::law_branch26_reaches_target(insn, place, wanted);
        lemma_store32(s, at, encode::with_imm26(insn, encode::distance(place, wanted) >> 2));
    }
}

/// What an `adrp` relocation is about: the target itself, its slot of the pointer
/// table, or its thread-local place, as the kind says.
pub open spec fn page_goes_to(t: Targets, atom: Atom, obj: ObjectFile, reloc: Reloc, target: u64) -> bool {
    let wanted = Ok::<u64, RelocFault>(target);
    match reloc.kind {
        RelocKind::Page21 | RelocKind::PageOff12 => targets::referent_target(
            t,
            obj,
            atom,
            reloc.kind,
            reloc.referent,
        ) == wanted,
        RelocKind::GotLoadPage21 | RelocKind::GotLoadPageOff12 => apply::got_load_target(
            t,
            site_of(&atom, &obj, reloc),
        ) == wanted,
        RelocKind::TlvpLoadPage21 | RelocKind::TlvpLoadPageOff12 => targets::tlvp_target(
            t,
            obj,
            atom,
            reloc,
        ) == wanted,
        _ => false,
    }
}

/// A relocated `adrp` computes the page of its target plus the addend, and is otherwise
/// the instruction that it was.
#[verifier::rlimit(50)]
#[verifier::spinoff_prover]
pub proof fn law_page_is_computed(
    t: Targets,
    thunks: PlacedThunks,
    atom: Atom,
    obj: ObjectFile,
    reloc: Reloc,
    s: Seq<u8>,
    target: u64,
)
    requires
        reloc.kind == RelocKind::Page21 || reloc.kind == RelocKind::GotLoadPage21 || reloc.kind
            == RelocKind::TlvpLoadPage21,
        page_goes_to(t, atom, obj, reloc, target),
        has_room(t, atom, reloc, s, 4),
        apply::relocated_once(t, thunks, atom, obj, reloc, s) is Ok,
    ensures
        ({
            let at = reloc.offset - atom.input_offset;
            let place = place_of(t, atom, reloc) as u64;
            let wanted = (target + reloc.addend) % span();
            let after = apply::relocated_once(t, thunks, atom, obj, reloc, s)->Ok_0;
            &&& encode::adrp_computes(bytes::le32(after, at), place) == wanted - wanted % 0x1000
            &&& bytes::le32(after, at) & !0x60ff_ffe0u32 == bytes::le32(s, at) & !0x60ff_ffe0u32
            &&& changed_only(s, after, at, 4)
        }),
{
    let at = reloc.offset - atom.input_offset;
    let place = place_of(t, atom, reloc) as u64;
    let wanted = ((target + reloc.addend) % span()) as u64;
    let site = site_of(&atom, &obj, reloc);
    let r = apply::relocated_once(t, thunks, atom, obj, reloc, s);
    lemma_page_step(t, thunks, atom, obj, reloc, s, target);
    assert(target.wrapping_add_signed(reloc.addend) == wanted);
    lemma_page_patch(site, s, place, target, wanted);
}

proof fn lemma_page_step(
    t: Targets,
    thunks: PlacedThunks,
    atom: Atom,
    obj: ObjectFile,
    reloc: Reloc,
    s: Seq<u8>,
    target: u64,
)
    requires
        reloc.kind == RelocKind::Page21 || reloc.kind == RelocKind::GotLoadPage21 || reloc.kind
            == RelocKind::TlvpLoadPage21,
        page_goes_to(t, atom, obj, reloc, target),
        atom.input_offset <= reloc.offset,
        t.atom_addrs.contains_key(atom.id.0),
    ensures
        apply::relocated_once(t, thunks, atom, obj, reloc, s) == patch::page21_patch(
            site_of(&atom, &obj, reloc),
            s,
            place_of(t, atom, reloc) as u64,
            target,
        ),
{
    let at = (reloc.offset - atom.input_offset) as u32;
    assert(t.atom_addrs[atom.id.0].wrapping_add(at as u64) == place_of(t, atom, reloc) as u64);
}

proof fn lemma_page_patch(site: Site, s: Seq<u8>, place: u64, target: u64, wanted: u64)
    requires
        target.wrapping_add_signed(site.reloc.addend) == wanted,
        patch::page21_patch(site, s, place, target) is Ok,
    ensures
        ({
            let at = site.local_offset as int;
            let after = patch::page21_patch(site, s, place, target)->Ok_0;
            &&& encode::adrp_computes(bytes::le32(after, at), place) == wanted - wanted % 0x1000
            &&& bytes::le32(after, at) & !0x60ff_ffe0u32 == bytes::le32(s, at) & !0x60ff_ffe0u32
            &&& changed_only(s, after, at, 4)
        }),
{
    let at = site.local_offset as int;
    let insn = bytes::le32(s, at);
    let made = encode::with_imm21(insn, encode::page_distance(place, wanted) >> 12);
    encode::law_page21_computes_page(insn, place, wanted);
    assert(wanted & !0xfffu64 == wanted - wanted % 0x1000) by (bit_vector);
    lemma_store32(s, at, made);
}

/// The load was turned into an `add`.
pub open spec fn becomes_add(t: Targets, obj: ObjectFile, reloc: Reloc) -> bool {
    ||| reloc.kind == RelocKind::GotLoadPageOff12 && targets::relaxes_locally(t, obj, reloc)
    ||| reloc.kind == RelocKind::TlvpLoadPageOff12 && targets::import_symbol(
        obj,
        reloc.referent,
        t.symbols,
    ) is None
}

/// The immediate of an instruction with a page offset in it.
pub open spec fn imm12(insn: u32) -> u32 {
    (insn >> 10) & 0xfff
}

proof fn lemma_imm12(insn: u32, low: u64)
    by (bit_vector)
    requires
        low <= 0xfff,
    ensures
        ((((insn & !0x003f_fc00u32) | ((low as u32) << 10)) >> 10) & 0xfff) == low,
        ((insn & !0x003f_fc00u32) | ((low as u32) << 10)) & !0x003f_fc00u32 == insn
            & !0x003f_fc00u32,
        (((0x9100_0000u32 | ((low as u32) << 10) | (((insn >> 5) & 0x1f) << 5) | (insn & 0x1f))
            >> 10) & 0xfff) == low,
        (0x9100_0000u32 | ((low as u32) << 10) | (((insn >> 5) & 0x1f) << 5) | (insn & 0x1f))
            & 0xffc0_03ffu32 == 0x9100_0000u32 | (insn & 0x3ff),
{
}

proof fn lemma_scaled(low: u64, shift: u64)
    by (bit_vector)
    requires
        low <= 0xfff,
        shift <= 4,
        low % (1u64 << shift) == 0,
    ensures
        (low >> shift) * (1u64 << shift) == low,
        (low >> shift) <= 0xfff,
{
}

/// A relocated `add`, load or store has the low twelve bits of its target plus the
/// addend in it, in the units that the instruction counts in. A load that the target
/// does not need has become an `add` on the same registers; any other instruction is
/// what it was.
#[verifier::rlimit(50)]
#[verifier::spinoff_prover]
pub proof fn law_page_offset_is_kept(
    t: Targets,
    thunks: PlacedThunks,
    atom: Atom,
    obj: ObjectFile,
    reloc: Reloc,
    s: Seq<u8>,
    target: u64,
)
    requires
        reloc.kind == RelocKind::PageOff12 || reloc.kind == RelocKind::GotLoadPageOff12
            || reloc.kind == RelocKind::TlvpLoadPageOff12,
        page_goes_to(t, atom, obj, reloc, target),
        has_room(t, atom, reloc, s, 4),
        apply::relocated_once(t, thunks, atom, obj, reloc, s) is Ok,
    ensures
        ({
            let at = reloc.offset - atom.input_offset;
            let low = (target + reloc.addend) % span() % 0x1000;
            let insn = bytes::le32(s, at);
            let after = apply::relocated_once(t, thunks, atom, obj, reloc, s)->Ok_0;
            let made = bytes::le32(after, at);
            &&& changed_only(s, after, at, 4)
            &&& becomes_add(t, obj, reloc) ==> imm12(made) == low && made & 0xffc0_03ffu32
                == 0x9100_0000u32 | (insn & 0x3ff)
            &&& !becomes_add(t, obj, reloc) ==> made & !0x003f_fc00u32 == insn & !0x003f_fc00u32
            &&& !becomes_add(t, obj, reloc) && encode::add_immediate(insn) ==> imm12(made) == low
            &&& !becomes_add(t, obj, reloc) && !encode::add_immediate(insn) ==> imm12(made) * (1u64
                << encode::load_store_shift(insn)) == low
        }),
{
    let sum = ((target + reloc.addend) % span()) as u64;
    let site = site_of(&atom, &obj, reloc);
    lemma_offset_step(t, thunks, atom, obj, reloc, s, target);
    assert(target.wrapping_add_signed(reloc.addend) == sum);
    if becomes_add(t, obj, reloc) {
        lemma_add_patch(site, s, target, sum);
    } else {
        lemma_offset_patch(site, s, target, sum);
    }
}

proof fn lemma_offset_step(
    t: Targets,
    thunks: PlacedThunks,
    atom: Atom,
    obj: ObjectFile,
    reloc: Reloc,
    s: Seq<u8>,
    target: u64,
)
    requires
        reloc.kind == RelocKind::PageOff12 || reloc.kind == RelocKind::GotLoadPageOff12
            || reloc.kind == RelocKind::TlvpLoadPageOff12,
        page_goes_to(t, atom, obj, reloc, target),
        atom.input_offset <= reloc.offset,
        t.atom_addrs.contains_key(atom.id.0),
    ensures
        apply::relocated_once(t, thunks, atom, obj, reloc, s) == if becomes_add(t, obj, reloc) {
            patch::add_patch(site_of(&atom, &obj, reloc), s, target)
        } else {
            patch::pageoff12_patch(site_of(&atom, &obj, reloc), s, target)
        },
{
}

proof fn lemma_add_patch(site: Site, s: Seq<u8>, target: u64, sum: u64)
    requires
        target.wrapping_add_signed(site.reloc.addend) == sum,
        patch::add_patch(site, s, target) is Ok,
    ensures
        ({
            let at = site.local_offset as int;
            let after = patch::add_patch(site, s, target)->Ok_0;
            let made = bytes::le32(after, at);
            &&& changed_only(s, after, at, 4)
            &&& imm12(made) == sum % 0x1000
            &&& made & 0xffc0_03ffu32 == 0x9100_0000u32 | (bytes::le32(s, at) & 0x3ff)
        }),
{
    let at = site.local_offset as int;
    assert(sum & 0xfff == sum % 0x1000) by (bit_vector);
    lemma_imm12(bytes::le32(s, at), sum & 0xfff);
    lemma_store32(s, at, encode::add_for(bytes::le32(s, at), sum & 0xfff));
}

proof fn lemma_offset_patch(site: Site, s: Seq<u8>, target: u64, sum: u64)
    requires
        target.wrapping_add_signed(site.reloc.addend) == sum,
        patch::pageoff12_patch(site, s, target) is Ok,
    ensures
        ({
            let at = site.local_offset as int;
            let insn = bytes::le32(s, at);
            let after = patch::pageoff12_patch(site, s, target)->Ok_0;
            let made = bytes::le32(after, at);
            &&& changed_only(s, after, at, 4)
            &&& made & !0x003f_fc00u32 == insn & !0x003f_fc00u32
            &&& encode::add_immediate(insn) ==> imm12(made) == sum % 0x1000
            &&& !encode::add_immediate(insn) ==> imm12(made) * (1u64 << encode::load_store_shift(
                insn,
            )) == sum % 0x1000
        }),
{
    let at = site.local_offset as int;
    let insn = bytes::le32(s, at);
    let low = sum & 0xfff;
    assert(sum & 0xfff == sum % 0x1000) by (bit_vector);
    if encode::add_immediate(insn) {
        lemma_imm12(insn, low);
        lemma_store32(s, at, encode::with_imm12(insn, low));
    } else {
        let shift = encode::load_store_shift(insn);
        lemma_shift_small(insn);
        lemma_scaled(low, shift);
        lemma_imm12(insn, low >> shift);
        lemma_store32(s, at, encode::with_imm12(insn, low >> shift));
    }
}

proof fn lemma_shift_small(insn: u32)
    ensures
        encode::load_store_shift(insn) <= 4,
{
    assert(((insn >> 30) & 0b11) <= 3) by (bit_vector);
}

/// A load of an import's address goes through the import's slot of the pointer table; one
/// of a symbol that is defined here goes to the symbol, without a load.
pub proof fn law_got_load_target(
    t: Targets,
    sections: Seq<OutputSection>,
    atom: Atom,
    obj: ObjectFile,
    reloc: Reloc,
    h: u32,
    id: SymbolId,
    i: int,
    k: int,
)
    requires
        reloc.kind == RelocKind::GotLoadPage21 || reloc.kind == RelocKind::GotLoadPageOff12,
        reloc.referent is Symbol,
        names_slot(t.symbols, obj, reloc.referent->Symbol_0, h, id),
    ensures
        t.symbols.at(id) is DylibImport && t.got_addrs.contains_key(id.0) ==> page_goes_to(
            t,
            atom,
            obj,
            reloc,
            t.got_addrs[id.0],
        ) && !becomes_add(t, obj, reloc),
        t.symbols.at(id) is Defined && t.atom_addrs == maps::atom_addresses(sections)
            && places::stands_at(sections, i, k, t.symbols.at(id)->Defined_atom.0)
            ==> page_goes_to(
            t,
            atom,
            obj,
            reloc,
            ((places::final_address(sections, i, k) + t.symbols.at(id)->value) % span()) as u64,
        ) && (reloc.kind == RelocKind::GotLoadPageOff12 ==> becomes_add(t, obj, reloc)),
{
    lemma_names_slot(t.symbols, obj, reloc.referent->Symbol_0, h, id);
    if t.symbols.at(id) is Defined && t.atom_addrs == maps::atom_addresses(sections)
        && places::stands_at(sections, i, k, t.symbols.at(id)->Defined_atom.0) {
        law_defined_symbol_address(
            t,
            sections,
            obj,
            atom,
            reloc.kind,
            reloc.referent->Symbol_0,
            h,
            id,
            i,
            k,
        );
    }
}

/// A load of a thread-local variable goes through the import's thread pointer, or to the
/// variable that is defined here, without a load.
pub proof fn law_thread_local_target(
    t: Targets,
    sections: Seq<OutputSection>,
    atom: Atom,
    obj: ObjectFile,
    reloc: Reloc,
    h: u32,
    id: SymbolId,
    i: int,
    k: int,
)
    requires
        reloc.kind == RelocKind::TlvpLoadPage21 || reloc.kind == RelocKind::TlvpLoadPageOff12,
        reloc.referent is Symbol,
        names_slot(t.symbols, obj, reloc.referent->Symbol_0, h, id),
    ensures
        t.symbols.at(id) is DylibImport && t.thread_pointer_addrs.contains_key(id.0)
            ==> page_goes_to(t, atom, obj, reloc, t.thread_pointer_addrs[id.0]) && !becomes_add(
            t,
            obj,
            reloc,
        ),
        t.symbols.at(id) is Defined && t.atom_addrs == maps::atom_addresses(sections)
            && places::stands_at(sections, i, k, t.symbols.at(id)->Defined_atom.0)
            ==> page_goes_to(
            t,
            atom,
            obj,
            reloc,
            ((places::final_address(sections, i, k) + t.symbols.at(id)->value) % span()) as u64,
        ) && (reloc.kind == RelocKind::TlvpLoadPageOff12 ==> becomes_add(t, obj, reloc)),
{
    lemma_names_slot(t.symbols, obj, reloc.referent->Symbol_0, h, id);
    if t.symbols.at(id) is Defined && t.atom_addrs == maps::atom_addresses(sections)
        && places::stands_at(sections, i, k, t.symbols.at(id)->Defined_atom.0) {
        law_defined_symbol_address(
            t,
            sections,
            obj,
            atom,
            reloc.kind,
            reloc.referent->Symbol_0,
            h,
            id,
            i,
            k,
        );
    }
}

/// A pointer to a slot of the pointer table ends up as the slot's address plus the addend
/// plus what it held before.
#[verifier::rlimit(50)]
#[verifier::spinoff_prover]
pub proof fn law_pointer_to_slot_adds_up(
    t: Targets,
    thunks: PlacedThunks,
    atom: Atom,
    obj: ObjectFile,
    reloc: Reloc,
    s: Seq<u8>,
    h: u32,
    id: SymbolId,
)
    requires
        reloc.kind == RelocKind::PointerToGot,
        reloc.length == RelocLength::Quad,
        reloc.referent is Symbol,
        names_slot(t.symbols, obj, reloc.referent->Symbol_0, h, id),
        t.got_addrs.contains_key(id.0),
        has_room(t, atom, reloc, s, 8),
    ensures
        ({
            let at = reloc.offset - atom.input_offset;
            let r = apply::relocated_once(t, thunks, atom, obj, reloc, s);
            &&& r is Ok
            &&& bytes::le64(r->Ok_0, at) == (t.got_addrs[id.0] + reloc.addend + bytes::le64(s, at))
                % span()
            &&& changed_only(s, r->Ok_0, at, 8)
        }),
{
    lemma_names_slot(t.symbols, obj, reloc.referent->Symbol_0, h, id);
    let at = reloc.offset - atom.input_offset;
    let b = bytes::le64(s, at);
    let target = t.got_addrs[id.0];
    let v = target.wrapping_add_signed(reloc.addend).wrapping_add_signed(b as i64);
    let r = apply::relocated_once(t, thunks, atom, obj, reloc, s);
    assert(r == Ok::<Seq<u8>, RelocFault>(bytes::replaced(s, at, bytes::le64_bytes(v))));
    assert(v == (target + reloc.addend + b) % span()) by {
        lemma_pointer_value(target, reloc.addend, b);
    }
    lemma_store64(s, at, v);
}

/// The atom `a` was folded into `b`, or is `b` and was not folded.
pub open spec fn folded_into(redirects: Map<u32, u32>, a: u32, b: u32) -> bool {
    &&& redirects.dom().finite()
    &&& !redirects.contains_key(b)
    &&& a == b || (redirects.contains_key(a) && redirects[a] == b)
}

pub proof fn lemma_folded(redirects: Map<u32, u32>, a: u32, b: u32)
    requires
        folded_into(redirects, a, b),
    ensures
        targets::canonical(redirects, AtomId(a)) == AtomId(b),
{
    reveal_with_fuel(targets::redirected, 3);
    if a != b {
        assert(redirects.dom().contains(a));
        if redirects.dom().len() == 0 {
            redirects.dom().lemma_len0_is_empty();
            assert(false);
        }
    }
}

/// A branch goes to the stub of an import; to the atom that a defined symbol's own was
/// folded into, at the symbol's offset; and, in either case, by way of its thunk where
/// one was planned for it.
#[verifier::rlimit(50)]
#[verifier::spinoff_prover]
pub proof fn law_branch_destination(
    t: Targets,
    thunks: PlacedThunks,
    sections: Seq<OutputSection>,
    atom: Atom,
    obj: ObjectFile,
    reloc: Reloc,
    h: u32,
    id: SymbolId,
    b: u32,
    i: int,
    k: int,
)
    requires
        reloc.kind == RelocKind::Branch26,
        reloc.referent is Symbol,
        names_slot(t.symbols, obj, reloc.referent->Symbol_0, h, id),
        atom.input_offset <= reloc.offset,
    ensures
        ({
            let site = site_of(&atom, &obj, reloc);
            let r = apply::branch_destination(t, thunks, site);
            let branch = (atom.id.0 * 0x1_0000_0000 + (reloc.offset - atom.input_offset)) as u64;
            let direct = thunks.plan is None || !(thunks.plan->0).redirects.contains_key(branch);
            &&& direct && t.symbols.at(id) is DylibImport && t.stub_addrs.contains_key(id.0)
                ==> r == Ok::<u64, RelocFault>(t.stub_addrs[id.0])
            &&& direct && t.symbols.at(id) is Defined && folded_into(
                t.redirects,
                t.symbols.at(id)->Defined_atom.0,
                b,
            ) && t.atom_addrs == maps::atom_addresses(sections) && places::stands_at(
                sections,
                i,
                k,
                b,
            ) ==> r is Ok && r->Ok_0 == (places::final_address(sections, i, k) + t.symbols.at(
                id,
            )->value) % span()
            &&& !direct && thunks.addrs is Some && (thunks.plan->0).redirects[branch] < (
            thunks.addrs->0).len() && (thunks.addrs->0)[(thunks.plan->0).redirects[branch] as int]
                is Some ==> r == Ok::<u64, RelocFault>(
                (thunks.addrs->0)[(thunks.plan->0).redirects[branch] as int]->0,
            )
        }),
{
    lemma_names_slot(t.symbols, obj, reloc.referent->Symbol_0, h, id);
    let sym = t.symbols.at(id);
    if sym is Defined && folded_into(t.redirects, sym->Defined_atom.0, b) && places::stands_at(
        sections,
        i,
        k,
        b,
    ) {
        lemma_folded(t.redirects, sym->Defined_atom.0, b);
        places::law_atom_address(sections, i, k, b);
    }
}

} // verus!
