//! What relocations point at, once everything has its final address.
//!
//! Addresses are computed modulo 2^64.

use std::collections::HashMap;
use vstd::prelude::*;
use crate::atom;
use crate::atom::{key_of_section, Atom, AtomTable, SectionIndex};
use crate::input::ObjectFile;
use crate::reloc::arm64;
use crate::reloc::arm64::{
    describe_input_symbol, describe_referent, numbered, RelocError, RelocFault,
};
use crate::reloc::{Referent, Reloc, RelocKind};
use crate::resolve::names;
use crate::resolve::table;
use crate::resolve::{AtomId, InputId, Istr, Symbol, SymbolId, SymbolKindTag, SymbolTable};
use crate::symbol::{InputSymbol, SymKind};
use crate::text;

verus! {

broadcast use vstd::std_specs::hash::group_hash_axioms;

/// Everything that resolving a relocation looks at.
pub struct ResolveView<'a> {
    pub sym_table: &'a SymbolTable,
    pub atom_table: &'a AtomTable,
    pub atoms_by_input_section: &'a SectionIndex,
    /// Final address of each placed atom, by its id.
    pub atom_addrs: &'a HashMap<u32, u64>,
    /// Address of the output section that holds each input section.
    pub section_addrs: &'a HashMap<u64, u64>,
    pub stub_addrs: &'a HashMap<u32, u64>,
    pub got_addrs: &'a HashMap<u32, u64>,
    pub thread_pointer_addrs: &'a HashMap<u32, u64>,
    pub lazy_pointer_addrs: &'a HashMap<u32, u64>,
    pub stub_helper_entry_addrs: &'a HashMap<u32, u64>,
    pub stub_helper_header_addr: Option<u64>,
    pub dyld_private_addr: Option<u64>,
    /// Atoms that were folded into others.
    pub icf_redirects: Option<&'a HashMap<u32, u32>>,
}

/// Where following the redirections from `a` leads within `steps`.
pub open spec fn redirected(m: Map<u32, u32>, a: u32, steps: nat) -> u32
    decreases steps,
{
    if steps > 0 && m.contains_key(a) && m[a] != a {
        redirected(m, m[a], (steps - 1) as nat)
    } else {
        a
    }
}

/// Every atom is redirected to one that stays.
pub open spec fn redirections_end(m: Map<u32, u32>) -> bool {
    &&& m.dom().finite()
    &&& forall|a: u32|
        #![trigger redirected(m, a, m.dom().len())]
        ({
            let end = redirected(m, a, m.dom().len());
            !(m.contains_key(end) && m[end] != end)
        })
}

pub open spec fn redirect_map(redirects: Option<&HashMap<u32, u32>>) -> Map<u32, u32> {
    match redirects {
        Some(m) => m@,
        None => Map::empty(),
    }
}

/// The atom that stands for `atom`.
pub open spec fn canonical(m: Map<u32, u32>, atom: AtomId) -> AtomId {
    AtomId(redirected(m, atom.0, m.dom().len()))
}

pub fn canonical_atom(atom_id: AtomId, redirects: Option<&HashMap<u32, u32>>) -> (r: AtomId)
    requires
        redirections_end(redirect_map(redirects)),
    ensures
        r == canonical(redirect_map(redirects), atom_id),
{
    let redirects = match redirects {
        Some(redirects) => redirects,
        None => {
            return atom_id;
        },
    };
    let ghost m = redirects@;
    let ghost mut left: nat = m.dom().len();
    let mut current: u32 = atom_id.0;
    loop
        invariant
            m == redirects@,
            redirections_end(m),
            redirected(m, atom_id.0, m.dom().len()) == redirected(m, current, left),
        ensures
            redirected(m, atom_id.0, m.dom().len()) == current,
        decreases left,
    {
        let next: u32 = match redirects.get(&current) {
            Some(next) => *next,
            None => {
                break;
            },
        };
        if next == current {
            break;
        }
        proof {
            let end = redirected(m, atom_id.0, m.dom().len());
            assert(!(m.contains_key(end) && m[end] != end));
            assert(left > 0);
            left = (left - 1) as nat;
        }
        current = next;
    }
    AtomId(current)
}

/// A `ResolveView` with its tables as mathematical maps.
#[verifier::ext_equal]
pub struct Targets {
    pub symbols: table::TableState,
    pub atoms: Seq<Atom>,
    pub atom_addrs: Map<u32, u64>,
    pub section_addrs: Map<u64, u64>,
    pub stub_addrs: Map<u32, u64>,
    pub got_addrs: Map<u32, u64>,
    pub thread_pointer_addrs: Map<u32, u64>,
    pub lazy_pointer_addrs: Map<u32, u64>,
    pub stub_helper_entry_addrs: Map<u32, u64>,
    pub stub_helper_header_addr: Option<u64>,
    pub dyld_private_addr: Option<u64>,
    pub redirects: Map<u32, u32>,
}

impl Targets {
    pub open spec fn atom_addr(self, atom: AtomId) -> Option<u64> {
        lookup(self.atom_addrs, atom.0)
    }
}

impl<'a> View for ResolveView<'a> {
    type V = Targets;

    open spec fn view(&self) -> Targets {
        Targets {
            symbols: self.sym_table@,
            atoms: self.atom_table@,
            atom_addrs: self.atom_addrs@,
            section_addrs: self.section_addrs@,
            stub_addrs: self.stub_addrs@,
            got_addrs: self.got_addrs@,
            thread_pointer_addrs: self.thread_pointer_addrs@,
            lazy_pointer_addrs: self.lazy_pointer_addrs@,
            stub_helper_entry_addrs: self.stub_helper_entry_addrs@,
            stub_helper_header_addr: self.stub_helper_header_addr,
            dyld_private_addr: self.dyld_private_addr,
            redirects: redirect_map(self.icf_redirects),
        }
    }
}

impl<'a> ResolveView<'a> {
    pub open spec fn wf(self) -> bool {
        &&& self.sym_table.wf()
        &&& self.atom_table.wf()
        &&& self.atoms_by_input_section.lists(self.atom_table@)
        &&& redirections_end(redirect_map(self.icf_redirects))
    }
}

/// The value of `key`, if it has one.
pub open spec fn lookup<K, V>(m: Map<K, V>, key: K) -> Option<V> {
    if m.contains_key(key) {
        Some(m[key])
    } else {
        None
    }
}

pub(crate) fn find_addr(m: &HashMap<u32, u64>, key: u32) -> (r: Option<u64>)
    ensures
        r == lookup(m@, key),
{
    match m.get(&key) {
        Some(addr) => Some(*addr),
        None => None,
    }
}

pub(crate) fn find_section_addr(m: &HashMap<u64, u64>, origin: InputId, section: u8) -> (r: Option<
    u64,
>)
    ensures
        r == lookup(m@, atom::section_key(origin, section)),
{
    match m.get(&key_of_section(origin, section)) {
        Some(addr) => Some(*addr),
        None => None,
    }
}

/// The symbol that `name` stands for, aliases followed where they lead somewhere.
pub open spec fn named_symbol(t: table::TableState, name: Seq<char>) -> Option<SymbolId> {
    match names::place_of(t.names, name) {
        None => None,
        Some(i) => {
            let handle = Istr(i as u32);
            match t.slot(handle) {
                None => None,
                Some(id) => match t.chain(handle, handle, table::MAX_ALIAS_DEPTH as nat) {
                    Ok(end) => Some(end),
                    Err(_) => Some(id),
                },
            }
        },
    }
}

pub fn symbol_by_name(t: &SymbolTable, name: &str) -> (r: Option<SymbolId>)
    requires
        t.wf(),
    ensures
        r == named_symbol(t@, name@),
        r is Some ==> (r->0).0 < t@.symbols.len(),
{
    let handle = match t.interner_get(name) {
        Some(handle) => handle,
        None => {
            return None;
        },
    };
    let id = match t.lookup(handle) {
        Some(id) => id,
        None => {
            return None;
        },
    };
    assert(t@.by_name.contains_key(handle.0));
    match t.resolve_chain(handle) {
        Ok((end, _)) => Some(end),
        Err(_) => Some(id),
    }
}

/// The symbol that a relocation refers to by name.
pub open spec fn referent_symbol(obj: ObjectFile, referent: Referent, t: table::TableState) -> Option<
    SymbolId,
> {
    match referent {
        Referent::Section(_) => None,
        Referent::Symbol(i) => if i < obj.symbols@.len() {
            match obj.name_of(obj.symbols@[i as int]) {
                Ok(name) => named_symbol(t, name),
                Err(_) => None,
            }
        } else {
            None
        },
    }
}

pub fn symbol_referent_id(obj: &ObjectFile, referent: Referent, t: &SymbolTable) -> (r: Option<
    SymbolId,
>)
    requires
        t.wf(),
    ensures
        r == referent_symbol(*obj, referent, t@),
        r is Some ==> (r->0).0 < t@.symbols.len(),
{
    match referent {
        Referent::Section(_) => None,
        Referent::Symbol(i) => {
            if i as usize >= obj.symbols.len() {
                return None;
            }
            match obj.symbol_name(&obj.symbols[i as usize]) {
                Ok(name) => symbol_by_name(t, name),
                Err(_) => None,
            }
        },
    }
}

/// The symbol that a relocation refers to, if a dylib provides it.
pub open spec fn import_symbol(obj: ObjectFile, referent: Referent, t: table::TableState) -> Option<
    SymbolId,
> {
    match referent_symbol(obj, referent, t) {
        Some(id) => if t.at(id) is DylibImport {
            Some(id)
        } else {
            None
        },
        None => None,
    }
}

pub fn dylib_import_symbol_id(obj: &ObjectFile, referent: Referent, t: &SymbolTable) -> (r: Option<
    SymbolId,
>)
    requires
        t.wf(),
    ensures
        r == import_symbol(*obj, referent, t@),
{
    match symbol_referent_id(obj, referent, t) {
        Some(id) => {
            if matches!(t.get(id), Symbol::DylibImport { .. }) {
                Some(id)
            } else {
                None
            }
        },
        None => None,
    }
}

/// An error at a relocation of an atom.
pub open spec fn fault_at(
    atom: Atom,
    obj: ObjectFile,
    atom_offset: u32,
    kind: RelocKind,
    referent: Seq<char>,
    detail: Seq<char>,
) -> RelocFault {
    RelocFault { input: obj.path@, atom: atom.id, atom_offset, kind, referent, detail }
}

pub(crate) fn reloc_error(
    atom: &Atom,
    obj: &ObjectFile,
    atom_offset: u32,
    kind: RelocKind,
    referent: String,
    detail: &str,
) -> (r: RelocError)
    ensures
        r@ == fault_at(*atom, *obj, atom_offset, kind, referent@, detail@),
{
    RelocError {
        input: obj.path.clone(),
        atom: atom.id,
        atom_offset,
        kind,
        referent,
        detail: detail.to_owned(),
    }
}

/// Where in its section an atom ends.
pub open spec fn atom_end(a: Atom) -> u32 {
    a.input_offset.saturating_add(a.size)
}

/// The first of the atoms that covers `offset` or ends there, and how far into it
/// the offset is.
pub open spec fn covering(atoms: Seq<Atom>, ids: Seq<AtomId>, offset: u32) -> Option<(AtomId, u32)>
    decreases ids.len(),
{
    if ids.len() == 0 {
        None
    } else {
        let a = atoms[ids.first().0 - 1];
        if a.input_offset <= offset < atom_end(a) {
            Some((ids.first(), (offset - a.input_offset) as u32))
        } else if offset == atom_end(a) {
            Some((ids.first(), a.size))
        } else {
            covering(atoms, ids.drop_first(), offset)
        }
    }
}

/// Where an offset of an input section has ended up.
pub enum Place {
    At(u64),
    /// The atom that covers it has no address.
    AtomMissing,
    /// No atom covers it, and its section is not in the output.
    SectionMissing,
}

pub open spec fn place_of_offset(
    v: Targets,
    origin: InputId,
    input_section: u8,
    input_offset: u32,
) -> Place {
    let key = atom::section_key(origin, input_section);
    match covering(v.atoms, atom::section_atoms(v.atoms, key), input_offset) {
        Some((id, delta)) => match v.atom_addr(canonical(v.redirects, id)) {
            Some(addr) => Place::At(addr.wrapping_add(delta as u64)),
            None => Place::AtomMissing,
        },
        None => match lookup(v.section_addrs, key) {
            Some(addr) => Place::At(addr.wrapping_add(input_offset as u64)),
            None => Place::SectionMissing,
        },
    }
}

pub proof fn lemma_section_atoms_exist(atoms: Seq<Atom>, key: u64, k: int)
    requires
        atoms.len() < u32::MAX,
        forall|i: int| 0 <= i < atoms.len() ==> (#[trigger] atoms[i]).id == AtomId((i + 1) as u32),
        0 <= k < atom::section_atoms(atoms, key).len(),
    ensures
        1 <= atom::section_atoms(atoms, key)[k].0 <= atoms.len(),
    decreases atoms.len(),
{
    let rest = atoms.drop_last();
    assert forall|i: int| 0 <= i < rest.len() implies (#[trigger] rest[i]).id == AtomId(
        (i + 1) as u32,
    ) by {
        assert(rest[i] == atoms[i]);
    }
    assert(atoms.last() == atoms[atoms.len() - 1]);
    if k < atom::section_atoms(rest, key).len() {
        lemma_section_atoms_exist(rest, key, k);
    }
}

fn locate(v: &ResolveView<'_>, origin: InputId, input_section: u8, input_offset: u32) -> (r: Place)
    requires
        v.wf(),
    ensures
        r == place_of_offset(v@, origin, input_section, input_offset),
{
    let ghost key = atom::section_key(origin, input_section);
    let ghost ids_all = atom::section_atoms(v.atom_table@, key);
    if let Some(ids) = v.atoms_by_input_section.get(
        origin,
        input_section,
        Ghost(v.atom_table@),
    ) {
        let mut i: usize = 0;
        assert(ids_all.skip(0) =~= ids_all);
        while i < ids.len()
            invariant
                v.wf(),
                ids@ == ids_all,
                ids_all == atom::section_atoms(v.atom_table@, key),
                key == atom::section_key(origin, input_section),
                i <= ids@.len(),
                covering(v.atom_table@, ids_all, input_offset) == covering(
                    v.atom_table@,
                    ids_all.skip(i as int),
                    input_offset,
                ),
            decreases ids@.len() - i,
        {
            proof {
                lemma_section_atoms_exist(v.atom_table@, key, i as int);
                assert(ids_all.skip(i as int).first() == ids@[i as int]);
                assert(ids_all.skip(i as int).drop_first() =~= ids_all.skip(i + 1));
            }
            let id = ids[i];
            let candidate = v.atom_table.get(id);
            let start: u32 = candidate.input_offset;
            let end: u32 = candidate.input_offset.saturating_add(candidate.size);
            if start <= input_offset && input_offset < end {
                return match find_addr(
                    v.atom_addrs,
                    canonical_atom(id, v.icf_redirects).0,
                ) {
                    Some(addr) => Place::At(addr.wrapping_add((input_offset - start) as u64)),
                    None => Place::AtomMissing,
                };
            }
            if input_offset == end {
                return match find_addr(
                    v.atom_addrs,
                    canonical_atom(id, v.icf_redirects).0,
                ) {
                    Some(addr) => Place::At(addr.wrapping_add(candidate.size as u64)),
                    None => Place::AtomMissing,
                };
            }
            i += 1;
        }
        assert(ids_all.skip(i as int).len() == 0);
    }
    match find_section_addr(v.section_addrs, origin, input_section) {
        Some(addr) => Place::At(addr.wrapping_add(input_offset as u64)),
        None => Place::SectionMissing,
    }
}

/// The address of an offset of an input section, or the error of the relocation
/// that wants it.
pub open spec fn section_offset_target(
    v: Targets,
    origin: InputId,
    input_section: u8,
    input_offset: u32,
    atom: Atom,
    obj: ObjectFile,
    kind: RelocKind,
    referent: Seq<char>,
) -> Result<u64, RelocFault> {
    match place_of_offset(v, origin, input_section, input_offset) {
        Place::At(addr) => Ok(addr),
        Place::AtomMissing => Err(
            fault_at(
                atom,
                obj,
                0,
                kind,
                referent,
                "section-backed symbol's containing atom is missing a final address"@,
            ),
        ),
        Place::SectionMissing => Err(
            fault_at(
                atom,
                obj,
                0,
                kind,
                referent,
                "section-backed symbol's output section is missing"@,
            ),
        ),
    }
}

/// The relocation that asks for a target.
pub struct InputSectionResolveCtx<'a> {
    pub obj: &'a ObjectFile,
    pub atom: &'a Atom,
    pub kind: RelocKind,
}

pub fn resolve_input_section_offset(
    origin: InputId,
    input_section: u8,
    input_offset: u32,
    ctx: InputSectionResolveCtx<'_>,
    referent: String,
    v: &ResolveView<'_>,
) -> (r: Result<u64, RelocError>)
    requires
        v.wf(),
    ensures
        arm64::same_outcome(
            r,
            section_offset_target(
                v@,
                origin,
                input_section,
                input_offset,
                *ctx.atom,
                *ctx.obj,
                ctx.kind,
                referent@,
            ),
        ),
{
    match locate(v, origin, input_section, input_offset) {
        Place::At(addr) => Ok(addr),
        Place::AtomMissing => Err(
            reloc_error(
                ctx.atom,
                ctx.obj,
                0,
                ctx.kind,
                referent,
                "section-backed symbol's containing atom is missing a final address",
            ),
        ),
        Place::SectionMissing => Err(
            reloc_error(
                ctx.atom,
                ctx.obj,
                0,
                ctx.kind,
                referent,
                "section-backed symbol's output section is missing",
            ),
        ),
    }
}

/// The address of an offset of an input section, if it has one.
pub fn resolve_input_section_offset_simple(
    origin: InputId,
    input_section: u8,
    input_offset: u32,
    v: &ResolveView<'_>,
) -> (r: Option<u64>)
    requires
        v.wf(),
    ensures
        r == match place_of_offset(v@, origin, input_section, input_offset) {
            Place::At(addr) => Some(addr),
            _ => None,
        },
{
    match locate(v, origin, input_section, input_offset) {
        Place::At(addr) => Some(addr),
        _ => None,
    }
}

/// A tag's name.
pub open spec fn tag_name(tag: SymbolKindTag) -> Seq<char> {
    match tag {
        SymbolKindTag::Undefined => "Undefined"@,
        SymbolKindTag::Defined => "Defined"@,
        SymbolKindTag::Common => "Common"@,
        SymbolKindTag::DylibImport => "DylibImport"@,
        SymbolKindTag::LazyArchive => "LazyArchive"@,
        SymbolKindTag::LazyObject => "LazyObject"@,
        SymbolKindTag::Alias => "Alias"@,
    }
}

pub(crate) fn tag_str(tag: SymbolKindTag) -> (r: &'static str)
    ensures
        r@ == tag_name(tag),
{
    match tag {
        SymbolKindTag::Undefined => "Undefined",
        SymbolKindTag::Defined => "Defined",
        SymbolKindTag::Common => "Common",
        SymbolKindTag::DylibImport => "DylibImport",
        SymbolKindTag::LazyArchive => "LazyArchive",
        SymbolKindTag::LazyObject => "LazyObject",
        SymbolKindTag::Alias => "Alias",
    }
}

pub open spec fn unsupported_state(tag: SymbolKindTag) -> Seq<char> {
    "symbol resolved to unsupported state "@ + tag_name(tag)
}

pub(crate) fn unsupported_state_message(tag: SymbolKindTag) -> (r: String)
    ensures
        r@ == unsupported_state(tag),
{
    let mut s = "symbol resolved to unsupported state ".to_owned();
    s.append(tag_str(tag));
    s
}

/// The address of a symbol of the symbol table.
pub open spec fn global_target(
    v: Targets,
    atom: Atom,
    obj: ObjectFile,
    kind: RelocKind,
    name: Seq<char>,
    symbol: Symbol,
) -> Result<u64, RelocFault> {
    match symbol {
        Symbol::Defined { atom: target_atom, value, .. } => match v.atom_addr(target_atom) {
            Some(addr) => Ok(addr.wrapping_add(value)),
            None => Err(
                fault_at(atom, obj, 0, kind, name, "target atom missing final address"@),
            ),
        },
        Symbol::DylibImport { .. } => Err(
            fault_at(
                atom,
                obj,
                0,
                kind,
                name,
                "direct dylib import reference must use GOT/stub/TLV machinery or a bound pointer slot"@,
            ),
        ),
        other => Err(
            fault_at(atom, obj, 0, kind, name, unsupported_state(other.spec_kind())),
        ),
    }
}

pub fn resolve_global_symbol(
    obj: &ObjectFile,
    atom: &Atom,
    kind: RelocKind,
    name: &str,
    symbol: &Symbol,
    v: &ResolveView<'_>,
) -> (r: Result<u64, RelocError>)
    ensures
        arm64::same_outcome(r, global_target(v@, *atom, *obj, kind, name@, *symbol)),
{
    match symbol {
        Symbol::Defined { atom: target_atom, value, .. } => {
            match find_addr(v.atom_addrs, target_atom.0) {
                Some(addr) => Ok(addr.wrapping_add(*value)),
                None => Err(
                    reloc_error(
                        atom,
                        obj,
                        0,
                        kind,
                        name.to_owned(),
                        "target atom missing final address",
                    ),
                ),
            }
        },
        Symbol::DylibImport { .. } => Err(
            reloc_error(
                atom,
                obj,
                0,
                kind,
                name.to_owned(),
                "direct dylib import reference must use GOT/stub/TLV machinery or a bound pointer slot",
            ),
        ),
        other => Err(
            reloc_error(
                atom,
                obj,
                0,
                kind,
                name.to_owned(),
                unsupported_state_message(other.kind()).as_str(),
            ),
        ),
    }
}

/// How far into its section a symbol lies.
pub open spec fn section_relative(obj: ObjectFile, sym: InputSymbol) -> u64 {
    sym.raw.n_value.saturating_sub(obj.sections@[obj.section_index(sym)->0].addr)
}

/// The address of a symbol that only its object file knows.
pub open spec fn input_symbol_target(
    v: Targets,
    origin: InputId,
    obj: ObjectFile,
    atom: Atom,
    kind: RelocKind,
    sym: InputSymbol,
) -> Result<u64, RelocFault> {
    let who = arm64::symbol_text(obj, sym);
    match sym.spec_kind() {
        SymKind::Abs => Ok(sym.raw.n_value),
        SymKind::Sect => if obj.section_index(sym) is Some {
            section_offset_target(
                v,
                origin,
                sym.raw.n_sect,
                section_relative(obj, sym) as u32,
                atom,
                obj,
                kind,
                who,
            )
        } else {
            Err(
                fault_at(
                    atom,
                    obj,
                    0,
                    kind,
                    who,
                    "section-backed symbol did not resolve to an input section"@,
                ),
            )
        },
        SymKind::Undef => Err(
            fault_at(atom, obj, 0, kind, who, "symbol remained undefined at relocation time"@),
        ),
        SymKind::Indirect => Err(
            fault_at(
                atom,
                obj,
                0,
                kind,
                who,
                "indirect symbol relocations are not yet implemented"@,
            ),
        ),
    }
}

pub fn resolve_input_symbol_at_origin(
    origin: InputId,
    obj: &ObjectFile,
    atom: &Atom,
    kind: RelocKind,
    input_sym: &InputSymbol,
    v: &ResolveView<'_>,
) -> (r: Result<u64, RelocError>)
    requires
        v.wf(),
    ensures
        arm64::same_outcome(r, input_symbol_target(v@, origin, *obj, *atom, kind, *input_sym)),
{
    let who = describe_input_symbol(obj, input_sym);
    match input_sym.kind() {
        SymKind::Abs => Ok(input_sym.value()),
        SymKind::Sect => {
            let section = match obj.section_for_symbol(input_sym) {
                Some(section) => section,
                None => {
                    return Err(
                        reloc_error(
                            atom,
                            obj,
                            0,
                            kind,
                            who,
                            "section-backed symbol did not resolve to an input section",
                        ),
                    );
                },
            };
            let section_offset: u32 = input_sym.value().saturating_sub(section.addr) as u32;
            resolve_input_section_offset(
                origin,
                input_sym.sect_idx(),
                section_offset,
                InputSectionResolveCtx { obj, atom, kind },
                who,
                v,
            )
        },
        SymKind::Undef => Err(
            reloc_error(
                atom,
                obj,
                0,
                kind,
                who,
                "symbol remained undefined at relocation time",
            ),
        ),
        SymKind::Indirect => Err(
            reloc_error(
                atom,
                obj,
                0,
                kind,
                who,
                "indirect symbol relocations are not yet implemented",
            ),
        ),
    }
}

/// The address of what a relocation refers to.
pub open spec fn referent_target(
    v: Targets,
    obj: ObjectFile,
    atom: Atom,
    kind: RelocKind,
    referent: Referent,
) -> Result<u64, RelocFault> {
    match referent {
        Referent::Section(idx) => match lookup(
            v.section_addrs,
            atom::section_key(atom.origin, idx),
        ) {
            Some(addr) => Ok(addr),
            None => Err(
                fault_at(
                    atom,
                    obj,
                    0,
                    kind,
                    "section #"@ + text::dec(idx as nat),
                    "referenced input section was not laid out"@,
                ),
            ),
        },
        Referent::Symbol(idx) => symbol_target(v, obj, atom, kind, idx),
    }
}

/// The address of the symbol with this index in the object's table: by name where
/// the symbol table knows the name, else by what the object says.
pub open spec fn symbol_target(
    v: Targets,
    obj: ObjectFile,
    atom: Atom,
    kind: RelocKind,
    idx: u32,
) -> Result<u64, RelocFault> {
    if idx >= obj.symbols@.len() {
        Err(
            fault_at(
                atom,
                obj,
                0,
                kind,
                "symbol #"@ + text::dec(idx as nat),
                "symbol index is out of range"@,
            ),
        )
    } else {
        let sym = obj.symbols@[idx as int];
        match referent_symbol(obj, Referent::Symbol(idx), v.symbols) {
            Some(id) => global_target(
                v,
                atom,
                obj,
                kind,
                obj.name_of(sym)->Ok_0,
                v.symbols.at(id),
            ),
            None => input_symbol_target(v, atom.origin, obj, atom, kind, sym),
        }
    }
}

pub fn resolve_symbol_referent(
    obj: &ObjectFile,
    atom: &Atom,
    kind: RelocKind,
    idx: u32,
    v: &ResolveView<'_>,
) -> (r: Result<u64, RelocError>)
    requires
        v.wf(),
    ensures
        arm64::same_outcome(r, symbol_target(v@, *obj, *atom, kind, idx)),
{
    if idx as usize >= obj.symbols.len() {
        return Err(
            reloc_error(
                atom,
                obj,
                0,
                kind,
                numbered("symbol #", idx as u64),
                "symbol index is out of range",
            ),
        );
    }
    let input_sym = &obj.symbols[idx as usize];
    if let Ok(name) = obj.symbol_name(input_sym) {
        if let Some(id) = symbol_by_name(v.sym_table, name) {
            return resolve_global_symbol(obj, atom, kind, name, v.sym_table.get(id), v);
        }
    }
    resolve_input_symbol_at_origin(atom.origin, obj, atom, kind, input_sym, v)
}

pub fn resolve_referent(
    obj: &ObjectFile,
    atom: &Atom,
    kind: RelocKind,
    referent: Referent,
    v: &ResolveView<'_>,
) -> (r: Result<u64, RelocError>)
    requires
        v.wf(),
    ensures
        arm64::same_outcome(r, referent_target(v@, *obj, *atom, kind, referent)),
{
    match referent {
        Referent::Section(idx) => {
            match find_section_addr(v.section_addrs, atom.origin, idx) {
                Some(addr) => Ok(addr),
                None => Err(
                    reloc_error(
                        atom,
                        obj,
                        0,
                        kind,
                        numbered("section #", idx as u64),
                        "referenced input section was not laid out",
                    ),
                ),
            }
        },
        Referent::Symbol(idx) => resolve_symbol_referent(obj, atom, kind, idx, v),
    }
}

/// Where in its atom a relocation lies.
pub open spec fn offset_in_atom(reloc: Reloc, atom: Atom) -> u32 {
    reloc.offset.saturating_sub(atom.input_offset)
}

/// An error at the relocation itself.
pub open spec fn fault_here(atom: Atom, obj: ObjectFile, reloc: Reloc, detail: Seq<char>) -> RelocFault {
    fault_at(
        atom,
        obj,
        offset_in_atom(reloc, atom),
        reloc.kind,
        arm64::referent_text(obj, reloc.referent),
        detail,
    )
}

pub(crate) fn error_here(atom: &Atom, obj: &ObjectFile, reloc: Reloc, detail: &str) -> (r: RelocError)
    ensures
        r@ == fault_here(*atom, *obj, reloc, detail@),
{
    reloc_error(
        atom,
        obj,
        reloc.offset.saturating_sub(atom.input_offset),
        reloc.kind,
        describe_referent(obj, reloc.referent),
        detail,
    )
}

/// The address of the pointer-table slot of what a relocation refers to.
pub open spec fn got_target(v: Targets, obj: ObjectFile, atom: Atom, reloc: Reloc) -> Result<
    u64,
    RelocFault,
> {
    match referent_symbol(obj, reloc.referent, v.symbols) {
        None => Err(fault_here(atom, obj, reloc, "GOT relocations require a symbol target"@)),
        Some(id) => match lookup(v.got_addrs, id.0) {
            Some(addr) => Ok(addr),
            None => Err(fault_here(atom, obj, reloc, "symbol is missing synthetic GOT slot"@)),
        },
    }
}

pub fn resolve_got_target(obj: &ObjectFile, atom: &Atom, reloc: Reloc, v: &ResolveView<'_>) -> (r:
    Result<u64, RelocError>)
    requires
        v.wf(),
    ensures
        arm64::same_outcome(r, got_target(v@, *obj, *atom, reloc)),
{
    let id = match symbol_referent_id(obj, reloc.referent, v.sym_table) {
        Some(id) => id,
        None => {
            return Err(error_here(atom, obj, reloc, "GOT relocations require a symbol target"));
        },
    };
    match find_addr(v.got_addrs, id.0) {
        Some(addr) => Ok(addr),
        None => Err(error_here(atom, obj, reloc, "symbol is missing synthetic GOT slot")),
    }
}

/// A load through the pointer table can go to the target itself.
pub open spec fn relaxes_locally(v: Targets, obj: ObjectFile, reloc: Reloc) -> bool {
    match referent_symbol(obj, reloc.referent, v.symbols) {
        Some(id) => !(v.symbols.at(id) is DylibImport),
        None => true,
    }
}

pub fn got_reloc_relaxes_locally(obj: &ObjectFile, reloc: Reloc, v: &ResolveView<'_>) -> (r: bool)
    requires
        v.wf(),
    ensures
        r == relaxes_locally(v@, *obj, reloc),
{
    match symbol_referent_id(obj, reloc.referent, v.sym_table) {
        Some(id) => !matches!(v.sym_table.get(id), Symbol::DylibImport { .. }),
        None => true,
    }
}

/// The address that a thread-local load goes to: the import's slot, or the
/// variable itself.
pub open spec fn tlvp_target(v: Targets, obj: ObjectFile, atom: Atom, reloc: Reloc) -> Result<
    u64,
    RelocFault,
> {
    match import_symbol(obj, reloc.referent, v.symbols) {
        Some(id) => match lookup(v.thread_pointer_addrs, id.0) {
            Some(addr) => Ok(addr),
            None => Err(
                fault_here(
                    atom,
                    obj,
                    reloc,
                    "dylib import is missing synthetic thread-pointer slot"@,
                ),
            ),
        },
        None => referent_target(v, obj, atom, reloc.kind, reloc.referent),
    }
}

pub fn resolve_tlvp_target(obj: &ObjectFile, atom: &Atom, reloc: Reloc, v: &ResolveView<'_>) -> (r:
    Result<u64, RelocError>)
    requires
        v.wf(),
    ensures
        arm64::same_outcome(r, tlvp_target(v@, *obj, *atom, reloc)),
{
    if let Some(id) = dylib_import_symbol_id(obj, reloc.referent, v.sym_table) {
        return match find_addr(v.thread_pointer_addrs, id.0) {
            Some(addr) => Ok(addr),
            None => Err(
                error_here(
                    atom,
                    obj,
                    reloc,
                    "dylib import is missing synthetic thread-pointer slot",
                ),
            ),
        };
    }
    resolve_referent(obj, atom, reloc.kind, reloc.referent, v)
}

/// What a branch goes to, before it has an address.
#[derive(Debug, Clone, Copy, PartialEq, Eq, Structural)]
pub enum BranchTargetKey {
    Symbol(SymbolId),
    Stub(SymbolId),
    InputSectionOffset { origin: InputId, input_section: u8, input_offset: u32 },
}

pub open spec fn branch_key(v: Targets, obj: ObjectFile, atom: Atom, reloc: Reloc) -> Result<
    BranchTargetKey,
    RelocFault,
> {
    match import_symbol(obj, reloc.referent, v.symbols) {
        Some(id) => Ok(BranchTargetKey::Stub(id)),
        None => match reloc.referent {
            Referent::Section(idx) => Ok(
                BranchTargetKey::InputSectionOffset {
                    origin: atom.origin,
                    input_section: idx,
                    input_offset: 0,
                },
            ),
            Referent::Symbol(idx) => if idx >= obj.symbols@.len() {
                Err(
                    fault_at(
                        atom,
                        obj,
                        0,
                        reloc.kind,
                        "symbol #"@ + text::dec(idx as nat),
                        "symbol index is out of range"@,
                    ),
                )
            } else {
                match referent_symbol(obj, reloc.referent, v.symbols) {
                    Some(id) => Ok(BranchTargetKey::Symbol(id)),
                    None => local_branch_key(obj, atom, reloc.kind, obj.symbols@[idx as int]),
                }
            },
        },
    }
}

/// What a branch to a symbol goes to that the symbol table does not know.
pub open spec fn local_branch_key(obj: ObjectFile, atom: Atom, kind: RelocKind, sym: InputSymbol) -> Result<
    BranchTargetKey,
    RelocFault,
> {
    let who = arm64::symbol_text(obj, sym);
    match sym.spec_kind() {
        SymKind::Sect => if obj.section_index(sym) is Some {
            Ok(
                BranchTargetKey::InputSectionOffset {
                    origin: atom.origin,
                    input_section: sym.raw.n_sect,
                    input_offset: section_relative(obj, sym) as u32,
                },
            )
        } else {
            Err(
                fault_at(
                    atom,
                    obj,
                    0,
                    kind,
                    who,
                    "section-backed symbol did not resolve to an input section"@,
                ),
            )
        },
        SymKind::Abs => Err(
            fault_at(atom, obj, 0, kind, who, "absolute BRANCH26 targets are not supported"@),
        ),
        SymKind::Undef => Err(
            fault_at(atom, obj, 0, kind, who, "symbol remained undefined at relocation time"@),
        ),
        SymKind::Indirect => Err(
            fault_at(atom, obj, 0, kind, who, "indirect BRANCH26 targets are not yet supported"@),
        ),
    }
}

pub fn resolve_branch_target_key(
    obj: &ObjectFile,
    atom: &Atom,
    reloc: Reloc,
    v: &ResolveView<'_>,
) -> (r: Result<BranchTargetKey, RelocError>)
    requires
        v.wf(),
    ensures
        arm64::same_outcome(r, branch_key(v@, *obj, *atom, reloc)),
        r matches Ok(BranchTargetKey::Symbol(id)) ==> id.0 < v.sym_table@.symbols.len(),
{
    if let Some(id) = dylib_import_symbol_id(obj, reloc.referent, v.sym_table) {
        return Ok(BranchTargetKey::Stub(id));
    }
    match reloc.referent {
        Referent::Section(idx) => Ok(
            BranchTargetKey::InputSectionOffset {
                origin: atom.origin,
                input_section: idx,
                input_offset: 0,
            },
        ),
        Referent::Symbol(idx) => {
            if idx as usize >= obj.symbols.len() {
                return Err(
                    reloc_error(
                        atom,
                        obj,
                        0,
                        reloc.kind,
                        numbered("symbol #", idx as u64),
                        "symbol index is out of range",
                    ),
                );
            }
            if let Some(id) = symbol_referent_id(obj, reloc.referent, v.sym_table) {
                return Ok(BranchTargetKey::Symbol(id));
            }
            local_branch_target(obj, atom, reloc.kind, &obj.symbols[idx as usize])
        },
    }
}

fn local_branch_target(obj: &ObjectFile, atom: &Atom, kind: RelocKind, input_sym: &InputSymbol) -> (r:
    Result<BranchTargetKey, RelocError>)
    ensures
        arm64::same_outcome(r, local_branch_key(*obj, *atom, kind, *input_sym)),
        r is Ok ==> r->Ok_0 is InputSectionOffset,
{
    let who = describe_input_symbol(obj, input_sym);
    match input_sym.kind() {
        SymKind::Sect => {
            match obj.section_for_symbol(input_sym) {
                Some(section) => Ok(
                    BranchTargetKey::InputSectionOffset {
                        origin: atom.origin,
                        input_section: input_sym.sect_idx(),
                        input_offset: input_sym.value().saturating_sub(section.addr) as u32,
                    },
                ),
                None => Err(
                    reloc_error(
                        atom,
                        obj,
                        0,
                        kind,
                        who,
                        "section-backed symbol did not resolve to an input section",
                    ),
                ),
            }
        },
        SymKind::Abs => Err(
            reloc_error(atom, obj, 0, kind, who, "absolute BRANCH26 targets are not supported"),
        ),
        SymKind::Undef => Err(
            reloc_error(atom, obj, 0, kind, who, "symbol remained undefined at relocation time"),
        ),
        SymKind::Indirect => Err(
            reloc_error(
                atom,
                obj,
                0,
                kind,
                who,
                "indirect BRANCH26 targets are not yet supported",
            ),
        ),
    }
}

/// The address of a symbol that a branch goes to.
pub open spec fn branch_symbol_target(
    v: Targets,
    obj: ObjectFile,
    atom: Atom,
    reloc: Reloc,
    id: SymbolId,
) -> Result<u64, RelocFault> {
    match v.symbols.at(id) {
        Symbol::Defined { atom: target_atom, value, .. } => match v.atom_addr(
            canonical(v.redirects, target_atom),
        ) {
            Some(addr) => Ok(addr.wrapping_add(value)),
            None => Err(fault_here(atom, obj, reloc, "target atom missing final address"@)),
        },
        Symbol::DylibImport { .. } => Err(
            fault_here(atom, obj, reloc, "dylib import is missing synthetic stub"@),
        ),
        other => Err(fault_here(atom, obj, reloc, unsupported_state(other.spec_kind()))),
    }
}

/// The address of what a branch goes to.
pub open spec fn branch_key_target(
    v: Targets,
    obj: ObjectFile,
    atom: Atom,
    reloc: Reloc,
    key: BranchTargetKey,
) -> Result<u64, RelocFault> {
    match key {
        BranchTargetKey::Symbol(id) => branch_symbol_target(v, obj, atom, reloc, id),
        BranchTargetKey::Stub(id) => match lookup(v.stub_addrs, id.0) {
            Some(addr) => Ok(addr),
            None => Err(fault_here(atom, obj, reloc, "dylib import is missing synthetic stub"@)),
        },
        BranchTargetKey::InputSectionOffset { origin, input_section, input_offset } =>
            section_offset_target(
            v,
            origin,
            input_section,
            input_offset,
            atom,
            obj,
            reloc.kind,
            arm64::referent_text(obj, reloc.referent),
        ),
    }
}

pub fn resolve_branch_target_from_key(
    obj: &ObjectFile,
    atom: &Atom,
    reloc: Reloc,
    key: BranchTargetKey,
    v: &ResolveView<'_>,
) -> (r: Result<u64, RelocError>)
    requires
        v.wf(),
        key matches BranchTargetKey::Symbol(id) ==> id.0 < v.sym_table@.symbols.len(),
    ensures
        arm64::same_outcome(r, branch_key_target(v@, *obj, *atom, reloc, key)),
{
    match key {
        BranchTargetKey::Symbol(id) => {
            match v.sym_table.get(id) {
                Symbol::Defined { atom: target_atom, value, .. } => {
                    match find_addr(
                        v.atom_addrs,
                        canonical_atom(*target_atom, v.icf_redirects).0,
                    ) {
                        Some(addr) => Ok(addr.wrapping_add(*value)),
                        None => Err(
                            error_here(atom, obj, reloc, "target atom missing final address"),
                        ),
                    }
                },
                Symbol::DylibImport { .. } => Err(
                    error_here(atom, obj, reloc, "dylib import is missing synthetic stub"),
                ),
                other => Err(
                    error_here(
                        atom,
                        obj,
                        reloc,
                        unsupported_state_message(other.kind()).as_str(),
                    ),
                ),
            }
        },
        BranchTargetKey::Stub(id) => {
            match find_addr(v.stub_addrs, id.0) {
                Some(addr) => Ok(addr),
                None => Err(
                    error_here(atom, obj, reloc, "dylib import is missing synthetic stub"),
                ),
            }
        },
        BranchTargetKey::InputSectionOffset { origin, input_section, input_offset } =>
            resolve_input_section_offset(
            origin,
            input_section,
            input_offset,
            InputSectionResolveCtx { obj, atom, kind: reloc.kind },
            describe_referent(obj, reloc.referent),
            v,
        ),
    }
}

/// The address that a branch goes to.
pub open spec fn branch_target(v: Targets, obj: ObjectFile, atom: Atom, reloc: Reloc) -> Result<
    u64,
    RelocFault,
> {
    match branch_key(v, obj, atom, reloc) {
        Ok(key) => branch_key_target(v, obj, atom, reloc, key),
        Err(e) => Err(e),
    }
}

pub fn resolve_branch_target(obj: &ObjectFile, atom: &Atom, reloc: Reloc, v: &ResolveView<'_>) -> (r:
    Result<u64, RelocError>)
    requires
        v.wf(),
    ensures
        arm64::same_outcome(r, branch_target(v@, *obj, *atom, reloc)),
{
    let key = resolve_branch_target_key(obj, atom, reloc, v)?;
    resolve_branch_target_from_key(obj, atom, reloc, key, v)
}

} // verus!
