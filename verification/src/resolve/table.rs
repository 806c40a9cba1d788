//! The symbol table and its insertion matrix.

use std::collections::HashMap;
use vstd::prelude::*;
use crate::resolve::names;
use crate::resolve::names::{
    ArchiveId, AtomId, DylibId, InputId, Istr, MemberId, StringInterner, SymbolId,
};

verus! {

broadcast use vstd::std_specs::hash::group_hash_axioms;

/// Every state a name can be in during resolution.
#[derive(Debug, Clone, Copy, PartialEq, Eq, Structural)]
pub enum Symbol {
    /// Referenced but not yet satisfied.
    Undefined { name: Istr, origin: InputId, weak_ref: bool },
    /// An object file provides a body at `atom + value`.
    Defined {
        name: Istr,
        origin: InputId,
        atom: AtomId,
        value: u64,
        weak: bool,
        private_extern: bool,
        no_dead_strip: bool,
    },
    /// Tentative definition; the largest and strictest one wins.
    Common { name: Istr, origin: InputId, size: u64, align_pow2: u8 },
    /// Provided by a dylib.
    DylibImport { name: Istr, dylib: DylibId, ordinal: u16, weak_import: bool },
    /// Provided by an archive member that was not fetched yet.
    LazyArchive { name: Istr, archive: ArchiveId, member: MemberId },
    /// Provided by an object that was not loaded yet.
    LazyObject { name: Istr, origin: InputId },
    /// Another name for `aliased`.
    Alias { name: Istr, aliased: Istr },
}

#[derive(Debug, Clone, Copy, PartialEq, Eq, Hash, Structural)]
pub enum SymbolKindTag {
    Undefined,
    Defined,
    Common,
    DylibImport,
    LazyArchive,
    LazyObject,
    Alias,
}

impl Symbol {
    pub open spec fn spec_name(self) -> Istr {
        match self {
            Symbol::Undefined { name, .. } => name,
            Symbol::Defined { name, .. } => name,
            Symbol::Common { name, .. } => name,
            Symbol::DylibImport { name, .. } => name,
            Symbol::LazyArchive { name, .. } => name,
            Symbol::LazyObject { name, .. } => name,
            Symbol::Alias { name, .. } => name,
        }
    }

    pub fn name(&self) -> (r: Istr)
        ensures
            r == self.spec_name(),
    {
        match self {
            Symbol::Undefined { name, .. } => *name,
            Symbol::Defined { name, .. } => *name,
            Symbol::Common { name, .. } => *name,
            Symbol::DylibImport { name, .. } => *name,
            Symbol::LazyArchive { name, .. } => *name,
            Symbol::LazyObject { name, .. } => *name,
            Symbol::Alias { name, .. } => *name,
        }
    }

    pub open spec fn spec_kind(self) -> SymbolKindTag {
        match self {
            Symbol::Undefined { .. } => SymbolKindTag::Undefined,
            Symbol::Defined { .. } => SymbolKindTag::Defined,
            Symbol::Common { .. } => SymbolKindTag::Common,
            Symbol::DylibImport { .. } => SymbolKindTag::DylibImport,
            Symbol::LazyArchive { .. } => SymbolKindTag::LazyArchive,
            Symbol::LazyObject { .. } => SymbolKindTag::LazyObject,
            Symbol::Alias { .. } => SymbolKindTag::Alias,
        }
    }

    pub fn kind(&self) -> (r: SymbolKindTag)
        ensures
            r == self.spec_kind(),
    {
        match self {
            Symbol::Undefined { .. } => SymbolKindTag::Undefined,
            Symbol::Defined { .. } => SymbolKindTag::Defined,
            Symbol::Common { .. } => SymbolKindTag::Common,
            Symbol::DylibImport { .. } => SymbolKindTag::DylibImport,
            Symbol::LazyArchive { .. } => SymbolKindTag::LazyArchive,
            Symbol::LazyObject { .. } => SymbolKindTag::LazyObject,
            Symbol::Alias { .. } => SymbolKindTag::Alias,
        }
    }

    pub open spec fn strong(self) -> bool {
        self is Defined && !self->Defined_weak
    }

    /// True for `Defined` without the weak flag, the only symbols of which two
    /// are an error.
    pub fn is_strong_defined(&self) -> (r: bool)
        ensures
            r == self.strong(),
    {
        matches!(self, Symbol::Defined { weak: false, .. })
    }

    pub fn is_weak_defined(&self) -> (r: bool)
        ensures
            r == (self is Defined && self->Defined_weak),
    {
        matches!(self, Symbol::Defined { weak: true, .. })
    }
}

/// What `SymbolTable::insert` did with the incoming symbol.
#[derive(Debug, Clone, Copy, PartialEq, Eq, Structural)]
pub enum InsertOutcome {
    /// First time this name appeared; the new symbol is now at the id.
    Inserted(SymbolId),
    /// A stronger or more concrete symbol replaced the existing entry.
    Replaced { id: SymbolId, from: SymbolKindTag, to: SymbolKindTag },
    /// The existing entry wins; the new one was dropped.
    Kept(SymbolId),
    /// Two tentative definitions were merged into one.
    CommonCoalesced { id: SymbolId },
    /// The name is wanted and an archive member has it: the caller must fetch
    /// the member. The entry stays in place.
    PendingArchiveFetch { id: SymbolId, archive: ArchiveId, member: MemberId },
    /// The name is wanted and an object that was not loaded yet has it.
    PendingObjectLoad { id: SymbolId, origin: InputId },
}

#[derive(Debug, Clone, PartialEq, Eq)]
#[allow(inconsistent_fields)]
pub enum InsertError {
    /// Two strong definitions of one name.
    DuplicateStrong { name: Istr, first: SymbolId, second: Box<Symbol> },
    /// The alias would lead back to itself, or through too many others.
    AliasCycle { name: Istr },
}

#[derive(Debug, Clone, Copy, PartialEq, Eq, Structural)]
pub enum ResolveError {
    /// The name that is not in the table: the one asked for, or one that an alias
    /// leads to.
    Unknown(Istr),
    /// The aliases lead in a circle, or through `MAX_ALIAS_DEPTH` names.
    AliasCycle { start: Istr },
}

/// How many names an alias may lead through before it counts as a circle.
pub const MAX_ALIAS_DEPTH: usize = 32;

#[derive(Debug, Clone, Copy, PartialEq, Eq, Structural)]
pub struct Transition {
    pub id: SymbolId,
    pub from: SymbolKindTag,
    pub to: SymbolKindTag,
    pub cause: TransitionCause,
}

#[derive(Debug, Clone, Copy, PartialEq, Eq, Structural)]
pub enum TransitionCause {
    Inserted,
    Replaced,
    CommonCoalesced,
}

/// The state of a symbol table.
#[verifier::ext_equal]
pub struct TableState {
    /// Interned names, in the order of their handles.
    pub names: Seq<Seq<char>>,
    /// One slot per name that was inserted.
    pub symbols: Seq<Symbol>,
    /// The slot of each name, by the name's handle.
    pub by_name: Map<u32, SymbolId>,
    /// What happened, in order.
    pub transitions: Seq<Transition>,
}

/// What the matrix decides for a new symbol whose name is taken.
pub enum Action {
    Keep,
    Replace,
    CoalesceCommon,
    PendingArchiveFetch,
    PendingObjectLoad,
    Duplicate,
}

/// The matrix: `existing` holds the slot, `new` is no alias and wants it.
pub open spec fn verdict(existing: Symbol, new: Symbol) -> Action {
    match existing {
        Symbol::Undefined { .. } => if new is Undefined {
            Action::Keep
        } else {
            Action::Replace
        },
        Symbol::Defined { .. } => if new.strong() && existing.strong() {
            Action::Duplicate
        } else if new.strong() {
            Action::Replace
        } else {
            Action::Keep
        },
        Symbol::Common { .. } => if new is Defined {
            Action::Replace
        } else if new is Common {
            Action::CoalesceCommon
        } else {
            Action::Keep
        },
        Symbol::DylibImport { .. } => if new is Defined {
            Action::Replace
        } else {
            Action::Keep
        },
        Symbol::LazyArchive { .. } => if new is Undefined {
            Action::PendingArchiveFetch
        } else if new is LazyArchive {
            Action::Keep
        } else {
            Action::Replace
        },
        Symbol::LazyObject { .. } => if new is Undefined {
            Action::PendingObjectLoad
        } else if new is LazyObject {
            Action::Keep
        } else {
            Action::Replace
        },
        Symbol::Alias { .. } => Action::Replace,
    }
}

pub open spec fn max_u64(a: u64, b: u64) -> u64 {
    if a < b {
        b
    } else {
        a
    }
}

pub open spec fn max_u8(a: u8, b: u8) -> u8 {
    if a < b {
        b
    } else {
        a
    }
}

/// Two tentative definitions as one: the larger size, the stricter alignment,
/// and the rest as the first has it.
pub open spec fn coalesced(a: Symbol, b: Symbol) -> Symbol {
    Symbol::Common {
        name: a.spec_name(),
        origin: a->Common_origin,
        size: max_u64(a->Common_size, b->Common_size),
        align_pow2: max_u8(a->Common_align_pow2, b->Common_align_pow2),
    }
}

impl TableState {
    pub open spec fn empty() -> TableState {
        TableState {
            names: seq![],
            symbols: seq![],
            by_name: Map::empty(),
            transitions: seq![],
        }
    }

    /// Every slot that a name leads to exists.
    pub open spec fn wf(self) -> bool {
        forall|n: u32| #[trigger]
            self.by_name.contains_key(n) ==> self.by_name[n].0 < self.symbols.len()
    }

    /// The slot that `name` leads to.
    pub open spec fn slot(self, name: Istr) -> Option<SymbolId> {
        if self.by_name.contains_key(name.0) {
            Some(self.by_name[name.0])
        } else {
            None
        }
    }

    pub open spec fn at(self, id: SymbolId) -> Symbol {
        self.symbols[id.0 as int]
    }

    /// The state with another symbol in a slot, and the change noted down.
    pub open spec fn with(self, id: SymbolId, sym: Symbol, cause: TransitionCause) -> TableState {
        TableState {
            symbols: self.symbols.update(id.0 as int, sym),
            transitions: self.transitions.push(
                Transition {
                    id,
                    from: self.at(id).spec_kind(),
                    to: sym.spec_kind(),
                    cause,
                },
            ),
            ..self
        }
    }

    /// Following aliases from `current` meets `wanted` within `steps` names, or
    /// is not done after them.
    pub open spec fn leads_to(self, current: Istr, wanted: Istr, steps: nat) -> bool
        decreases steps,
    {
        if steps == 0 {
            true
        } else if current == wanted {
            true
        } else {
            match self.slot(current) {
                None => false,
                Some(id) => match self.at(id) {
                    Symbol::Alias { aliased, .. } => self.leads_to(
                        aliased,
                        wanted,
                        (steps - 1) as nat,
                    ),
                    _ => false,
                },
            }
        }
    }

    /// Where following aliases from `current` ends, within `steps` names.
    pub open spec fn chain(self, start: Istr, current: Istr, steps: nat) -> Result<
        SymbolId,
        ResolveError,
    >
        decreases steps,
    {
        if steps == 0 {
            Err(ResolveError::AliasCycle { start })
        } else {
            match self.slot(current) {
                None => Err(ResolveError::Unknown(current)),
                Some(id) => match self.at(id) {
                    Symbol::Alias { aliased, .. } => self.chain(start, aliased, (steps - 1) as nat),
                    _ => Ok(id),
                },
            }
        }
    }

    /// The state after `insert`.
    pub open spec fn after_insert(self, sym: Symbol) -> TableState {
        match self.slot(sym.spec_name()) {
            None => {
                let id = SymbolId(self.symbols.len() as u32);
                TableState {
                    symbols: self.symbols.push(sym),
                    by_name: self.by_name.insert(sym.spec_name().0, id),
                    transitions: self.transitions.push(
                        Transition {
                            id,
                            from: sym.spec_kind(),
                            to: sym.spec_kind(),
                            cause: TransitionCause::Inserted,
                        },
                    ),
                    ..self
                }
            },
            Some(id) => match sym {
                Symbol::Alias { name, aliased } => if self.leads_to(
                    aliased,
                    name,
                    MAX_ALIAS_DEPTH as nat,
                ) {
                    self
                } else {
                    self.with(id, sym, TransitionCause::Replaced)
                },
                _ => match verdict(self.at(id), sym) {
                    Action::Replace => self.with(id, sym, TransitionCause::Replaced),
                    Action::CoalesceCommon => self.with(
                        id,
                        coalesced(self.at(id), sym),
                        TransitionCause::CommonCoalesced,
                    ),
                    _ => self,
                },
            },
        }
    }

    /// The state after `bind_atom`: a definition gets its place, anything else stays.
    pub open spec fn after_bind(self, id: SymbolId, atom: AtomId, value: u64) -> TableState {
        match self.at(id) {
            Symbol::Defined { name, origin, weak, private_extern, no_dead_strip, .. } => (
            TableState {
                symbols: self.symbols.update(
                    id.0 as int,
                    Symbol::Defined {
                        name,
                        origin,
                        atom,
                        value,
                        weak,
                        private_extern,
                        no_dead_strip,
                    },
                ),
                ..self
            }),
            _ => self,
        }
    }

    /// What `insert` returns.
    pub open spec fn insert_result(self, sym: Symbol) -> Result<InsertOutcome, InsertError> {
        match self.slot(sym.spec_name()) {
            None => Ok(InsertOutcome::Inserted(SymbolId(self.symbols.len() as u32))),
            Some(id) => match sym {
                Symbol::Alias { name, aliased } => if self.leads_to(
                    aliased,
                    name,
                    MAX_ALIAS_DEPTH as nat,
                ) {
                    Err(InsertError::AliasCycle { name })
                } else {
                    Ok(
                        InsertOutcome::Replaced {
                            id,
                            from: self.at(id).spec_kind(),
                            to: SymbolKindTag::Alias,
                        },
                    )
                },
                _ => match verdict(self.at(id), sym) {
                    Action::Keep => Ok(InsertOutcome::Kept(id)),
                    Action::Replace => Ok(
                        InsertOutcome::Replaced {
                            id,
                            from: self.at(id).spec_kind(),
                            to: sym.spec_kind(),
                        },
                    ),
                    Action::CoalesceCommon => Ok(InsertOutcome::CommonCoalesced { id }),
                    Action::PendingArchiveFetch => Ok(
                        InsertOutcome::PendingArchiveFetch {
                            id,
                            archive: self.at(id)->LazyArchive_archive,
                            member: self.at(id)->LazyArchive_member,
                        },
                    ),
                    Action::PendingObjectLoad => Ok(
                        InsertOutcome::PendingObjectLoad {
                            id,
                            origin: self.at(id)->LazyObject_origin,
                        },
                    ),
                    Action::Duplicate => Err(
                        InsertError::DuplicateStrong {
                            name: sym.spec_name(),
                            first: id,
                            second: Box::new(sym),
                        },
                    ),
                },
            },
        }
    }

    /// The state after `intern`.
    pub open spec fn after_intern(self, name: Seq<char>) -> TableState {
        TableState { names: names::interned(self.names, name).0, ..self }
    }
}

#[derive(Debug)]
pub struct SymbolTable {
    pub interner: StringInterner,
    symbols: Vec<Symbol>,
    by_name: HashMap<u32, SymbolId>,
    transitions: Vec<Transition>,
}

impl View for SymbolTable {
    type V = TableState;

    closed spec fn view(&self) -> TableState {
        TableState {
            names: self.interner@,
            symbols: self.symbols@,
            by_name: self.by_name@,
            transitions: self.transitions@,
        }
    }
}

pub proof fn lemma_low32(n: usize)
    ensures
        (n as u32) <= n,
{
    assert((n as u32) <= n) by (bit_vector);
}

impl SymbolTable {
    /// Every name is interned once.
    pub closed spec fn names_wf(self) -> bool {
        self.interner.wf()
    }

    pub open spec fn wf(self) -> bool {
        self.names_wf() && self@.wf()
    }

    /// The name behind a handle.
    pub fn name_str(&self, name: Istr) -> (r: &str)
        requires
            name.0 < self@.names.len(),
        ensures
            r@ == self@.names[name.0 as int],
    {
        self.interner.resolve(name)
    }

    pub fn new() -> (r: SymbolTable)
        ensures
            r.wf(),
            r@ == TableState::empty(),
    {
        let r = SymbolTable {
            interner: StringInterner::new(),
            symbols: Vec::new(),
            by_name: HashMap::new(),
            transitions: Vec::new(),
        };
        assert(r@ =~= TableState::empty());
        r
    }

    pub fn intern(&mut self, name: &str) -> (r: Istr)
        requires
            old(self).wf(),
        ensures
            final(self).wf(),
            final(self)@ == old(self)@.after_intern(name@),
            r == names::interned(old(self)@.names, name@).1,
    {
        let r = self.interner.intern(name);
        proof {
            assert(self@ =~= old(self)@.after_intern(name@));
            assert forall|n: u32| #[trigger] self@.by_name.contains_key(n) implies self@.by_name[n].0
                < self@.symbols.len() by {
                assert(old(self)@.by_name.contains_key(n));
            }
        }
        r
    }

    /// The handle of `name`, if it has one.
    pub fn interner_get(&self, name: &str) -> (r: Option<Istr>)
        requires
            self.wf(),
        ensures
            r == match names::place_of(self@.names, name@) {
                Some(i) => Some(Istr(i as u32)),
                None => None,
            },
    {
        self.interner.get(name)
    }

    pub fn lookup(&self, name: Istr) -> (r: Option<SymbolId>)
        ensures
            r == self@.slot(name),
    {
        match self.by_name.get(&name.0) {
            Some(id) => Some(*id),
            None => None,
        }
    }

    pub fn lookup_str(&self, name: &str) -> (r: Option<SymbolId>)
        requires
            self.wf(),
        ensures
            r == match names::place_of(self@.names, name@) {
                Some(i) => self@.slot(Istr(i as u32)),
                None => None,
            },
    {
        match self.interner.get(name) {
            Some(name) => self.lookup(name),
            None => None,
        }
    }

    pub fn get(&self, id: SymbolId) -> (r: &Symbol)
        requires
            id.0 < self@.symbols.len(),
        ensures
            *r == self@.at(id),
    {
        &self.symbols[id.0 as usize]
    }

    /// All symbols with their ids, in the order of the slots.
    pub fn iter(&self) -> (r: Vec<(SymbolId, Symbol)>)
        ensures
            r@ == Seq::new(
                self@.symbols.len(),
                |i: int| (SymbolId(i as u32), self@.symbols[i]),
            ),
    {
        let mut out: Vec<(SymbolId, Symbol)> = Vec::new();
        let mut i: usize = 0;
        while i < self.symbols.len()
            invariant
                i <= self.symbols@.len(),
                out@ == Seq::new(i as nat, |k: int| (SymbolId(k as u32), self@.symbols[k])),
            decreases self.symbols@.len() - i,
        {
            out.push((SymbolId(i as u32), self.symbols[i]));
            assert(out@ =~= Seq::new(
                (i + 1) as nat,
                |k: int| (SymbolId(k as u32), self@.symbols[k]),
            ));
            i += 1;
        }
        out
    }

    pub fn len(&self) -> (r: usize)
        ensures
            r == self@.symbols.len(),
    {
        self.symbols.len()
    }

    pub fn is_empty(&self) -> (r: bool)
        ensures
            r == (self@.symbols.len() == 0),
    {
        self.symbols.len() == 0
    }

    pub fn transitions(&self) -> (r: &[Transition])
        ensures
            r@ == self@.transitions,
    {
        self.transitions.as_slice()
    }

    /// Gives a `Defined` symbol its atom and its offset in the atom. Other
    /// symbols stay as they are.
    pub fn bind_atom(&mut self, id: SymbolId, atom: AtomId, value: u64)
        requires
            id.0 < old(self)@.symbols.len(),
            old(self).wf(),
        ensures
            final(self).wf(),
            final(self)@ == old(self)@.after_bind(id, atom, value),
    {
        let i: usize = id.0 as usize;
        if let Symbol::Defined { name, origin, weak, private_extern, no_dead_strip, .. } =
            self.symbols[i] {
            self.symbols[i] = Symbol::Defined {
                name,
                origin,
                atom,
                value,
                weak,
                private_extern,
                no_dead_strip,
            };
        }
        assert(self@ =~= old(self)@.after_bind(id, atom, value));
        assert(self@.by_name == old(self)@.by_name);
    }

    /// Puts a symbol into the slot of a name.
    pub(crate) fn replace(&mut self, id: SymbolId, sym: Symbol, cause: TransitionCause)
        requires
            id.0 < old(self)@.symbols.len(),
            old(self).wf(),
        ensures
            final(self).wf(),
            final(self)@ == old(self)@.with(id, sym, cause),
    {
        let from = self.symbols[id.0 as usize].kind();
        self.symbols[id.0 as usize] = sym;
        self.transitions.push(Transition { id, from, to: sym.kind(), cause });
        assert(self@ =~= old(self)@.with(id, sym, cause));
    }

    /// Inserts a symbol: a new name gets a slot, for a name that has one the
    /// matrix decides.
    pub fn insert(&mut self, sym: Symbol) -> (r: Result<InsertOutcome, InsertError>)
        requires
            old(self).wf(),
        ensures
            final(self).wf(),
            final(self)@ == old(self)@.after_insert(sym),
            r == old(self)@.insert_result(sym),
    {
        let name = sym.name();
        let id = match self.by_name.get(&name.0) {
            Some(id) => *id,
            None => {
                let id = self.push_new(sym);
                self.transitions.push(
                    Transition {
                        id,
                        from: sym.kind(),
                        to: sym.kind(),
                        cause: TransitionCause::Inserted,
                    },
                );
                assert(self@ =~= old(self)@.after_insert(sym));
                return Ok(InsertOutcome::Inserted(id));
            },
        };
        assert(old(self)@.by_name.contains_key(name.0));
        if let Symbol::Alias { name, aliased } = sym {
            return self.insert_alias_over(id, name, aliased);
        }
        let existing = self.symbols[id.0 as usize];
        let from = existing.kind();
        let to = sym.kind();
        match self.matrix(&existing, &sym) {
            Action::Keep => Ok(InsertOutcome::Kept(id)),
            Action::Replace => {
                self.replace(id, sym, TransitionCause::Replaced);
                Ok(InsertOutcome::Replaced { id, from, to })
            },
            Action::CoalesceCommon => {
                let merged = self.coalesce_common(&existing, &sym);
                self.replace(id, merged, TransitionCause::CommonCoalesced);
                Ok(InsertOutcome::CommonCoalesced { id })
            },
            Action::PendingArchiveFetch => {
                match existing {
                    Symbol::LazyArchive { archive, member, .. } => Ok(
                        InsertOutcome::PendingArchiveFetch { id, archive, member },
                    ),
                    _ => Ok(InsertOutcome::Kept(id)),
                }
            },
            Action::PendingObjectLoad => {
                match existing {
                    Symbol::LazyObject { origin, .. } => Ok(
                        InsertOutcome::PendingObjectLoad { id, origin },
                    ),
                    _ => Ok(InsertOutcome::Kept(id)),
                }
            },
            Action::Duplicate => Err(
                InsertError::DuplicateStrong { name, first: id, second: Box::new(sym) },
            ),
        }
    }

    fn matrix(&self, existing: &Symbol, new: &Symbol) -> (r: Action)
        requires
            !(new is Alias),
        ensures
            r == verdict(*existing, *new),
    {
        match (existing.kind(), new.kind()) {
            (SymbolKindTag::Undefined, SymbolKindTag::Undefined) => Action::Keep,
            (SymbolKindTag::Undefined, _) => Action::Replace,
            (SymbolKindTag::Defined, SymbolKindTag::Defined) => self.defined_vs_defined(
                existing,
                new,
            ),
            (SymbolKindTag::Defined, _) => Action::Keep,
            (SymbolKindTag::Common, SymbolKindTag::Defined) => Action::Replace,
            (SymbolKindTag::Common, SymbolKindTag::Common) => Action::CoalesceCommon,
            (SymbolKindTag::Common, _) => Action::Keep,
            (SymbolKindTag::DylibImport, SymbolKindTag::Defined) => Action::Replace,
            (SymbolKindTag::DylibImport, _) => Action::Keep,
            (SymbolKindTag::LazyArchive, SymbolKindTag::Undefined) => Action::PendingArchiveFetch,
            (SymbolKindTag::LazyArchive, SymbolKindTag::LazyArchive) => Action::Keep,
            (SymbolKindTag::LazyArchive, _) => Action::Replace,
            (SymbolKindTag::LazyObject, SymbolKindTag::Undefined) => Action::PendingObjectLoad,
            (SymbolKindTag::LazyObject, SymbolKindTag::LazyObject) => Action::Keep,
            (SymbolKindTag::LazyObject, _) => Action::Replace,
            (SymbolKindTag::Alias, _) => Action::Replace,
        }
    }

    /// A strong definition replaces a weak one, and two strong ones collide;
    /// else the first one stays.
    fn defined_vs_defined(&self, existing: &Symbol, new: &Symbol) -> (r: Action)
        requires
            existing is Defined,
            new is Defined,
        ensures
            r == verdict(*existing, *new),
    {
        match (existing.is_strong_defined(), new.is_strong_defined()) {
            (true, true) => Action::Duplicate,
            (false, true) => Action::Replace,
            (true, false) => Action::Keep,
            (false, false) => Action::Keep,
        }
    }

    fn coalesce_common(&self, existing: &Symbol, incoming: &Symbol) -> (r: Symbol)
        requires
            existing is Common,
            incoming is Common,
        ensures
            r == coalesced(*existing, *incoming),
    {
        match (existing, incoming) {
            (
                Symbol::Common { name, origin, size: a_size, align_pow2: a_align },
                Symbol::Common { size: b_size, align_pow2: b_align, .. },
            ) => Symbol::Common {
                name: *name,
                origin: *origin,
                size: if *a_size < *b_size {
                    *b_size
                } else {
                    *a_size
                },
                align_pow2: if *a_align < *b_align {
                    *b_align
                } else {
                    *a_align
                },
            },
            _ => *existing,
        }
    }

    fn push_new(&mut self, sym: Symbol) -> (id: SymbolId)
        requires
            old(self).wf(),
        ensures
            final(self).wf(),
            id == SymbolId(old(self)@.symbols.len() as u32),
            final(self)@ == (TableState {
                symbols: old(self)@.symbols.push(sym),
                by_name: old(self)@.by_name.insert(sym.spec_name().0, id),
                ..old(self)@
            }),
    {
        let id = SymbolId(self.symbols.len() as u32);
        proof {
            lemma_low32(self.symbols.len());
        }
        let name = sym.name();
        self.symbols.push(sym);
        self.by_name.insert(name.0, id);
        assert forall|n: u32| #[trigger] self@.by_name.contains_key(n) implies self@.by_name[n].0
            < self@.symbols.len() by {
            if n != name.0 {
                assert(old(self)@.by_name.contains_key(n));
            }
        }
        id
    }

    fn insert_alias_over(&mut self, existing_id: SymbolId, name: Istr, aliased: Istr) -> (r: Result<
        InsertOutcome,
        InsertError,
    >)
        requires
            old(self).wf(),
            old(self)@.slot(name) == Some(existing_id),
        ensures
            final(self).wf(),
            final(self)@ == old(self)@.after_insert(Symbol::Alias { name, aliased }),
            r == old(self)@.insert_result(Symbol::Alias { name, aliased }),
    {
        assert(self@.by_name.contains_key(name.0));
        if self.alias_would_cycle(name, aliased) {
            return Err(InsertError::AliasCycle { name });
        }
        let from = self.symbols[existing_id.0 as usize].kind();
        self.replace(existing_id, Symbol::Alias { name, aliased }, TransitionCause::Replaced);
        Ok(InsertOutcome::Replaced { id: existing_id, from, to: SymbolKindTag::Alias })
    }

    /// Follows aliases to a symbol that is none.
    pub fn resolve_chain(&self, name: Istr) -> (r: Result<(SymbolId, &Symbol), ResolveError>)
        requires
            self.wf(),
        ensures
            match r {
                Ok((id, sym)) => self@.chain(name, name, MAX_ALIAS_DEPTH as nat) == Ok::<
                    _,
                    ResolveError,
                >(id) && id.0 < self@.symbols.len() && *sym == self@.at(id),
                Err(e) => self@.chain(name, name, MAX_ALIAS_DEPTH as nat) == Err::<SymbolId, _>(e),
            },
    {
        let mut current = name;
        let mut left: usize = MAX_ALIAS_DEPTH;
        while left > 0
            invariant
                self.wf(),
                self@.chain(name, name, MAX_ALIAS_DEPTH as nat) == self@.chain(
                    name,
                    current,
                    left as nat,
                ),
            decreases left,
        {
            let id = match self.by_name.get(&current.0) {
                Some(id) => *id,
                None => return Err(ResolveError::Unknown(current)),
            };
            assert(self@.by_name.contains_key(current.0));
            let sym = &self.symbols[id.0 as usize];
            match sym {
                Symbol::Alias { aliased, .. } => {
                    current = *aliased;
                },
                _ => return Ok((id, sym)),
            }
            left -= 1;
        }
        Err(ResolveError::AliasCycle { start: name })
    }

    /// Whether an alias from `new_name` to `target` would close a circle.
    fn alias_would_cycle(&self, new_name: Istr, target: Istr) -> (r: bool)
        requires
            self.wf(),
        ensures
            r == self@.leads_to(target, new_name, MAX_ALIAS_DEPTH as nat),
    {
        let mut current = target;
        let mut left: usize = MAX_ALIAS_DEPTH;
        while left > 0
            invariant
                self.wf(),
                self@.leads_to(target, new_name, MAX_ALIAS_DEPTH as nat) == self@.leads_to(
                    current,
                    new_name,
                    left as nat,
                ),
            decreases left,
        {
            if current == new_name {
                return true;
            }
            let id = match self.by_name.get(&current.0) {
                Some(id) => *id,
                None => return false,
            };
            assert(self@.by_name.contains_key(current.0));
            match &self.symbols[id.0 as usize] {
                Symbol::Alias { aliased, .. } => {
                    current = *aliased;
                },
                _ => return false,
            }
            left -= 1;
        }
        true
    }
}

/// Every name leads to a slot that holds a symbol of that name.
pub open spec fn slots_named(t: TableState) -> bool {
    forall|n: u32| #[trigger]
        t.by_name.contains_key(n) ==> t.by_name[n].0 < t.symbols.len() && t.at(
            t.by_name[n],
        ).spec_name() == Istr(n)
}

/// Every slot is found under the name of its symbol, so no two slots share a name.
pub open spec fn slots_found(t: TableState) -> bool {
    forall|i: int|
        0 <= i < t.symbols.len() ==> t.slot((#[trigger] t.symbols[i]).spec_name()) == Some(
            SymbolId(i as u32),
        )
}

/// Names and slots belong to each other one to one.
pub open spec fn coherent(t: TableState) -> bool {
    &&& slots_named(t)
    &&& slots_found(t)
    &&& t.symbols.len() <= u32::MAX
}

/// The slots of `a` are slots of `b` with the same names.
pub open spec fn slots_kept(a: TableState, b: TableState) -> bool {
    &&& a.symbols.len() <= b.symbols.len()
    &&& forall|i: int|
        0 <= i < a.symbols.len() ==> (#[trigger] b.symbols[i]).spec_name()
            == a.symbols[i].spec_name()
}

/// Inserting keeps names and slots one to one and every slot under its name, as long
/// as ids do not run out. A new name gets the next id; an old one adds no slot.
pub proof fn law_insert_keeps_coherent(t: TableState, sym: Symbol)
    requires
        coherent(t),
        t.symbols.len() < u32::MAX,
    ensures
        coherent(t.after_insert(sym)),
        slots_kept(t, t.after_insert(sym)),
        match t.slot(sym.spec_name()) {
            None => {
                &&& t.insert_result(sym) == Ok::<InsertOutcome, InsertError>(
                    InsertOutcome::Inserted(SymbolId(t.symbols.len() as u32)),
                )
                &&& t.after_insert(sym).symbols.len() == t.symbols.len() + 1
            },
            Some(_) => t.after_insert(sym).symbols.len() == t.symbols.len(),
        },
{
    let next = t.after_insert(sym);
    let name = sym.spec_name();
    if t.by_name.contains_key(name.0) {
        assert(t.at(t.by_name[name.0]).spec_name() == name);
    }
    assert forall|n: u32| #[trigger] next.by_name.contains_key(n) implies next.by_name[n].0
        < next.symbols.len() && next.at(next.by_name[n]).spec_name() == Istr(n) by {
        if t.by_name.contains_key(n) {
            assert(t.at(t.by_name[n]).spec_name() == Istr(n));
        }
    }
    assert forall|i: int| 0 <= i < t.symbols.len() implies (
    #[trigger] next.symbols[i]).spec_name() == t.symbols[i].spec_name() by {}
    assert forall|i: int| 0 <= i < next.symbols.len() implies next.slot(
        (#[trigger] next.symbols[i]).spec_name(),
    ) == Some(SymbolId(i as u32)) by {
        if i < t.symbols.len() {
            assert(t.slot(t.symbols[i].spec_name()) == Some(SymbolId(i as u32)));
        }
    }
}

/// Giving a definition its place keeps names and slots one to one.
pub proof fn law_bind_keeps_coherent(t: TableState, id: SymbolId, atom: AtomId, value: u64)
    requires
        coherent(t),
        id.0 < t.symbols.len(),
    ensures
        coherent(t.after_bind(id, atom, value)),
        slots_kept(t, t.after_bind(id, atom, value)),
        t.after_bind(id, atom, value).symbols.len() == t.symbols.len(),
{
    let next = t.after_bind(id, atom, value);
    lemma_renamed_none(t, next);
}

/// New symbols of the same names in the same slots keep names and slots one to one.
pub proof fn lemma_renamed_none(t: TableState, next: TableState)
    requires
        coherent(t),
        next.by_name == t.by_name,
        next.symbols.len() == t.symbols.len(),
        slots_kept(t, next),
    ensures
        coherent(next),
{
    assert forall|n: u32| #[trigger] next.by_name.contains_key(n) implies next.by_name[n].0
        < next.symbols.len() && next.at(next.by_name[n]).spec_name() == Istr(n) by {
        assert(t.at(t.by_name[n]).spec_name() == Istr(n));
        assert(next.symbols[t.by_name[n].0 as int].spec_name() == t.symbols[t.by_name[n].0 as int].spec_name());
    }
    assert forall|i: int| 0 <= i < next.symbols.len() implies next.slot(
        (#[trigger] next.symbols[i]).spec_name(),
    ) == Some(SymbolId(i as u32)) by {
        assert(t.slot(t.symbols[i].spec_name()) == Some(SymbolId(i as u32)));
    }
}

/// A symbol that was inserted is found under its name, whatever stood there.
pub proof fn law_inserted_name_has_slot(t: TableState, sym: Symbol)
    ensures
        t.after_insert(sym).slot(sym.spec_name()) is Some,
        t.slot(sym.spec_name()) is Some ==> t.after_insert(sym).slot(sym.spec_name()) == t.slot(
            sym.spec_name(),
        ),
{
}

/// Inserting never takes a slot away, and never changes a slot of another name.
pub proof fn law_insert_touches_one_slot(t: TableState, sym: Symbol, i: int)
    requires
        t.wf(),
        0 <= i < t.symbols.len(),
        t.slot(sym.spec_name()) is Some ==> (t.slot(sym.spec_name())->0).0 != i,
    ensures
        i < t.after_insert(sym).symbols.len(),
        t.after_insert(sym).symbols[i] == t.symbols[i],
{
}

/// A strong definition gives its slot up to no symbol but an alias.
pub proof fn law_strong_definition_stays(t: TableState, sym: Symbol)
    requires
        t.wf(),
        t.slot(sym.spec_name()) is Some,
        t.at(t.slot(sym.spec_name())->0).strong(),
        !(sym is Alias),
    ensures
        t.after_insert(sym) == t,
{
}

/// A refused symbol changes nothing.
pub proof fn law_refused_insert_changes_nothing(t: TableState, sym: Symbol)
    requires
        t.insert_result(sym) is Err,
    ensures
        t.after_insert(sym) == t,
{
}

/// The log grows by one entry when the table changes and not otherwise.
pub proof fn law_transitions_log_changes(t: TableState, sym: Symbol)
    ensures
        t.after_insert(sym).transitions.len() == t.transitions.len() + if t.insert_result(
            sym,
        ) matches Ok(o) && (o is Inserted || o is Replaced || o is CommonCoalesced) {
            1int
        } else {
            0int
        },
        t.after_insert(sym).transitions.take(t.transitions.len() as int) == t.transitions,
{
    assert(t.after_insert(sym).transitions.take(t.transitions.len() as int) =~= t.transitions);
}

/// An alias that was put over another symbol does not lead back to itself.
pub proof fn law_alias_over_symbol_is_no_cycle(t: TableState, name: Istr, aliased: Istr)
    requires
        t.wf(),
        t.slot(name) is Some,
        t.insert_result(Symbol::Alias { name, aliased }) is Ok,
    ensures
        aliased != name,
        !t.leads_to(aliased, name, MAX_ALIAS_DEPTH as nat),
{
}

} // verus!
