use afs_ld::resolve::{
    ArchiveId, AtomId, DylibId, InputId, InsertError, InsertOutcome, Istr, MemberId, ResolveError,
    StringInterner, Symbol, SymbolId, SymbolKindTag, SymbolTable, TransitionCause,
};

#[test]
fn interner_dedups_same_string() {
    let mut s = StringInterner::new();
    let a = s.intern("_main");
    let b = s.intern("_main");
    assert_eq!(a, b);
    assert_eq!(s.len(), 1);
}

#[test]
fn interner_distinguishes_different_strings() {
    let mut s = StringInterner::new();
    let a = s.intern("_main");
    let b = s.intern("_helper");
    assert_ne!(a, b);
    assert_eq!(s.resolve(a), "_main");
    assert_eq!(s.resolve(b), "_helper");
}

#[test]
fn interner_handles_are_stable_u32() {
    let mut s = StringInterner::new();
    let a = s.intern("_a");
    let b = s.intern("_b");
    let c = s.intern("_c");
    assert_eq!(a.as_u32(), 0);
    assert_eq!(b.as_u32(), 1);
    assert_eq!(c.as_u32(), 2);
}

#[test]
fn opaque_ids_are_distinguishable() {
    let a = InputId(0);
    let b = InputId(1);
    assert_ne!(a, b);
    assert_eq!(a.as_u32(), 0);
    // Different newtypes with the same inner value are NOT compatible
    // (we test this via the module's type system at compile time).
}

#[test]
fn interner_large_workload() {
    let mut s = StringInterner::new();
    for i in 0..1000 {
        let name = format!("_sym_{i}");
        let h1 = s.intern(&name);
        let h2 = s.intern(&name);
        assert_eq!(h1, h2);
    }
    assert_eq!(s.len(), 1000);
}

// ---- Symbol variant tests ----

fn n(i: u32) -> Istr {
    Istr(i)
}

#[test]
fn symbol_kind_tags_match_variants() {
    let undef = Symbol::Undefined {
        name: n(0),
        origin: InputId(0),
        weak_ref: false,
    };
    assert_eq!(undef.kind(), SymbolKindTag::Undefined);

    let defined = Symbol::Defined {
        name: n(1),
        origin: InputId(0),
        atom: AtomId(0),
        value: 0,
        weak: false,
        private_extern: false,
        no_dead_strip: false,
    };
    assert_eq!(defined.kind(), SymbolKindTag::Defined);
    assert!(defined.is_strong_defined());
    assert!(!defined.is_weak_defined());

    let weak = Symbol::Defined {
        name: n(2),
        origin: InputId(0),
        atom: AtomId(0),
        value: 0,
        weak: true,
        private_extern: false,
        no_dead_strip: false,
    };
    assert!(weak.is_weak_defined());
    assert!(!weak.is_strong_defined());

    assert_eq!(
        Symbol::Common {
            name: n(3),
            origin: InputId(0),
            size: 8,
            align_pow2: 3
        }
        .kind(),
        SymbolKindTag::Common
    );
    assert_eq!(
        Symbol::DylibImport {
            name: n(4),
            dylib: DylibId(0),
            ordinal: 1,
            weak_import: false
        }
        .kind(),
        SymbolKindTag::DylibImport
    );
    assert_eq!(
        Symbol::LazyArchive {
            name: n(5),
            archive: ArchiveId(0),
            member: MemberId(0)
        }
        .kind(),
        SymbolKindTag::LazyArchive
    );
    assert_eq!(
        Symbol::LazyObject {
            name: n(6),
            origin: InputId(0)
        }
        .kind(),
        SymbolKindTag::LazyObject
    );
    assert_eq!(
        Symbol::Alias {
            name: n(7),
            aliased: n(0)
        }
        .kind(),
        SymbolKindTag::Alias
    );
}

#[test]
fn symbol_name_returns_istr_across_variants() {
    let sym = Symbol::Common {
        name: n(42),
        origin: InputId(0),
        size: 16,
        align_pow2: 4,
    };
    assert_eq!(sym.name(), n(42));
}

// ----------------- SymbolTable & insertion matrix tests -----------------

fn undef(t: &mut SymbolTable, name: &str) -> Symbol {
    Symbol::Undefined {
        name: t.intern(name),
        origin: InputId(0),
        weak_ref: false,
    }
}

fn defined_strong(t: &mut SymbolTable, name: &str) -> Symbol {
    Symbol::Defined {
        name: t.intern(name),
        origin: InputId(0),
        atom: AtomId(0),
        value: 0x100,
        weak: false,
        private_extern: false,
        no_dead_strip: false,
    }
}

fn defined_weak(t: &mut SymbolTable, name: &str) -> Symbol {
    Symbol::Defined {
        name: t.intern(name),
        origin: InputId(0),
        atom: AtomId(0),
        value: 0x200,
        weak: true,
        private_extern: false,
        no_dead_strip: false,
    }
}

fn common(t: &mut SymbolTable, name: &str, size: u64, align: u8) -> Symbol {
    Symbol::Common {
        name: t.intern(name),
        origin: InputId(0),
        size,
        align_pow2: align,
    }
}

fn dylib_import(t: &mut SymbolTable, name: &str, ordinal: u16) -> Symbol {
    Symbol::DylibImport {
        name: t.intern(name),
        dylib: DylibId(0),
        ordinal,
        weak_import: false,
    }
}

fn lazy_archive(t: &mut SymbolTable, name: &str) -> Symbol {
    Symbol::LazyArchive {
        name: t.intern(name),
        archive: ArchiveId(7),
        member: MemberId(42),
    }
}

fn lazy_object(t: &mut SymbolTable, name: &str) -> Symbol {
    Symbol::LazyObject {
        name: t.intern(name),
        origin: InputId(5),
    }
}

fn alias_sym(t: &mut SymbolTable, name: &str, target: &str) -> Symbol {
    let name_i = t.intern(name);
    let target_i = t.intern(target);
    Symbol::Alias {
        name: name_i,
        aliased: target_i,
    }
}

// ---- vacant-slot insertions ----

#[test]
fn vacant_insert_records_inserted_outcome() {
    let mut t = SymbolTable::new();
    let sym = defined_strong(&mut t, "_main");
    match t.insert(sym).unwrap() {
        InsertOutcome::Inserted(id) => {
            assert_eq!(id, SymbolId(0));
            assert!(matches!(t.get(id), Symbol::Defined { .. }));
        }
        other => panic!("expected Inserted, got {other:?}"),
    }
    assert_eq!(t.transitions().len(), 1);
    assert_eq!(t.transitions()[0].cause, TransitionCause::Inserted);
}

// ---- existing Undefined ----

#[test]
fn undefined_kept_under_undefined() {
    let mut t = SymbolTable::new();
    let a = undef(&mut t, "_x");
    let b = undef(&mut t, "_x");
    t.insert(a).unwrap();
    let out = t.insert(b).unwrap();
    assert!(matches!(out, InsertOutcome::Kept(_)));
}

#[test]
fn undefined_replaced_by_definition() {
    let mut t = SymbolTable::new();
    let first = undef(&mut t, "_x");
    t.insert(first).unwrap();
    let incoming = defined_strong(&mut t, "_x");
    let out = t.insert(incoming).unwrap();
    assert!(matches!(out, InsertOutcome::Replaced { .. }));
}

#[test]
fn undefined_replaced_by_common() {
    let mut t = SymbolTable::new();
    let first = undef(&mut t, "_x");
    t.insert(first).unwrap();
    let c = common(&mut t, "_x", 8, 3);
    let out = t.insert(c).unwrap();
    assert!(matches!(out, InsertOutcome::Replaced { .. }));
}

#[test]
fn undefined_replaced_by_dylib_import() {
    let mut t = SymbolTable::new();
    let first = undef(&mut t, "_x");
    t.insert(first).unwrap();
    let di = dylib_import(&mut t, "_x", 1);
    let out = t.insert(di).unwrap();
    assert!(matches!(out, InsertOutcome::Replaced { .. }));
}

#[test]
fn undefined_replaced_by_lazy_archive() {
    let mut t = SymbolTable::new();
    let first = undef(&mut t, "_x");
    t.insert(first).unwrap();
    let la = lazy_archive(&mut t, "_x");
    let out = t.insert(la).unwrap();
    assert!(matches!(out, InsertOutcome::Replaced { .. }));
}

#[test]
fn undefined_replaced_by_lazy_object() {
    let mut t = SymbolTable::new();
    let first = undef(&mut t, "_x");
    t.insert(first).unwrap();
    let lo = lazy_object(&mut t, "_x");
    let out = t.insert(lo).unwrap();
    assert!(matches!(out, InsertOutcome::Replaced { .. }));
}

// ---- existing Defined ----

#[test]
fn strong_defined_keeps_under_undefined() {
    let mut t = SymbolTable::new();
    let existing = defined_strong(&mut t, "_x");
    t.insert(existing).unwrap();
    let newer = undef(&mut t, "_x");
    let out = t.insert(newer).unwrap();
    assert!(matches!(out, InsertOutcome::Kept(_)));
}

#[test]
fn two_strong_defined_is_duplicate_error() {
    let mut t = SymbolTable::new();
    let first = defined_strong(&mut t, "_x");
    t.insert(first).unwrap();
    let second = defined_strong(&mut t, "_x");
    let err = t.insert(second).unwrap_err();
    assert!(matches!(err, InsertError::DuplicateStrong { .. }));
}

#[test]
fn strong_keeps_under_weak() {
    let mut t = SymbolTable::new();
    let strong = defined_strong(&mut t, "_x");
    t.insert(strong).unwrap();
    let weaker = defined_weak(&mut t, "_x");
    let out = t.insert(weaker).unwrap();
    assert!(matches!(out, InsertOutcome::Kept(_)));
}

#[test]
fn weak_replaced_by_strong() {
    let mut t = SymbolTable::new();
    let weak = defined_weak(&mut t, "_x");
    t.insert(weak).unwrap();
    let strong = defined_strong(&mut t, "_x");
    let out = t.insert(strong).unwrap();
    assert!(matches!(out, InsertOutcome::Replaced { .. }));
    assert!(t.get(SymbolId(0)).is_strong_defined());
}

#[test]
fn two_weak_defined_first_wins() {
    let mut t = SymbolTable::new();
    let first = defined_weak(&mut t, "_x");
    let Symbol::Defined {
        value: first_val, ..
    } = first
    else {
        unreachable!()
    };
    t.insert(first).unwrap();
    let second = defined_weak(&mut t, "_x");
    let out = t.insert(second).unwrap();
    assert!(matches!(out, InsertOutcome::Kept(_)));
    if let Symbol::Defined { value, .. } = t.get(SymbolId(0)) {
        assert_eq!(*value, first_val);
    }
}

#[test]
fn defined_keeps_under_common() {
    let mut t = SymbolTable::new();
    let strong = defined_strong(&mut t, "_x");
    t.insert(strong).unwrap();
    let c = common(&mut t, "_x", 8, 3);
    let out = t.insert(c).unwrap();
    assert!(matches!(out, InsertOutcome::Kept(_)));
}

#[test]
fn defined_keeps_under_dylib_import() {
    let mut t = SymbolTable::new();
    let strong = defined_strong(&mut t, "_x");
    t.insert(strong).unwrap();
    let di = dylib_import(&mut t, "_x", 1);
    let out = t.insert(di).unwrap();
    assert!(matches!(out, InsertOutcome::Kept(_)));
}

#[test]
fn defined_keeps_under_lazy_archive() {
    let mut t = SymbolTable::new();
    let strong = defined_strong(&mut t, "_x");
    t.insert(strong).unwrap();
    let la = lazy_archive(&mut t, "_x");
    let out = t.insert(la).unwrap();
    assert!(matches!(out, InsertOutcome::Kept(_)));
}

// ---- existing Common ----

#[test]
fn common_replaced_by_definition() {
    let mut t = SymbolTable::new();
    let c = common(&mut t, "_x", 8, 3);
    t.insert(c).unwrap();
    let def = defined_strong(&mut t, "_x");
    let out = t.insert(def).unwrap();
    assert!(matches!(out, InsertOutcome::Replaced { .. }));
}

#[test]
fn common_coalesces_to_larger_size_and_stricter_alignment() {
    let mut t = SymbolTable::new();
    let a = common(&mut t, "_x", 8, 2);
    t.insert(a).unwrap();
    let b = common(&mut t, "_x", 16, 5);
    let out = t.insert(b).unwrap();
    assert!(matches!(out, InsertOutcome::CommonCoalesced { .. }));
    if let Symbol::Common {
        size, align_pow2, ..
    } = t.get(SymbolId(0))
    {
        assert_eq!(*size, 16);
        assert_eq!(*align_pow2, 5);
    }
}

#[test]
fn common_kept_under_dylib_import() {
    let mut t = SymbolTable::new();
    let c = common(&mut t, "_x", 8, 3);
    t.insert(c).unwrap();
    let di = dylib_import(&mut t, "_x", 2);
    let out = t.insert(di).unwrap();
    assert!(matches!(out, InsertOutcome::Kept(_)));
}

// ---- existing DylibImport ----

#[test]
fn dylib_import_replaced_by_local_definition() {
    let mut t = SymbolTable::new();
    let di = dylib_import(&mut t, "_printf", 1);
    t.insert(di).unwrap();
    let def = defined_strong(&mut t, "_printf");
    let out = t.insert(def).unwrap();
    assert!(matches!(out, InsertOutcome::Replaced { .. }));
}

#[test]
fn dylib_import_keeps_under_another_import() {
    let mut t = SymbolTable::new();
    let first = dylib_import(&mut t, "_printf", 1);
    t.insert(first).unwrap();
    let second = dylib_import(&mut t, "_printf", 2);
    let out = t.insert(second).unwrap();
    assert!(matches!(out, InsertOutcome::Kept(_)));
}

// ---- existing LazyArchive ----

#[test]
fn lazy_archive_under_undefined_yields_pending_fetch() {
    let mut t = SymbolTable::new();
    let lazy = lazy_archive(&mut t, "_hidden");
    t.insert(lazy).unwrap();
    let want = undef(&mut t, "_hidden");
    match t.insert(want).unwrap() {
        InsertOutcome::PendingArchiveFetch {
            archive, member, ..
        } => {
            assert_eq!(archive, ArchiveId(7));
            assert_eq!(member, MemberId(42));
        }
        other => panic!("expected PendingArchiveFetch, got {other:?}"),
    }
}

#[test]
fn lazy_archive_replaced_by_defined() {
    let mut t = SymbolTable::new();
    let lazy = lazy_archive(&mut t, "_f");
    t.insert(lazy).unwrap();
    let def = defined_strong(&mut t, "_f");
    let out = t.insert(def).unwrap();
    assert!(matches!(out, InsertOutcome::Replaced { .. }));
}

#[test]
fn two_lazy_archives_first_wins() {
    let mut t = SymbolTable::new();
    let first = lazy_archive(&mut t, "_f");
    t.insert(first).unwrap();
    let name = t.intern("_f");
    let second = Symbol::LazyArchive {
        name,
        archive: ArchiveId(99),
        member: MemberId(99),
    };
    let out = t.insert(second).unwrap();
    assert!(matches!(out, InsertOutcome::Kept(_)));
}

// ---- existing LazyObject ----

#[test]
fn lazy_object_under_undefined_yields_pending_load() {
    let mut t = SymbolTable::new();
    let lazy = lazy_object(&mut t, "_f");
    t.insert(lazy).unwrap();
    let want = undef(&mut t, "_f");
    match t.insert(want).unwrap() {
        InsertOutcome::PendingObjectLoad { origin, .. } => {
            assert_eq!(origin, InputId(5));
        }
        other => panic!("expected PendingObjectLoad, got {other:?}"),
    }
}

// ---- Alias path ----

#[test]
fn alias_inserts_into_vacant_slot() {
    let mut t = SymbolTable::new();
    let al = alias_sym(&mut t, "_old_name", "_new_name");
    let out = t.insert(al).unwrap();
    assert!(matches!(out, InsertOutcome::Inserted(_)));
}

#[test]
fn direct_definition_replaces_alias() {
    let mut t = SymbolTable::new();
    let al = alias_sym(&mut t, "_alias", "_target");
    t.insert(al).unwrap();
    let def = defined_strong(&mut t, "_alias");
    let out = t.insert(def).unwrap();
    assert!(matches!(
        out,
        InsertOutcome::Replaced {
            from: SymbolKindTag::Alias,
            to: SymbolKindTag::Defined,
            ..
        }
    ));
}

#[test]
fn self_loop_alias_rejected() {
    let mut t = SymbolTable::new();
    let u = undef(&mut t, "_foo");
    t.insert(u).unwrap();
    let looped = alias_sym(&mut t, "_foo", "_foo");
    let err = t.insert(looped).unwrap_err();
    assert!(matches!(err, InsertError::AliasCycle { .. }));
}

#[test]
fn two_step_alias_cycle_rejected() {
    let mut t = SymbolTable::new();
    let a_to_b = alias_sym(&mut t, "_a", "_b");
    t.insert(a_to_b).unwrap();
    let u = undef(&mut t, "_b");
    t.insert(u).unwrap();
    let loop_back = alias_sym(&mut t, "_b", "_a");
    let err = t.insert(loop_back).unwrap_err();
    assert!(matches!(err, InsertError::AliasCycle { .. }));
}

#[test]
fn resolve_chain_walks_to_concrete_target() {
    let mut t = SymbolTable::new();
    let defined = defined_strong(&mut t, "_target");
    t.insert(defined).unwrap();
    let al = alias_sym(&mut t, "_alias", "_target");
    t.insert(al).unwrap();
    let name = t.intern("_alias");
    let (_, sym) = t.resolve_chain(name).unwrap();
    assert!(matches!(sym, Symbol::Defined { .. }));
}

#[test]
fn resolve_chain_unknown_name_errors() {
    let t = SymbolTable::new();
    let err = t.resolve_chain(Istr(99)).unwrap_err();
    assert!(matches!(err, ResolveError::Unknown(_)));
}

// ---- Transition log ----

#[test]
fn kept_entries_do_not_record_transitions() {
    let mut t = SymbolTable::new();
    let strong = defined_strong(&mut t, "_x");
    t.insert(strong).unwrap();
    let before = t.transitions().len();
    let weaker = defined_weak(&mut t, "_x");
    t.insert(weaker).unwrap();
    assert_eq!(t.transitions().len(), before);
}

#[test]
fn replace_records_transition_with_from_and_to() {
    let mut t = SymbolTable::new();
    let u = undef(&mut t, "_x");
    t.insert(u).unwrap();
    let d = defined_strong(&mut t, "_x");
    t.insert(d).unwrap();
    let last = t.transitions().last().unwrap();
    assert_eq!(last.from, SymbolKindTag::Undefined);
    assert_eq!(last.to, SymbolKindTag::Defined);
    assert_eq!(last.cause, TransitionCause::Replaced);
}

#[test]
fn common_coalesce_records_its_own_cause() {
    let mut t = SymbolTable::new();
    let a = common(&mut t, "_x", 8, 3);
    t.insert(a).unwrap();
    let b = common(&mut t, "_x", 16, 5);
    t.insert(b).unwrap();
    assert_eq!(
        t.transitions().last().unwrap().cause,
        TransitionCause::CommonCoalesced
    );
}

#[test]
fn resolve_chain_names_what_is_missing() {
    let mut t = SymbolTable::new();
    let a = t.intern("_a");
    let b = t.intern("_b");
    t.insert(Symbol::Alias { name: a, aliased: b }).unwrap();
    assert!(t.lookup(a).is_some());
    assert_eq!(t.resolve_chain(a).unwrap_err(), ResolveError::Unknown(b));
    assert_eq!(t.resolve_chain(b).unwrap_err(), ResolveError::Unknown(b));
}

#[test]
fn every_slot_is_found_under_its_name() {
    let mut t = SymbolTable::new();
    for name in ["_a", "_b", "_a", "_c"] {
        let d = undef(&mut t, name);
        t.insert(d).unwrap();
    }
    assert_eq!(t.len(), 3);
    for (id, sym) in t.iter() {
        assert_eq!(t.lookup(sym.name()), Some(id));
    }
}
