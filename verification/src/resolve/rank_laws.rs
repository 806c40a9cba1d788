//! Which of several symbols of one name a link takes.

use vstd::prelude::*;
use crate::input::ObjectFile;
use crate::macho::exports::ExportModel;
use crate::resolve::inputs::IndexModel;
use crate::resolve::names;
use crate::resolve::seed;
use crate::resolve::seed::Seeding;
use crate::resolve::table;
use crate::resolve::table::{InsertError, InsertOutcome, TableState};
use crate::resolve::{ArchiveId, DylibId, InputId, Istr, Symbol, SymbolId};
use crate::symbol::{InputSymbol, SymKind};

verus! {

/// How much a symbol is worth: a reference, something to fetch, something tentative or from
/// a dylib, a weak definition, a strong one.
pub open spec fn rank(sym: Symbol) -> int {
    match sym {
        Symbol::Undefined { .. } => 0,
        Symbol::LazyArchive { .. } => 1,
        Symbol::LazyObject { .. } => 1,
        Symbol::Common { .. } => 2,
        Symbol::DylibImport { .. } => 2,
        Symbol::Defined { weak, .. } => if weak {
            3
        } else {
            4
        },
        Symbol::Alias { .. } => 5,
    }
}

/// Of two symbols of one name the one of higher rank holds the slot, and of two of the same
/// rank the first. Two strong definitions are an error, two tentative ones become one with
/// the larger size and the stricter alignment, and a reference to something that can be
/// fetched asks for it.
pub proof fn law_higher_rank_holds_slot(t: TableState, sym: Symbol)
    requires
        t.slot(sym.spec_name()) is Some,
        (t.slot(sym.spec_name())->0).0 < t.symbols.len(),
        !(sym is Alias),
        !(t.at(t.slot(sym.spec_name())->0) is Alias),
    ensures
        ({
            let id = t.slot(sym.spec_name())->0;
            let old = t.at(id);
            let now = t.after_insert(sym).at(id);
            let r = t.insert_result(sym);
            &&& rank(sym) > rank(old) ==> now == sym
            &&& rank(sym) < rank(old) ==> now == old
            &&& rank(sym) == rank(old) && rank(sym) != 1 && !(sym is Common && old is Common)
                ==> now == old
            &&& rank(sym) == 4 && rank(old) == 4 <==> r is Err
            &&& r is Err ==> (r->Err_0 matches InsertError::DuplicateStrong { name, first, second }
                && name == sym.spec_name() && first == id && *second == sym)
            &&& sym is Common && old is Common ==> {
                &&& now is Common
                &&& now->Common_size >= old->Common_size
                &&& now->Common_size >= sym->Common_size
                &&& now->Common_size == old->Common_size || now->Common_size == sym->Common_size
                &&& now->Common_align_pow2 >= old->Common_align_pow2
                &&& now->Common_align_pow2 >= sym->Common_align_pow2
                &&& now->Common_align_pow2 == old->Common_align_pow2 || now->Common_align_pow2
                    == sym->Common_align_pow2
                &&& now->Common_origin == old->Common_origin
            }
            &&& sym is Undefined && old is LazyArchive ==> r == Ok::<InsertOutcome, InsertError>(
                InsertOutcome::PendingArchiveFetch {
                    id,
                    archive: old->LazyArchive_archive,
                    member: old->LazyArchive_member,
                },
            )
            &&& sym is Undefined && old is LazyObject ==> r == Ok::<InsertOutcome, InsertError>(
                InsertOutcome::PendingObjectLoad { id, origin: old->LazyObject_origin },
            )
        }),
{
}

/// A table as seeding makes it: every name once, each slot under its own name, no aliases.
pub open spec fn seeded(t: TableState) -> bool {
    &&& table::coherent(t)
    &&& t.names.no_duplicates()
    &&& t.names.len() < u32::MAX
    &&& t.symbols.len() <= t.names.len()
    &&& forall|n: u32| #[trigger] t.by_name.contains_key(n) ==> n < t.names.len()
    &&& forall|i: int| 0 <= i < t.symbols.len() ==> !((#[trigger] t.symbols[i]) is Alias)
}

/// The rank of what a name stands for; less than any where it stands for nothing.
pub open spec fn standing(t: TableState, name: Seq<char>) -> int {
    let h = t.names.index_of(name) as u32;
    if t.names.contains(name) && t.by_name.contains_key(h) {
        rank(t.at(t.by_name[h]))
    } else {
        -1
    }
}

/// What a name stands for.
pub open spec fn stands_for(t: TableState, name: Seq<char>, sym: Symbol) -> bool {
    let h = t.names.index_of(name) as u32;
    t.names.contains(name) && t.by_name.contains_key(h) && t.at(t.by_name[h]) == sym
}

proof fn lemma_index(names: Seq<Seq<char>>, i: int)
    requires
        names.no_duplicates(),
        0 <= i < names.len(),
    ensures
        names.contains(names[i]),
        names.index_of(names[i]) == i,
{
    assert(names.contains(names[i]));
}

proof fn lemma_interned(t: TableState, name: Seq<char>)
    requires
        seeded(t),
        t.names.len() < u32::MAX - 1,
    ensures
        ({
            let after = t.after_intern(name);
            let h = names::interned(t.names, name).1.0;
            &&& seeded(after)
            &&& after.names.len() <= t.names.len() + 1
            &&& after.names.contains(name)
            &&& after.names.index_of(name) == h
            &&& !t.names.contains(name) ==> !t.by_name.contains_key(h) && t.symbols.len()
                < after.names.len()
            &&& forall|other: Seq<char>|
                #![trigger standing(after, other)]
                standing(after, other) == standing(t, other)
        }),
{
    let after = t.after_intern(name);
    names::law_intern_resolves(t.names, name);
    if !t.names.contains(name) {
        assert forall|i: int, j: int|
            0 <= i < after.names.len() && 0 <= j < after.names.len() && i != j implies
            after.names[i] != after.names[j] by {
            if i < t.names.len() && j < t.names.len() {
                assert(t.names[i] != t.names[j]);
            } else if i < t.names.len() {
                assert(t.names.contains(t.names[i]));
            } else {
                assert(t.names.contains(t.names[j]));
            }
        }
        lemma_index(after.names, t.names.len() as int);
        assert(after.names[t.names.len() as int] == name);
        assert forall|other: Seq<char>| #![trigger standing(after, other)] standing(after, other)
            == standing(t, other) by {
            if t.names.contains(other) {
                let i = t.names.index_of(other);
                assert(after.names[i] == other);
                lemma_index(after.names, i);
            } else if after.names.contains(other) {
                let i = after.names.index_of(other);
                assert(after.names[i] == other);
                if i < t.names.len() {
                    assert(t.names[i] == other);
                }
                assert(i == t.names.len());
            }
        }
    } else {
        lemma_index(t.names, t.names.index_of(name));
    }
}

proof fn lemma_put(t: TableState, sym: Symbol)
    requires
        seeded(t),
        sym.spec_name().0 < t.names.len(),
        !(sym is Alias),
        t.slot(sym.spec_name()) is None ==> t.symbols.len() < t.names.len(),
    ensures
        ({
            let after = t.after_insert(sym);
            let name = t.names[sym.spec_name().0 as int];
            &&& seeded(after)
            &&& after.names == t.names
            &&& standing(after, name) >= rank(sym)
            &&& standing(t, name) < rank(sym) ==> stands_for(after, name, sym)
            &&& forall|other: Seq<char>|
                #![trigger standing(after, other)]
                standing(after, other) >= standing(t, other)
        }),
{
    let after = t.after_insert(sym);
    let h = sym.spec_name().0;
    let name = t.names[h as int];
    lemma_index(t.names, h as int);
    table::law_insert_keeps_coherent(t, sym);
    table::law_inserted_name_has_slot(t, sym);
    let id = after.slot(sym.spec_name())->0;
    if t.slot(sym.spec_name()) is Some {
        assert(t.by_name.contains_key(h));
        assert(id.0 < t.symbols.len());
        assert(!(t.symbols[id.0 as int] is Alias));
        law_higher_rank_holds_slot(t, sym);
    }
    assert forall|i: int| 0 <= i < after.symbols.len() implies !((#[trigger] after.symbols[i])
        is Alias) by {
        if t.slot(sym.spec_name()) is Some && i == id.0 {
        } else if i < t.symbols.len() {
            table::law_insert_touches_one_slot(t, sym, i);
            assert(!(t.symbols[i] is Alias));
        }
    }
    assert forall|other: Seq<char>| #![trigger standing(after, other)] standing(after, other)
        >= standing(t, other) by {
        if t.names.contains(other) && t.by_name.contains_key(t.names.index_of(other) as u32) {
            let g = t.names.index_of(other) as u32;
            let slot = t.by_name[g];
            assert(t.by_name.contains_key(g));
            assert(t.at(slot).spec_name() == Istr(g));
            if g != h {
                if t.slot(sym.spec_name()) is Some {
                    assert(t.at(id).spec_name() == Istr(h));
                }
                table::law_insert_touches_one_slot(t, sym, slot.0 as int);
                assert(after.by_name.contains_key(g) && after.by_name[g] == slot);
            }
        }
    }
}

/// One more symbol under a name: nothing that was known stands for less, and the name
/// stands for at least the new symbol.
proof fn lemma_named_put(s: Seeding, name: Seq<char>, sym: Symbol)
    requires
        seeded(s.table),
        s.table.names.len() < u32::MAX - 1,
        sym.spec_name() == s.handle(name),
        !(sym is Alias),
    ensures
        ({
            let after = s.interned(name).inserted(sym).table;
            &&& seeded(after)
            &&& after.names.len() <= s.table.names.len() + 1
            &&& standing(after, name) >= rank(sym)
            &&& standing(s.table, name) < rank(sym) ==> stands_for(after, name, sym)
            &&& forall|other: Seq<char>|
                #![trigger standing(after, other)]
                standing(after, other) >= standing(s.table, other)
        }),
{
    let t = s.table;
    let mid = t.after_intern(name);
    lemma_interned(t, name);
    let h = s.handle(name).0;
    lemma_index(mid.names, mid.names.index_of(name));
    assert(mid.names[h as int] == name);
    if mid.slot(sym.spec_name()) is None {
        lemma_free_slot(mid, h);
    }
    lemma_put(mid, sym);
    let after = mid.after_insert(sym);
    assert(standing(mid, name) == standing(t, name));
    assert forall|other: Seq<char>| #![trigger standing(after, other)] standing(after, other)
        >= standing(t, other) by {
        assert(standing(mid, other) == standing(t, other));
    }
}

/// Where a name has no slot there are fewer slots than names.
proof fn lemma_free_slot(t: TableState, h: u32)
    requires
        seeded(t),
        h < t.names.len(),
        !t.by_name.contains_key(h),
    ensures
        t.symbols.len() < t.names.len(),
{
    let all = vstd::set_lib::set_int_range(0, t.names.len() as int);
    vstd::set_lib::lemma_int_range(0, t.names.len() as int);
    let ints = Seq::new(t.symbols.len(), |i: int| t.symbols[i].spec_name().0 as int);
    assert(ints.no_duplicates()) by {
        assert forall|i: int, j: int|
            0 <= i < ints.len() && 0 <= j < ints.len() && i != j implies ints[i] != ints[j] by {
            assert(t.slot(t.symbols[i].spec_name()) == Some(SymbolId(i as u32)));
            assert(t.slot(t.symbols[j].spec_name()) == Some(SymbolId(j as u32)));
        }
    }
    ints.unique_seq_to_set();
    let some = all.remove(h as int);
    assert(ints.to_set().subset_of(some)) by {
        assert forall|x: int| ints.to_set().contains(x) implies some.contains(x) by {
            let i = choose|i: int| 0 <= i < ints.len() && ints[i] == x;
            let n = t.symbols[i].spec_name().0;
            assert(t.slot(t.symbols[i].spec_name()) == Some(SymbolId(i as u32)));
            assert(t.by_name.contains_key(n));
        }
    }
    vstd::set_lib::lemma_len_subset(ints.to_set(), some);
}

/// What a symbol of an object is worth to others: nothing where it is a debug entry, is
/// seen by no other file, has no readable name, or only renames.
pub open spec fn worth(obj: ObjectFile, sym: InputSymbol) -> int {
    if sym.is_stab() || !(sym.spec_is_ext() || sym.spec_is_private_ext()) || obj.name_of(sym)
        is Err {
        -1
    } else {
        match sym.spec_kind() {
            SymKind::Indirect => -1,
            SymKind::Undef => if sym.spec_is_common() {
                2
            } else {
                0
            },
            _ => if sym.raw.n_desc & 0x80 != 0 {
                3
            } else {
                4
            },
        }
    }
}

proof fn lemma_symbol(s: Seeding, obj: ObjectFile, sym: InputSymbol, origin: InputId)
    requires
        seeded(s.table),
        s.table.names.len() < u32::MAX - 1,
    ensures
        ({
            let after = seed::symbol_seeded(s, obj, sym, origin).table;
            &&& seeded(after)
            &&& after.names.len() <= s.table.names.len() + 1
            &&& worth(obj, sym) >= 0 ==> standing(after, obj.name_of(sym)->Ok_0) >= worth(obj, sym)
            &&& forall|other: Seq<char>|
                #![trigger standing(after, other)]
                standing(after, other) >= standing(s.table, other)
        }),
{
    if !(sym.is_stab() || !(sym.spec_is_ext() || sym.spec_is_private_ext()) || obj.name_of(sym)
        is Err) {
        let text = obj.name_of(sym)->Ok_0;
        let name = s.handle(text);
        lemma_interned(s.table, text);
        let made = seed::symbolized(name, sym, origin);
        if made is Some {
            lemma_named_put(s, text, made->0);
            assert(s.interned(text).referred(name, origin).inserted(made->0).table == s.interned(
                text,
            ).inserted(made->0).table);
        }
    }
}

/// A definition that is worth more than what its name stood for is taken as the object has
/// it: with its value, its input, and its marks.
pub proof fn law_definition_is_taken(
    s: Seeding,
    obj: ObjectFile,
    sym: InputSymbol,
    origin: InputId,
)
    requires
        seeded(s.table),
        s.table.names.len() < u32::MAX - 1,
        worth(obj, sym) >= 3,
        standing(s.table, obj.name_of(sym)->Ok_0) < worth(obj, sym),
    ensures
        ({
            let after = seed::symbol_seeded(s, obj, sym, origin).table;
            let name = obj.name_of(sym)->Ok_0;
            let held = after.at(after.by_name[after.names.index_of(name) as u32]);
            &&& after.names.contains(name)
            &&& after.by_name.contains_key(after.names.index_of(name) as u32)
            &&& held is Defined
            &&& held->Defined_origin == origin
            &&& held->value == sym.raw.n_value
            &&& held->Defined_weak <==> sym.raw.n_desc & 0x80 != 0
            &&& held->private_extern <==> sym.spec_is_private_ext()
            &&& held->no_dead_strip <==> sym.raw.n_desc & 0x20 != 0
        }),
{
    let text = obj.name_of(sym)->Ok_0;
    let name = s.handle(text);
    let made = seed::symbolized(name, sym, origin)->0;
    lemma_named_put(s, text, made);
    assert(s.interned(text).referred(name, origin).inserted(made).table == s.interned(
        text,
    ).inserted(made).table);
}

/// Every name that an object shows to others stands, once the object is seeded, for
/// something worth at least what the object's own symbol of that name is, and no name
/// stands for less than before.
pub proof fn law_object_symbols_count(
    s: Seeding,
    obj: ObjectFile,
    syms: Seq<InputSymbol>,
    origin: InputId,
)
    requires
        seeded(s.table),
        s.table.names.len() + syms.len() < u32::MAX - 1,
    ensures
        ({
            let after = seed::symbols_seeded(s, obj, syms, origin).table;
            &&& seeded(after)
            &&& after.names.len() <= s.table.names.len() + syms.len()
            &&& forall|k: int|
                0 <= k < syms.len() && worth(obj, #[trigger] syms[k]) >= 0 ==> standing(
                    after,
                    obj.name_of(syms[k])->Ok_0,
                ) >= worth(obj, syms[k])
            &&& forall|other: Seq<char>|
                #![trigger standing(after, other)]
                standing(after, other) >= standing(s.table, other)
        }),
    decreases syms.len(),
{
    if syms.len() > 0 {
        let front = syms.drop_last();
        law_object_symbols_count(s, obj, front, origin);
        let before = seed::symbols_seeded(s, obj, front, origin);
        let after = seed::symbols_seeded(s, obj, syms, origin).table;
        lemma_symbol(before, obj, syms.last(), origin);
        assert forall|k: int| 0 <= k < syms.len() && worth(obj, #[trigger] syms[k]) >= 0 implies
            standing(after, obj.name_of(syms[k])->Ok_0) >= worth(obj, syms[k]) by {
            if k < front.len() {
                assert(front[k] == syms[k]);
                assert(standing(after, obj.name_of(syms[k])->Ok_0) >= standing(
                    before.table,
                    obj.name_of(syms[k])->Ok_0,
                ));
            }
        }
        assert forall|other: Seq<char>| #![trigger standing(after, other)] standing(after, other)
            >= standing(s.table, other) by {
            assert(standing(before.table, other) >= standing(s.table, other));
        }
    }
}

/// Every name that a dylib exports stands, once the dylib is seeded, for an import at least,
/// and no name stands for less than before.
pub proof fn law_exports_count(
    s: Seeding,
    entries: Seq<ExportModel>,
    dylib: DylibId,
    ordinal: u16,
)
    requires
        seeded(s.table),
        s.table.names.len() + entries.len() < u32::MAX - 1,
    ensures
        ({
            let after = seed::exports_seeded(s, entries, dylib, ordinal).table;
            &&& seeded(after)
            &&& after.names.len() <= s.table.names.len() + entries.len()
            &&& forall|k: int|
                0 <= k < entries.len() ==> standing(after, (#[trigger] entries[k]).name) >= 2
            &&& forall|other: Seq<char>|
                #![trigger standing(after, other)]
                standing(after, other) >= standing(s.table, other)
        }),
    decreases entries.len(),
{
    if entries.len() > 0 {
        let front = entries.drop_last();
        law_exports_count(s, front, dylib, ordinal);
        let before = seed::exports_seeded(s, front, dylib, ordinal);
        let after = seed::exports_seeded(s, entries, dylib, ordinal).table;
        let e = entries.last();
        lemma_named_put(
            before,
            e.name,
            Symbol::DylibImport {
                name: before.handle(e.name),
                dylib,
                ordinal,
                weak_import: e.weak(),
            },
        );
        assert forall|k: int| 0 <= k < entries.len() implies standing(
            after,
            (#[trigger] entries[k]).name,
        ) >= 2 by {
            if k < front.len() {
                assert(front[k] == entries[k]);
                assert(standing(after, entries[k].name) >= standing(
                    before.table,
                    entries[k].name,
                ));
            }
        }
        assert forall|other: Seq<char>| #![trigger standing(after, other)] standing(after, other)
            >= standing(s.table, other) by {
            assert(standing(before.table, other) >= standing(s.table, other));
        }
    }
}

/// An export whose name nothing better stands for becomes an import from its dylib.
pub proof fn law_export_is_taken(
    s: Seeding,
    entries: Seq<ExportModel>,
    dylib: DylibId,
    ordinal: u16,
)
    requires
        seeded(s.table),
        s.table.names.len() + entries.len() < u32::MAX - 1,
        entries.len() > 0,
        standing(
            seed::exports_seeded(s, entries.drop_last(), dylib, ordinal).table,
            entries.last().name,
        ) < 2,
    ensures
        ({
            let after = seed::exports_seeded(s, entries, dylib, ordinal).table;
            let name = entries.last().name;
            let held = after.at(after.by_name[after.names.index_of(name) as u32]);
            &&& held is DylibImport
            &&& held->DylibImport_dylib == dylib
            &&& held->ordinal == ordinal
            &&& held->weak_import == entries.last().weak()
        }),
{
    let front = entries.drop_last();
    law_exports_count(s, front, dylib, ordinal);
    let before = seed::exports_seeded(s, front, dylib, ordinal);
    let e = entries.last();
    lemma_named_put(
        before,
        e.name,
        Symbol::DylibImport {
            name: before.handle(e.name),
            dylib,
            ordinal,
            weak_import: e.weak(),
        },
    );
}

/// Every name in an archive's index can be had, once the index is seeded, and no name
/// stands for less than before.
pub proof fn law_index_counts(s: Seeding, entries: Seq<IndexModel>, archive: ArchiveId)
    requires
        seeded(s.table),
        s.table.names.len() + entries.len() < u32::MAX - 1,
    ensures
        ({
            let after = seed::index_seeded(s, entries, archive).table;
            &&& seeded(after)
            &&& after.names.len() <= s.table.names.len() + entries.len()
            &&& forall|k: int|
                0 <= k < entries.len() ==> standing(after, (#[trigger] entries[k]).name) >= 1
            &&& forall|other: Seq<char>|
                #![trigger standing(after, other)]
                standing(after, other) >= standing(s.table, other)
        }),
    decreases entries.len(),
{
    if entries.len() > 0 {
        let front = entries.drop_last();
        law_index_counts(s, front, archive);
        let before = seed::index_seeded(s, front, archive);
        let after = seed::index_seeded(s, entries, archive).table;
        let e = entries.last();
        lemma_named_put(
            before,
            e.name,
            Symbol::LazyArchive {
                name: before.handle(e.name),
                archive,
                member: crate::resolve::MemberId(e.member_header_offset),
            },
        );
        assert forall|k: int| 0 <= k < entries.len() implies standing(
            after,
            (#[trigger] entries[k]).name,
        ) >= 1 by {
            if k < front.len() {
                assert(front[k] == entries[k]);
                assert(standing(after, entries[k].name) >= standing(
                    before.table,
                    entries[k].name,
                ));
            }
        }
        assert forall|other: Seq<char>| #![trigger standing(after, other)] standing(after, other)
            >= standing(s.table, other) by {
            assert(standing(before.table, other) >= standing(s.table, other));
        }
    }
}

} // verus!
