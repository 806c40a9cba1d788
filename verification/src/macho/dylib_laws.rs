//! What a dylib exports, seen from what its stub or its symbol table lists.

use vstd::prelude::*;
use crate::macho::dylib;
use crate::macho::dylib::DylibLoadKind;
use crate::macho::exports::{ExportKind, ExportModel, ExportsModel};
use crate::macho::reader::{DysymtabCmd, ReadError, SymtabCmd};
use crate::macho::tbd::{ArchModel, ListsModel, ScopedModel, TargetModel, TbdModel};
use crate::macho::tbd;
use crate::macho::writer::commands::CommandModel;
use crate::string_table;
use crate::symbol;

verus! {

/// Something is for a target: one of its own targets is of that system, and of that
/// architecture or, for `arm64`, of `arm64e`.
pub open spec fn is_for(targets: Seq<TargetModel>, wanted: TargetModel) -> bool {
    exists|i: int|
        0 <= i < targets.len() && (#[trigger] targets[i]).platform == wanted.platform && (
        targets[i].arch == wanted.arch || targets[i].arch == ArchModel::Arm64e && wanted.arch
            == ArchModel::Arm64)
}

/// `name` is one of `names` with `prefix` in front.
pub open spec fn is_prefixed(names: Seq<Seq<char>>, prefix: Seq<char>, name: Seq<char>) -> bool {
    exists|i: int| 0 <= i < names.len() && name == prefix + #[trigger] names[i]
}

/// A name is listed as an ordinary symbol, or as the linker name of a class, an exception
/// type or an instance variable.
pub open spec fn lists_plainly(l: ListsModel, name: Seq<char>) -> bool {
    ||| l.symbols.contains(name)
    ||| is_prefixed(l.objc_classes, "_OBJC_CLASS_$_"@, name)
    ||| is_prefixed(l.objc_eh_types, "_OBJC_EHTYPE_$_"@, name)
    ||| is_prefixed(l.objc_ivars, "_OBJC_IVAR_$_"@, name)
}

/// One of the scopes that are for the target has lists of this kind.
pub open spec fn some_scope(
    scopes: Seq<ScopedModel<ListsModel>>,
    wanted: TargetModel,
    p: spec_fn(ListsModel) -> bool,
) -> bool {
    exists|i: int|
        0 <= i < scopes.len() && is_for((#[trigger] scopes[i]).targets, wanted) && p(
            scopes[i].value,
        )
}

/// The same of what a stub exports itself or passes on.
pub open spec fn stub_says(t: TbdModel, wanted: TargetModel, p: spec_fn(ListsModel) -> bool) -> bool {
    some_scope(t.exports, wanted, p) || some_scope(t.reexports, wanted, p)
}

/// There is an export of this name with these flags.
pub open spec fn has_export(found: Seq<ExportModel>, name: Seq<char>, flags: u64) -> bool {
    exists|k: int|
        0 <= k < found.len() && (#[trigger] found[k]).name == name && found[k].flags == flags
}

proof fn lemma_has_concat(a: Seq<ExportModel>, b: Seq<ExportModel>, name: Seq<char>, flags: u64)
    ensures
        has_export(a + b, name, flags) == (has_export(a, name, flags) || has_export(
            b,
            name,
            flags,
        )),
{
    let c = a + b;
    if has_export(a, name, flags) {
        let k = choose|k: int|
            0 <= k < a.len() && (#[trigger] a[k]).name == name && a[k].flags == flags;
        assert(c[k] == a[k]);
    }
    if has_export(b, name, flags) {
        let k = choose|k: int|
            0 <= k < b.len() && (#[trigger] b[k]).name == name && b[k].flags == flags;
        assert(c[a.len() + k] == b[k]);
    }
    if has_export(c, name, flags) {
        let k = choose|k: int|
            0 <= k < c.len() && (#[trigger] c[k]).name == name && c[k].flags == flags;
        if k < a.len() {
            assert(c[k] == a[k]);
        } else {
            assert(c[k] == b[k - a.len()]);
        }
    }
}

proof fn lemma_regular(
    names: Seq<Seq<char>>,
    prefix: Seq<char>,
    own: u64,
    name: Seq<char>,
    flags: u64,
)
    ensures
        has_export(dylib::regular(names, prefix, own), name, flags) == (own == flags
            && is_prefixed(names, prefix, name)),
        forall|k: int|
            0 <= k < names.len() ==> (#[trigger] dylib::regular(names, prefix, own)[k]).kind == (
            ExportKind::Regular { address: 0 }) && dylib::regular(names, prefix, own)[k].flags
                == own,
{
    let r = dylib::regular(names, prefix, own);
    if own == flags && is_prefixed(names, prefix, name) {
        let i = choose|i: int| 0 <= i < names.len() && name == prefix + #[trigger] names[i];
        assert(r[i].name == name);
    }
    if has_export(r, name, flags) {
        let k = choose|k: int|
            0 <= k < r.len() && (#[trigger] r[k]).name == name && r[k].flags == flags;
        assert(name == prefix + names[k]);
    }
}

proof fn lemma_no_prefix(names: Seq<Seq<char>>, name: Seq<char>)
    ensures
        is_prefixed(names, ""@, name) == names.contains(name),
{
    reveal_strlit("");
    assert forall|i: int| 0 <= i < names.len() implies ""@ + #[trigger] names[i] == names[i] by {
        assert(""@ + names[i] =~= names[i]);
    }
    if names.contains(name) {
        let i = choose|i: int| 0 <= i < names.len() && names[i] == name;
        assert(name == ""@ + names[i]);
    }
}

/// Every export is without an address, and of one of three sorts.
spec fn stub_like(found: Seq<ExportModel>) -> bool {
    forall|k: int|
        0 <= k < found.len() ==> (#[trigger] found[k]).kind == (ExportKind::Regular { address: 0 })
            && (found[k].flags == 0 || found[k].flags == 1 || found[k].flags == 4)
}

proof fn lemma_list(l: ListsModel, name: Seq<char>)
    ensures
        has_export(dylib::list_exports(l), name, 0) == lists_plainly(l, name),
        has_export(dylib::list_exports(l), name, 4) == l.weak_symbols.contains(name),
        has_export(dylib::list_exports(l), name, 1) == l.thread_local_symbols.contains(name),
        stub_like(dylib::list_exports(l)),
{
    let a = dylib::regular(l.symbols, ""@, 0);
    let b = dylib::regular(l.weak_symbols, ""@, 4);
    let c = dylib::regular(l.thread_local_symbols, ""@, 1);
    let d = dylib::regular(l.objc_classes, "_OBJC_CLASS_$_"@, 0);
    let e = dylib::regular(l.objc_eh_types, "_OBJC_EHTYPE_$_"@, 0);
    let f = dylib::regular(l.objc_ivars, "_OBJC_IVAR_$_"@, 0);
    lemma_no_prefix(l.symbols, name);
    lemma_no_prefix(l.weak_symbols, name);
    lemma_no_prefix(l.thread_local_symbols, name);
    lemma_list_flags(l, name, 0);
    lemma_list_flags(l, name, 1);
    lemma_list_flags(l, name, 4);
    let all = dylib::list_exports(l);
    assert(all =~= a + b + c + d + e + f);
    assert forall|k: int| 0 <= k < all.len() implies (#[trigger] all[k]).kind == (
    ExportKind::Regular { address: 0 }) && (all[k].flags == 0 || all[k].flags == 1 || all[k].flags
        == 4) by {
        lemma_regular(l.symbols, ""@, 0, name, 0);
        lemma_regular(l.weak_symbols, ""@, 4, name, 0);
        lemma_regular(l.thread_local_symbols, ""@, 1, name, 0);
        lemma_regular(l.objc_classes, "_OBJC_CLASS_$_"@, 0, name, 0);
        lemma_regular(l.objc_eh_types, "_OBJC_EHTYPE_$_"@, 0, name, 0);
        lemma_regular(l.objc_ivars, "_OBJC_IVAR_$_"@, 0, name, 0);
        let n1 = a.len();
        let n2 = n1 + b.len();
        let n3 = n2 + c.len();
        let n4 = n3 + d.len();
        let n5 = n4 + e.len();
        if k < n1 {
            assert(all[k] == a[k]);
        } else if k < n2 {
            assert(all[k] == b[k - n1]);
        } else if k < n3 {
            assert(all[k] == c[k - n2]);
        } else if k < n4 {
            assert(all[k] == d[k - n3]);
        } else if k < n5 {
            assert(all[k] == e[k - n4]);
        } else {
            assert(all[k] == f[k - n5]);
        }
    }
}

proof fn lemma_list_flags(l: ListsModel, name: Seq<char>, flags: u64)
    ensures
        has_export(dylib::list_exports(l), name, flags) == (flags == 0 && (is_prefixed(
            l.symbols,
            ""@,
            name,
        ) || is_prefixed(l.objc_classes, "_OBJC_CLASS_$_"@, name) || is_prefixed(
            l.objc_eh_types,
            "_OBJC_EHTYPE_$_"@,
            name,
        ) || is_prefixed(l.objc_ivars, "_OBJC_IVAR_$_"@, name)) || flags == 4 && is_prefixed(
            l.weak_symbols,
            ""@,
            name,
        ) || flags == 1 && is_prefixed(l.thread_local_symbols, ""@, name)),
{
    let a = dylib::regular(l.symbols, ""@, 0);
    let b = dylib::regular(l.weak_symbols, ""@, 4);
    let c = dylib::regular(l.thread_local_symbols, ""@, 1);
    let d = dylib::regular(l.objc_classes, "_OBJC_CLASS_$_"@, 0);
    let e = dylib::regular(l.objc_eh_types, "_OBJC_EHTYPE_$_"@, 0);
    let f = dylib::regular(l.objc_ivars, "_OBJC_IVAR_$_"@, 0);
    lemma_regular(l.symbols, ""@, 0, name, flags);
    lemma_regular(l.weak_symbols, ""@, 4, name, flags);
    lemma_regular(l.thread_local_symbols, ""@, 1, name, flags);
    lemma_regular(l.objc_classes, "_OBJC_CLASS_$_"@, 0, name, flags);
    lemma_regular(l.objc_eh_types, "_OBJC_EHTYPE_$_"@, 0, name, flags);
    lemma_regular(l.objc_ivars, "_OBJC_IVAR_$_"@, 0, name, flags);
    lemma_has_concat(a, b, name, flags);
    lemma_has_concat(a + b, c, name, flags);
    lemma_has_concat(a + b + c, d, name, flags);
    lemma_has_concat(a + b + c + d, e, name, flags);
    lemma_has_concat(a + b + c + d + e, f, name, flags);
    assert(dylib::list_exports(l) =~= a + b + c + d + e + f);
}

proof fn lemma_serves(targets: Seq<TargetModel>, wanted: TargetModel)
    ensures
        tbd::any_serves(targets, wanted) == is_for(targets, wanted),
{
    if tbd::any_serves(targets, wanted) {
        let i = choose|i: int| 0 <= i < targets.len() && (#[trigger] targets[i]).serves(wanted);
        assert(targets[i].platform == wanted.platform);
    }
    if is_for(targets, wanted) {
        let i = choose|i: int|
            0 <= i < targets.len() && (#[trigger] targets[i]).platform == wanted.platform && (
            targets[i].arch == wanted.arch || targets[i].arch == ArchModel::Arm64e && wanted.arch
                == ArchModel::Arm64);
        assert(targets[i].serves(wanted));
    }
}

proof fn lemma_scopes(scopes: Seq<ScopedModel<ListsModel>>, wanted: TargetModel, name: Seq<char>)
    ensures
        has_export(dylib::scoped_exports(scopes, wanted), name, 0) == some_scope(
            scopes,
            wanted,
            |l: ListsModel| lists_plainly(l, name),
        ),
        has_export(dylib::scoped_exports(scopes, wanted), name, 4) == some_scope(
            scopes,
            wanted,
            |l: ListsModel| l.weak_symbols.contains(name),
        ),
        has_export(dylib::scoped_exports(scopes, wanted), name, 1) == some_scope(
            scopes,
            wanted,
            |l: ListsModel| l.thread_local_symbols.contains(name),
        ),
        stub_like(dylib::scoped_exports(scopes, wanted)),
    decreases scopes.len(),
{
    let plain = |l: ListsModel| lists_plainly(l, name);
    let weak = |l: ListsModel| l.weak_symbols.contains(name);
    let own = |l: ListsModel| l.thread_local_symbols.contains(name);
    if scopes.len() > 0 {
        let front = scopes.drop_last();
        let rest = dylib::scoped_exports(front, wanted);
        let last = scopes.last();
        lemma_scopes(front, wanted, name);
        lemma_serves(last.targets, wanted);
        lemma_some_push(front, last, wanted, plain);
        lemma_some_push(front, last, wanted, weak);
        lemma_some_push(front, last, wanted, own);
        assert(front.push(last) =~= scopes);
        lemma_list(last.value, name);
        let more = dylib::list_exports(last.value);
        lemma_has_concat(rest, more, name, 0);
        lemma_has_concat(rest, more, name, 1);
        lemma_has_concat(rest, more, name, 4);
        let all = dylib::scoped_exports(scopes, wanted);
        assert forall|k: int| 0 <= k < all.len() implies (#[trigger] all[k]).kind == (
        ExportKind::Regular { address: 0 }) && (all[k].flags == 0 || all[k].flags == 1
            || all[k].flags == 4) by {
            if k < rest.len() {
                assert(all[k] == rest[k]);
            } else {
                assert(all[k] == more[k - rest.len()]);
            }
        }
    }
}

proof fn lemma_some_push(
    scopes: Seq<ScopedModel<ListsModel>>,
    last: ScopedModel<ListsModel>,
    wanted: TargetModel,
    p: spec_fn(ListsModel) -> bool,
)
    ensures
        some_scope(scopes.push(last), wanted, p) == (some_scope(scopes, wanted, p) || is_for(
            last.targets,
            wanted,
        ) && p(last.value)),
{
    let all = scopes.push(last);
    if some_scope(scopes, wanted, p) {
        let i = choose|i: int|
            0 <= i < scopes.len() && is_for((#[trigger] scopes[i]).targets, wanted) && p(
                scopes[i].value,
            );
        assert(all[i] == scopes[i]);
    }
    if is_for(last.targets, wanted) && p(last.value) {
        assert(all[scopes.len() as int] == last);
    }
    if some_scope(all, wanted, p) {
        let i = choose|i: int|
            0 <= i < all.len() && is_for((#[trigger] all[i]).targets, wanted) && p(all[i].value);
        if i < scopes.len() {
            assert(all[i] == scopes[i]);
        }
    }
}

/// A stub exports a name for a target exactly if one of its scopes for the target lists
/// it: as a symbol or as the linker name of a class, an exception type or an instance
/// variable, as a weak symbol, or as a thread-local one. The export is a weak definition
/// exactly if the name is listed as a weak symbol, and thread-local exactly if it is
/// listed as such. None has an address.
pub proof fn law_stub_exports_what_it_lists(t: TbdModel, wanted: TargetModel, name: Seq<char>)
    ensures
        has_export(dylib::stub_exports(t, wanted), name, 0) == stub_says(
            t,
            wanted,
            |l: ListsModel| lists_plainly(l, name),
        ),
        has_export(dylib::stub_exports(t, wanted), name, 4) == stub_says(
            t,
            wanted,
            |l: ListsModel| l.weak_symbols.contains(name),
        ),
        has_export(dylib::stub_exports(t, wanted), name, 1) == stub_says(
            t,
            wanted,
            |l: ListsModel| l.thread_local_symbols.contains(name),
        ),
        forall|k: int|
            0 <= k < dylib::stub_exports(t, wanted).len() ==> (#[trigger] dylib::stub_exports(
                t,
                wanted,
            )[k]).kind == (ExportKind::Regular { address: 0 }) && (dylib::stub_exports(
                t,
                wanted,
            )[k].flags == 0 || dylib::stub_exports(t, wanted)[k].flags == 1 || dylib::stub_exports(
                t,
                wanted,
            )[k].flags == 4),
{
    let a = dylib::scoped_exports(t.exports, wanted);
    let b = dylib::scoped_exports(t.reexports, wanted);
    lemma_scopes(t.exports, wanted, name);
    lemma_scopes(t.reexports, wanted, name);
    lemma_has_concat(a, b, name, 0);
    lemma_has_concat(a, b, name, 1);
    lemma_has_concat(a, b, name, 4);
    let all = dylib::stub_exports(t, wanted);
    assert forall|k: int| 0 <= k < all.len() implies (#[trigger] all[k]).kind == (
    ExportKind::Regular { address: 0 }) && (all[k].flags == 0 || all[k].flags == 1 || all[k].flags
        == 4) by {
        if k < a.len() {
            assert(all[k] == a[k]);
        } else {
            assert(all[k] == b[k - a.len()]);
        }
    }
}

/// One of the scopes that are for the target names this library.
pub open spec fn names_library(
    scopes: Seq<ScopedModel<Seq<Seq<char>>>>,
    wanted: TargetModel,
    name: Seq<char>,
) -> bool {
    exists|i: int|
        0 <= i < scopes.len() && is_for((#[trigger] scopes[i]).targets, wanted)
            && scopes[i].value.contains(name)
}

proof fn lemma_libraries(
    scopes: Seq<ScopedModel<Seq<Seq<char>>>>,
    wanted: TargetModel,
    name: Seq<char>,
)
    ensures
        dylib::scoped_libraries(scopes, wanted).contains(name) == names_library(
            scopes,
            wanted,
            name,
        ),
    decreases scopes.len(),
{
    let all = dylib::scoped_libraries(scopes, wanted);
    if scopes.len() > 0 {
        let front = scopes.drop_last();
        let rest = dylib::scoped_libraries(front, wanted);
        let last = scopes.last();
        lemma_libraries(front, wanted, name);
        lemma_serves(last.targets, wanted);
        if names_library(front, wanted, name) {
            let i = choose|i: int|
                0 <= i < front.len() && is_for((#[trigger] front[i]).targets, wanted)
                    && front[i].value.contains(name);
            assert(scopes[i] == front[i]);
        }
        if is_for(last.targets, wanted) && last.value.contains(name) {
            assert(scopes[scopes.len() - 1] == last);
        }
        if names_library(scopes, wanted, name) {
            let i = choose|i: int|
                0 <= i < scopes.len() && is_for((#[trigger] scopes[i]).targets, wanted)
                    && scopes[i].value.contains(name);
            if i < front.len() {
                assert(scopes[i] == front[i]);
            }
        }
        if is_for(last.targets, wanted) {
            let more = last.value;
            if rest.contains(name) {
                let k = choose|k: int| 0 <= k < rest.len() && rest[k] == name;
                assert(all[k] == name);
            }
            if more.contains(name) {
                let k = choose|k: int| 0 <= k < more.len() && more[k] == name;
                assert(all[rest.len() + k] == name);
            }
            if all.contains(name) {
                let k = choose|k: int| 0 <= k < all.len() && all[k] == name;
                if k < rest.len() {
                    assert(rest[k] == name);
                } else {
                    assert(more[k - rest.len()] == name);
                }
            }
        }
    }
}

/// A stub depends on a library exactly if one of its scopes for the target passes the
/// library's exports on, and it depends on it in that way only.
pub proof fn law_stub_passes_libraries_on(t: TbdModel, wanted: TargetModel, name: Seq<char>)
    ensures
        (exists|k: int|
            0 <= k < dylib::stub_dependencies(t, wanted).len() && (
            #[trigger] dylib::stub_dependencies(t, wanted)[k]).install_name == name)
            == names_library(t.reexported_libraries, wanted, name),
        forall|k: int|
            0 <= k < dylib::stub_dependencies(t, wanted).len() ==> (
            #[trigger] dylib::stub_dependencies(t, wanted)[k]).kind == DylibLoadKind::Reexport && (k
                < 0xffff ==> dylib::stub_dependencies(t, wanted)[k].ordinal == k + 1),
{
    let names = dylib::scoped_libraries(t.reexported_libraries, wanted);
    let deps = dylib::stub_dependencies(t, wanted);
    lemma_libraries(t.reexported_libraries, wanted, name);
    if names.contains(name) {
        let k = choose|k: int| 0 <= k < names.len() && names[k] == name;
        assert(deps[k].install_name == name);
    }
}

proof fn lemma_symbol_exports(
    symbols: Seq<symbol::InputSymbol>,
    strings: Seq<u8>,
    i: int,
    end: int,
    done: Seq<ExportModel>,
)
    requires
        i <= end,
        dylib::symbol_exports(symbols, strings, i, end, done) is Ok,
    ensures
        ({
            let r = dylib::symbol_exports(symbols, strings, i, end, done)->Ok_0;
            &&& r.len() == done.len() + (end - i)
            &&& forall|k: int| 0 <= k < done.len() ==> #[trigger] r[k] == done[k]
            &&& forall|j: int|
                i <= j < end ==> {
                    let e = r[done.len() + j - i];
                    &&& string_table::name_at(strings, (#[trigger] symbols[j]).raw.strx) == Ok::<
                        _,
                        ReadError,
                    >(e.name)
                    &&& e.kind == (ExportKind::Regular { address: symbols[j].raw.n_value })
                    &&& e.flags == if symbols[j].raw.n_desc & 0x80 != 0 {
                        4u64
                    } else {
                        0
                    }
                }
        }),
    decreases end - i,
{
    if i < end {
        let name = string_table::name_at(strings, symbols[i].raw.strx)->Ok_0;
        let next = done.push(dylib::symbol_export(name, symbols[i]));
        lemma_symbol_exports(symbols, strings, i + 1, end, next);
        let r = dylib::symbol_exports(symbols, strings, i, end, done)->Ok_0;
        assert(r[done.len() as int] == next[done.len() as int]);
        assert forall|k: int| 0 <= k < done.len() implies #[trigger] r[k] == done[k] by {
            assert(r[k] == next[k]);
        }
    }
}

/// The command at `i` is the only symbol table that is named.
pub open spec fn only_symtab(cmds: Seq<CommandModel>, i: int, s: SymtabCmd) -> bool {
    &&& 0 <= i < cmds.len()
    &&& cmds[i] == CommandModel::Symtab(s)
    &&& forall|k: int| 0 <= k < cmds.len() && k != i ==> !((#[trigger] cmds[k]) is Symtab)
}

pub open spec fn only_dysymtab(cmds: Seq<CommandModel>, i: int, d: DysymtabCmd) -> bool {
    &&& 0 <= i < cmds.len()
    &&& cmds[i] == CommandModel::Dysymtab(d)
    &&& forall|k: int| 0 <= k < cmds.len() && k != i ==> !((#[trigger] cmds[k]) is Dysymtab)
}

proof fn lemma_only_symtab(cmds: Seq<CommandModel>, i: int, s: SymtabCmd)
    requires
        only_symtab(cmds, i, s),
    ensures
        dylib::last_symtab(cmds) == Some(s),
    decreases cmds.len(),
{
    if i < cmds.len() - 1 {
        assert(!(cmds[cmds.len() - 1] is Symtab));
        let front = cmds.drop_last();
        assert forall|k: int| 0 <= k < front.len() && k != i implies !((
        #[trigger] front[k]) is Symtab) by {
            assert(front[k] == cmds[k]);
        }
        lemma_only_symtab(front, i, s);
    }
}

proof fn lemma_only_dysymtab(cmds: Seq<CommandModel>, i: int, d: DysymtabCmd)
    requires
        only_dysymtab(cmds, i, d),
    ensures
        dylib::last_dysymtab(cmds) == Some(d),
    decreases cmds.len(),
{
    if i < cmds.len() - 1 {
        assert(!(cmds[cmds.len() - 1] is Dysymtab));
        let front = cmds.drop_last();
        assert forall|k: int| 0 <= k < front.len() && k != i implies !((
        #[trigger] front[k]) is Dysymtab) by {
            assert(front[k] == cmds[k]);
        }
        lemma_only_dysymtab(front, i, d);
    }
}

/// A dylib without an export trie exports the external definitions of its symbol table:
/// all of them, each under its name in the string table and at its value, as a weak
/// definition exactly if it is marked as one.
pub proof fn law_symbol_table_is_exported(
    cmds: Seq<CommandModel>,
    file: Seq<u8>,
    i: int,
    s: SymtabCmd,
    j: int,
    d: DysymtabCmd,
    k: int,
)
    requires
        only_symtab(cmds, i, s),
        only_dysymtab(cmds, j, d),
        dylib::legacy_exports(cmds, file) is Ok,
        0 <= k < d.nextdefsym,
    ensures
        dylib::legacy_exports(cmds, file)->Ok_0 is Listed,
        ({
            let found = dylib::legacy_exports(cmds, file)->Ok_0->Listed_0;
            let sym = symbol::RawNlist::decoded(file, s.symoff + 16 * (d.iextdefsym + k));
            &&& found.len() == d.nextdefsym
            &&& string_table::name_at(
                file.subrange(s.stroff as int, s.stroff + s.strsize),
                sym.strx,
            ) == Ok::<_, ReadError>(found[k].name)
            &&& found[k].kind == (ExportKind::Regular { address: sym.n_value })
            &&& found[k].flags == if sym.n_desc & 0x80 != 0 {
                4u64
            } else {
                0
            }
        }),
{
    lemma_only_symtab(cmds, i, s);
    lemma_only_dysymtab(cmds, j, d);
    let symbols = symbol::nlist_table_of(file, s.symoff, s.nsyms)->Ok_0;
    let strings = file.subrange(s.stroff as int, s.stroff + s.strsize);
    lemma_symbol_exports(
        symbols,
        strings,
        d.iextdefsym as int,
        d.iextdefsym + d.nextdefsym,
        seq![],
    );
    let at = d.iextdefsym + k;
    assert(symbols[at].raw == symbol::RawNlist::decoded(file, s.symoff + 16 * at));
}

/// The command loads a dylib.
pub open spec fn loads(c: CommandModel) -> bool {
    match c {
        CommandModel::Dylib { cmd, .. } => cmd == 0xc || cmd == 0x8000_0018 || cmd == 0x8000_001f
            || cmd == 0x8000_0023,
        _ => false,
    }
}

/// How many of the first `n` commands load dylibs.
pub open spec fn loads_before(cmds: Seq<CommandModel>, n: int) -> nat
    decreases n,
{
    if n <= 0 {
        0
    } else {
        loads_before(cmds, n - 1) + if loads(cmds[n - 1]) {
            1nat
        } else {
            0nat
        }
    }
}

/// The dependency is what the command says.
pub open spec fn is_loaded_by(d: dylib::DependencyModel, c: CommandModel) -> bool {
    match c {
        CommandModel::Dylib { cmd, name, current_version, compatibility_version, .. } => {
            &&& d.install_name == name
            &&& d.current_version == current_version
            &&& d.compatibility_version == compatibility_version
            &&& cmd == 0xc ==> d.kind is Normal
            &&& cmd == 0x8000_0018 ==> d.kind is Weak
            &&& cmd == 0x8000_001f ==> d.kind is Reexport
            &&& cmd == 0x8000_0023 ==> d.kind is Upward
        },
        _ => false,
    }
}

proof fn lemma_found(cmds: Seq<CommandModel>, i: int, f: dylib::Found)
    requires
        0 <= i <= cmds.len(),
        dylib::found_from(cmds, i, f) is Ok,
        f.dependencies.len() == loads_before(cmds, i),
    ensures
        ({
            let out = dylib::found_from(cmds, i, f)->Ok_0;
            &&& out.dependencies.len() == loads_before(cmds, cmds.len() as int)
            &&& f.dependencies.len() <= out.dependencies.len()
            &&& forall|k: int|
                0 <= k < f.dependencies.len() ==> #[trigger] out.dependencies[k]
                    == f.dependencies[k]
            &&& forall|x: int|
                i <= x < cmds.len() && loads(#[trigger] cmds[x]) ==> loads_before(cmds, x)
                    < out.dependencies.len() && is_loaded_by(
                    out.dependencies[loads_before(cmds, x) as int],
                    cmds[x],
                )
        }),
    decreases cmds.len() - i,
{
    if i < cmds.len() {
        let g = dylib::with_command(f, cmds[i])->Ok_0;
        assert(loads_before(cmds, i + 1) == loads_before(cmds, i) + if loads(cmds[i]) {
            1nat
        } else {
            0nat
        });
        lemma_found(cmds, i + 1, g);
        let out = dylib::found_from(cmds, i, f)->Ok_0;
        assert forall|k: int| 0 <= k < f.dependencies.len() implies #[trigger] out.dependencies[k]
            == f.dependencies[k] by {
            assert(g.dependencies[k] == f.dependencies[k]);
        }
        if loads(cmds[i]) {
            assert(out.dependencies[f.dependencies.len() as int]
                == g.dependencies[f.dependencies.len() as int]);
        }
    }
}

/// A dylib depends on exactly the dylibs that its load commands name, in their order, each
/// loaded as its command says.
pub proof fn law_dependencies_are_the_loads(cmds: Seq<CommandModel>, x: int)
    requires
        dylib::found_from(cmds, 0, dylib::nothing_found()) is Ok,
        0 <= x < cmds.len(),
        loads(cmds[x]),
    ensures
        ({
            let deps = (dylib::found_from(cmds, 0, dylib::nothing_found())->Ok_0).dependencies;
            &&& deps.len() == loads_before(cmds, cmds.len() as int)
            &&& loads_before(cmds, x) < deps.len()
            &&& is_loaded_by(deps[loads_before(cmds, x) as int], cmds[x])
        }),
{
    lemma_found(cmds, 0, dylib::nothing_found());
}

/// The command names an export trie: where it starts in the file, and its size.
pub open spec fn trie_of(c: CommandModel) -> Option<(u32, u32)> {
    match c {
        CommandModel::DyldInfoOnly(d) => Some((d.export_off, d.export_size)),
        CommandModel::DyldExportsTrie(l) => Some((l.dataoff, l.datasize)),
        _ => None,
    }
}

proof fn lemma_trie(cmds: Seq<CommandModel>, i: int, named: bool, file: Seq<u8>, x: int)
    requires
        0 <= i <= x < cmds.len(),
        trie_of(cmds[x]) is Some,
        (trie_of(cmds[x])->0).1 != 0,
        forall|y: int|
            i <= y < x && trie_of(#[trigger] cmds[y]) is Some ==> (trie_of(cmds[y])->0).1 == 0,
    ensures
        dylib::exports_from(cmds, i, named, file) == dylib::trie_at(
            file,
            (trie_of(cmds[x])->0).0,
            (trie_of(cmds[x])->0).1,
        ),
    decreases x - i,
{
    if i < x {
        let seen = named || trie_of(cmds[i]) is Some;
        lemma_trie(cmds, i + 1, seen, file, x);
        assert(trie_of(cmds[i]) is Some ==> (trie_of(cmds[i])->0).1 == 0);
    }
}

/// A dylib's exports are the bytes of the first export trie of some size that its commands
/// name.
pub proof fn law_first_trie_is_used(cmds: Seq<CommandModel>, file: Seq<u8>, x: int)
    requires
        0 <= x < cmds.len(),
        trie_of(cmds[x]) is Some,
        (trie_of(cmds[x])->0).1 != 0,
        forall|y: int|
            0 <= y < x && trie_of(#[trigger] cmds[y]) is Some ==> (trie_of(cmds[y])->0).1 == 0,
        (trie_of(cmds[x])->0).0 + (trie_of(cmds[x])->0).1 <= file.len() <= usize::MAX,
    ensures
        ({
            let (off, size) = trie_of(cmds[x])->0;
            dylib::exports_from(cmds, 0, false, file) == Ok::<ExportsModel, ReadError>(
                ExportsModel::Trie(file.subrange(off as int, off + size)),
            )
        }),
{
    lemma_trie(cmds, 0, false, file, x);
}

proof fn lemma_no_trie(cmds: Seq<CommandModel>, i: int, named: bool, file: Seq<u8>)
    requires
        0 <= i <= cmds.len(),
        forall|y: int|
            i <= y < cmds.len() && trie_of(#[trigger] cmds[y]) is Some ==> (trie_of(
                cmds[y],
            )->0).1 == 0,
    ensures
        named || (exists|y: int| i <= y < cmds.len() && trie_of(#[trigger] cmds[y]) is Some)
            ==> dylib::exports_from(cmds, i, named, file) == Ok::<ExportsModel, ReadError>(
            ExportsModel::Listed(seq![]),
        ),
    decreases cmds.len() - i,
{
    if i < cmds.len() {
        lemma_no_trie(cmds, i + 1, named || trie_of(cmds[i]) is Some, file);
        assert(trie_of(cmds[i]) is Some ==> (trie_of(cmds[i])->0).1 == 0);
        if !named && !(trie_of(cmds[i]) is Some) && exists|y: int|
            i <= y < cmds.len() && trie_of(#[trigger] cmds[y]) is Some {
            let y = choose|y: int| i <= y < cmds.len() && trie_of(#[trigger] cmds[y]) is Some;
            assert(i + 1 <= y);
        }
    }
}

/// A dylib that names only empty tries exports nothing, whatever its symbol table holds.
pub proof fn law_empty_trie_exports_nothing(cmds: Seq<CommandModel>, file: Seq<u8>, x: int)
    requires
        0 <= x < cmds.len(),
        trie_of(cmds[x]) is Some,
        forall|y: int|
            0 <= y < cmds.len() && trie_of(#[trigger] cmds[y]) is Some ==> (trie_of(
                cmds[y],
            )->0).1 == 0,
    ensures
        dylib::exports_from(cmds, 0, false, file) == Ok::<ExportsModel, ReadError>(
            ExportsModel::Listed(seq![]),
        ),
{
    lemma_no_trie(cmds, 0, false, file);
}

} // verus!
