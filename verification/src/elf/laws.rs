//! What the command line, the scripts and the files of an ELF link lead to.

use vstd::prelude::*;
use crate::elf::args;
use crate::elf::args::{ElfModel, ModeModel};
use crate::elf::files;
use crate::elf::files::RoleModel;
use crate::elf::script;
use crate::elf::script::Word;
use crate::elf::{InputModel, LibrarySearchMode};
use crate::path;

verus! {

/// The argument is the name of a file.
pub open spec fn names_file(a: Seq<char>) -> bool {
    a.len() == 0 || a[0] != '-'
}

/// The argument names a library: `-l` and the name in one.
pub open spec fn names_library(a: Seq<char>) -> bool {
    a.len() > 2 && a[0] == '-' && a[1] == 'l'
}

/// The inputs from `start` on are what `n` arguments from `from` on name, under these
/// policies.
pub open spec fn named_under(
    found: Seq<InputModel>,
    start: int,
    list: Seq<Seq<char>>,
    from: int,
    n: int,
    as_needed: bool,
    library_search: LibrarySearchMode,
) -> bool {
    &&& start + n <= found.len()
    &&& forall|j: int|
        from <= j < from + n ==> {
            &&& names_file(#[trigger] list[j]) ==> found[start + (j - from)] == (
            InputModel::File { path: list[j], as_needed, library_search })
            &&& names_library(list[j]) ==> found[start + (j - from)] == (InputModel::Lib {
                name: list[j].skip(2),
                as_needed,
                library_search,
            })
        }
}

/// `n` arguments from `from` on name files and libraries.
pub open spec fn are_names(list: Seq<Seq<char>>, from: int, n: int) -> bool {
    &&& 0 <= from
    &&& 0 <= n
    &&& from + n <= list.len()
    &&& forall|j: int|
        from <= j < from + n ==> names_file(#[trigger] list[j]) || names_library(list[j])
}

proof fn lemma_no_value(s: ElfModel, a: Seq<char>, value: Option<Seq<char>>)
    requires
        names_file(a) || names_library(a),
    ensures
        args::value_read(s, a, value) is None,
{
    reveal_strlit("-o");
    reveal_strlit("-L");
    reveal_strlit("-l");
    reveal_strlit("--dynamic-linker");
    reveal_strlit("-dynamic-linker");
    reveal_strlit("-e");
    reveal_strlit("-m");
    reveal_strlit("-z");
}

proof fn lemma_no_switch(s: ElfModel, a: Seq<char>)
    requires
        names_file(a) || names_library(a),
    ensures
        args::switch_read(s, a) is None,
{
    reveal_strlit("--eh-frame-hdr");
    reveal_strlit("--no-eh-frame-hdr");
    reveal_strlit("--gc-sections");
    reveal_strlit("--no-gc-sections");
    reveal_strlit("--start-group");
    reveal_strlit("-(");
    reveal_strlit("--end-group");
    reveal_strlit("-)");
    reveal_strlit("--as-needed");
    reveal_strlit("--no-as-needed");
    reveal_strlit("-melf_x86_64");
    reveal_strlit("-static");
    reveal_strlit("-Bstatic");
    reveal_strlit("-dn");
    reveal_strlit("-non_shared");
    reveal_strlit("-Bdynamic");
    reveal_strlit("-dy");
    reveal_strlit("-call_shared");
}

proof fn lemma_name_read(s: ElfModel, a: Seq<char>)
    requires
        names_file(a) || names_library(a),
    ensures
        names_file(a) ==> args::rest_read(s, a) == s.with_file(a),
        names_library(a) ==> args::rest_read(s, a) == s.with_lib(a.skip(2)),
{
    reveal_strlit("-L");
    reveal_strlit("-l");
    reveal_strlit("-z");
    reveal_strlit("-");
    if a.len() >= 1 {
        assert(a.take(1)[0] == a[0]);
        if a.len() >= 2 {
            assert(a.take(2)[0] == a[0]);
            assert(a.take(2)[1] == a[1]);
        }
    }
    if names_library(a) {
        assert(a.take(2) =~= "-l"@);
    }
}

/// Files and libraries become inputs in the order in which they are named, each under
/// the policies in force there.
pub proof fn law_names_become_inputs(s: ElfModel, list: Seq<Seq<char>>, i: nat, n: nat)
    requires
        are_names(list, i as int, n as int),
    ensures
        named_under(
            args::read_from(s, list, i).inputs,
            s.inputs.len() as int,
            list,
            i as int,
            n as int,
            s.as_needed,
            s.library_search,
        ),
    decreases n,
{
    args::law_inputs_stay(s, list, i);
    if n > 0 {
        let a = list[i as int];
        let value = if i + 1 < list.len() {
            Some(list[(i + 1) as int])
        } else {
            None
        };
        lemma_no_value(s, a, value);
        lemma_no_switch(s, a);
        lemma_name_read(s, a);
        let next = args::rest_read(s, a);
        let found = args::read_from(s, list, i).inputs;
        assert(found == args::read_from(next, list, i + 1).inputs);
        law_names_become_inputs(next, list, i + 1, (n - 1) as nat);
        args::law_inputs_stay(next, list, i + 1);
        let start = s.inputs.len() as int;
        assert(next.inputs.len() == start + 1);
        assert(found[start] == next.inputs[start]);
        assert forall|j: int| i <= j < i + n implies {
            &&& names_file(#[trigger] list[j]) ==> found[start + (j - i)] == (InputModel::File {
                path: list[j],
                as_needed: s.as_needed,
                library_search: s.library_search,
            })
            &&& names_library(list[j]) ==> found[start + (j - i)] == (InputModel::Lib {
                name: list[j].skip(2),
                as_needed: s.as_needed,
                library_search: s.library_search,
            })
        } by {
            if j > i {
                assert(start + (j - i) == start + 1 + (j - (i + 1)));
            }
        }
    }
}

proof fn lemma_switch_values(s: ElfModel, a: Seq<char>, value: Option<Seq<char>>)
    requires
        a == "--as-needed"@ || a == "--no-as-needed"@ || a == "-static"@ || a == "-Bstatic"@ || a
            == "-dn"@ || a == "-non_shared"@ || a == "-Bdynamic"@ || a == "-dy"@ || a
            == "-call_shared"@,
    ensures
        args::value_read(s, a, value) is None,
{
    reveal_strlit("-o");
    reveal_strlit("-L");
    reveal_strlit("-l");
    reveal_strlit("--dynamic-linker");
    reveal_strlit("-dynamic-linker");
    reveal_strlit("-e");
    reveal_strlit("-m");
    reveal_strlit("-z");
    reveal_strlit("--as-needed");
    reveal_strlit("--no-as-needed");
    reveal_strlit("-static");
    reveal_strlit("-Bstatic");
    reveal_strlit("-dn");
    reveal_strlit("-non_shared");
    reveal_strlit("-Bdynamic");
    reveal_strlit("-dy");
    reveal_strlit("-call_shared");
    if a == "--as-needed"@ {
        assert(a.len() == 11 && a[1] == '-' && a[2] == 'a');
    }
    if a == "--no-as-needed"@ {
        assert(a.len() == 14 && a[2] == 'n');
    }
    if a == "-static"@ {
        assert(a.len() == 7);
    }
    if a == "-Bstatic"@ {
        assert(a.len() == 8);
    }
    if a == "-dn"@ {
        assert(a.len() == 3 && a[2] == 'n');
    }
    if a == "-non_shared"@ {
        assert(a.len() == 11 && a[1] == 'n' && a[2] == 'o');
    }
    if a == "-Bdynamic"@ {
        assert(a.len() == 9);
    }
    if a == "-dy"@ {
        assert(a.len() == 3 && a[2] == 'y');
    }
    if a == "-call_shared"@ {
        assert(a.len() == 12 && a[1] == 'c');
    }
}

#[verifier::rlimit(50)]
#[verifier::spinoff_prover]
proof fn lemma_switches(s: ElfModel, a: Seq<char>)
    ensures
        a == "--as-needed"@ ==> args::switch_read(s, a) == Some(ElfModel { as_needed: true, ..s }),
        a == "--no-as-needed"@ ==> args::switch_read(s, a) == Some(
            ElfModel { as_needed: false, ..s },
        ),
        a == "-static"@ || a == "-Bstatic"@ || a == "-dn"@ || a == "-non_shared"@
            ==> args::switch_read(s, a) == Some(
            ElfModel { library_search: LibrarySearchMode::StaticOnly, ..s },
        ),
        a == "-Bdynamic"@ || a == "-dy"@ || a == "-call_shared"@ ==> args::switch_read(s, a)
            == Some(ElfModel { library_search: LibrarySearchMode::DynamicPreferred, ..s }),
{
    reveal_strlit("--eh-frame-hdr");
    reveal_strlit("--no-eh-frame-hdr");
    reveal_strlit("--gc-sections");
    reveal_strlit("--no-gc-sections");
    reveal_strlit("--start-group");
    reveal_strlit("-(");
    reveal_strlit("--end-group");
    reveal_strlit("-)");
    reveal_strlit("--as-needed");
    reveal_strlit("--no-as-needed");
    reveal_strlit("-melf_x86_64");
    reveal_strlit("-static");
    reveal_strlit("-Bstatic");
    reveal_strlit("-dn");
    reveal_strlit("-non_shared");
    reveal_strlit("-Bdynamic");
    reveal_strlit("-dy");
    reveal_strlit("-call_shared");
    if a == "--as-needed"@ {
        assert(a.len() == 11 && a[1] == '-' && a[2] == 'a');
    }
    if a == "--no-as-needed"@ {
        assert(a.len() == 14 && a[2] == 'n');
    }
    if a == "-static"@ {
        assert(a.len() == 7);
    }
    if a == "-Bstatic"@ {
        assert(a.len() == 8);
    }
    if a == "-dn"@ {
        assert(a.len() == 3 && a[2] == 'n');
    }
    if a == "-non_shared"@ {
        assert(a.len() == 11 && a[1] == 'n' && a[2] == 'o');
    }
    if a == "-Bdynamic"@ {
        assert(a.len() == 9);
    }
    if a == "-dy"@ {
        assert(a.len() == 3 && a[2] == 'y');
    }
    if a == "-call_shared"@ {
        assert(a.len() == 12 && a[1] == 'c');
    }
}

/// What is named behind `--as-needed` counts only when it is needed, and what is named
/// behind `--no-as-needed` counts always.
pub proof fn law_as_needed_holds_behind(s: ElfModel, list: Seq<Seq<char>>, i: nat, n: nat)
    requires
        i < list.len(),
        list[i as int] == "--as-needed"@ || list[i as int] == "--no-as-needed"@,
        are_names(list, (i + 1) as int, n as int),
    ensures
        named_under(
            args::read_from(s, list, i).inputs,
            s.inputs.len() as int,
            list,
            (i + 1) as int,
            n as int,
            list[i as int] == "--as-needed"@,
            s.library_search,
        ),
{
    let a = list[i as int];
    let value = if i + 1 < list.len() {
        Some(list[(i + 1) as int])
    } else {
        None
    };
    reveal_strlit("--as-needed");
    reveal_strlit("--no-as-needed");
    lemma_switch_values(s, a, value);
    lemma_switches(s, a);
    let next = ElfModel { as_needed: a == "--as-needed"@, ..s };
    assert(args::read_from(s, list, i) == args::read_from(next, list, i + 1));
    law_names_become_inputs(next, list, i + 1, n);
}

/// What is named behind a switch to static libraries is looked for in archives alone, and
/// behind a switch to dynamic ones as a shared object first.
pub proof fn law_library_kind_holds_behind(s: ElfModel, list: Seq<Seq<char>>, i: nat, n: nat)
    requires
        i < list.len(),
        are_names(list, (i + 1) as int, n as int),
    ensures
        list[i as int] == "-static"@ || list[i as int] == "-Bstatic"@ || list[i as int] == "-dn"@
            || list[i as int] == "-non_shared"@ ==> named_under(
            args::read_from(s, list, i).inputs,
            s.inputs.len() as int,
            list,
            (i + 1) as int,
            n as int,
            s.as_needed,
            LibrarySearchMode::StaticOnly,
        ),
        list[i as int] == "-Bdynamic"@ || list[i as int] == "-dy"@ || list[i as int]
            == "-call_shared"@ ==> named_under(
            args::read_from(s, list, i).inputs,
            s.inputs.len() as int,
            list,
            (i + 1) as int,
            n as int,
            s.as_needed,
            LibrarySearchMode::DynamicPreferred,
        ),
{
    let a = list[i as int];
    let value = if i + 1 < list.len() {
        Some(list[(i + 1) as int])
    } else {
        None
    };
    lemma_switches(s, a);
    if a == "-static"@ || a == "-Bstatic"@ || a == "-dn"@ || a == "-non_shared"@ {
        lemma_switch_values(s, a, value);
        let next = ElfModel { library_search: LibrarySearchMode::StaticOnly, ..s };
        assert(args::read_from(s, list, i) == args::read_from(next, list, i + 1));
        law_names_become_inputs(next, list, i + 1, n);
    }
    if a == "-Bdynamic"@ || a == "-dy"@ || a == "-call_shared"@ {
        lemma_switch_values(s, a, value);
        let next = ElfModel { library_search: LibrarySearchMode::DynamicPreferred, ..s };
        assert(args::read_from(s, list, i) == args::read_from(next, list, i + 1));
        law_names_become_inputs(next, list, i + 1, n);
    }
}

/// The last arguments, a flag and its value, decide: they say where the output goes, where
/// the program starts, who loads it, and where libraries are looked for last.
pub proof fn law_last_value_counts(s: ElfModel, flag: Seq<char>, value: Seq<char>)
    ensures
        ({
            let r = args::read_from(s, seq![flag, value], 0);
            &&& flag == "-o"@ ==> r.output == Some(value) && r.inputs == s.inputs
            &&& flag == "-e"@ ==> r.entry == value && r.inputs == s.inputs
            &&& flag == "--dynamic-linker"@ || flag == "-dynamic-linker"@ ==> r.dynamic_linker
                == Some(value) && r.inputs == s.inputs
            &&& flag == "-L"@ ==> r.lib_dirs == s.lib_dirs.push(value) && r.inputs == s.inputs
        }),
{
    reveal_with_fuel(args::read_from, 2);
    reveal_strlit("-o");
    reveal_strlit("-L");
    reveal_strlit("-l");
    reveal_strlit("--dynamic-linker");
    reveal_strlit("-dynamic-linker");
    reveal_strlit("-e");
    let list = seq![flag, value];
    assert(list.len() == 2 && list[0] == flag && list[1] == value);
    if flag == "-o"@ {
        assert(flag.len() == 2 && flag[1] == 'o');
    }
    if flag == "-e"@ {
        assert(flag.len() == 2 && flag[1] == 'e');
    }
    if flag == "-L"@ {
        assert(flag.len() == 2 && flag[1] == 'L');
    }
    if flag == "--dynamic-linker"@ {
        assert(flag.len() == 16);
    }
    if flag == "-dynamic-linker"@ {
        assert(flag.len() == 15);
    }
}

/// A link without faults that was asked for, and that has an output, is made; it is
/// dynamic if it names who loads the program. A fault is reported before anything else.
pub proof fn law_good_arguments_link(s: ElfModel, selected: bool)
    ensures
        s.error is Some ==> args::mode_of(s, selected) == ModeModel::BadArguments(s.error->0),
        s.error is None && (s.elf_emulation || selected) && s.unsupported.len() == 0
            && s.output is Some ==> args::mode_of(s, selected) == (ModeModel::Link {
            output: s.output->0,
            dynamic: s.dynamic_linker is Some,
        }),
        s.error is None && !s.elf_emulation && !selected ==> args::mode_of(s, selected)
            == ModeModel::NotElf,
{
}

/// A library is looked for in each search directory in turn: where shared objects are
/// wanted, for one first and for an archive behind it, and else for an archive alone.
pub proof fn law_library_places(name: Seq<char>, dirs: Seq<Seq<char>>, d: int)
    requires
        0 <= d < dirs.len(),
    ensures
        files::library_paths(name, dirs, true).len() == 2 * dirs.len(),
        files::library_paths(name, dirs, true)[2 * d] == path::joined(
            dirs[d],
            "lib"@ + name + ".so"@,
        ),
        files::library_paths(name, dirs, true)[2 * d + 1] == path::joined(
            dirs[d],
            "lib"@ + name + ".a"@,
        ),
        files::library_paths(name, dirs, false).len() == dirs.len(),
        files::library_paths(name, dirs, false)[d] == path::joined(
            dirs[d],
            "lib"@ + name + ".a"@,
        ),
    decreases dirs.len(),
{
    reveal_strlit(".");
    reveal_strlit("a");
    reveal_strlit("so");
    reveal_strlit(".a");
    reveal_strlit(".so");
    assert("lib"@ + name + "."@ + "a"@ =~= "lib"@ + name + ".a"@);
    assert("lib"@ + name + "."@ + "so"@ =~= "lib"@ + name + ".so"@);
    let rest = dirs.drop_last();
    lemma_place_count(name, rest);
    if d < dirs.len() - 1 {
        law_library_places(name, rest, d);
    }
}

proof fn lemma_place_count(name: Seq<char>, dirs: Seq<Seq<char>>)
    ensures
        files::library_paths(name, dirs, true).len() == 2 * dirs.len(),
        files::library_paths(name, dirs, false).len() == dirs.len(),
    decreases dirs.len(),
{
    if dirs.len() > 0 {
        lemma_place_count(name, dirs.drop_last());
    }
}

/// Of the places where something may be, the first where it is is taken.
pub proof fn law_first_place_is_taken(present: Seq<bool>, i: nat, k: int)
    requires
        i <= k < present.len(),
        present[k],
        forall|j: int| i <= j < k ==> !present[j],
    ensures
        files::first_present(present, i) == Some(k),
    decreases present.len() - i,
{
    if i < k {
        law_first_place_is_taken(present, i + 1, k);
    }
}

/// An ELF file is an object to a static link. To a dynamic one it is a shared object if
/// its header says so, and an object otherwise.
pub proof fn law_elf_files_have_roles(
    bytes: Seq<u8>,
    as_needed: bool,
    library_search: LibrarySearchMode,
)
    requires
        bytes.len() >= 18,
        bytes[0] == 0x7f,
        bytes[1] == 0x45,
        bytes[2] == 0x4c,
        bytes[3] == 0x46,
    ensures
        files::static_role(bytes, library_search) == RoleModel::Object,
        files::dynamic_role(bytes, as_needed, library_search) == (if bytes[16] == 3 && bytes[17]
            == 0 {
            RoleModel::Shared
        } else {
            RoleModel::Object
        }),
{
    assert(bytes.take(8)[0] == 0x7f);
    assert(files::archive_magic()[0] == 0x21);
    assert(files::thin_magic()[0] == 0x21);
    assert(bytes.take(4) =~= files::elf_magic());
}

/// The token is the name of a file.
pub open spec fn plain(t: Seq<char>) -> bool {
    &&& t.len() > 0
    &&& t[0] != '-'
    &&& t != "GROUP"@
    &&& t != "INPUT"@
    &&& t != "AS_NEEDED"@
    &&& t != "OUTPUT_FORMAT"@
    &&& t != "SEARCH_DIR"@
    &&& t != "("@
    &&& t != ")"@
    &&& t != ","@
}

proof fn lemma_plain(t: Seq<char>)
    requires
        plain(t),
    ensures
        script::word(t) == Word::File,
{
    reveal_strlit("-l");
    reveal_strlit("-");
    assert(t.take(1)[0] == t[0]);
    if t.len() >= 2 {
        assert(t.take(2)[0] == t[0]);
    }
}

proof fn lemma_plain_collected(
    tokens: Seq<Seq<char>>,
    i: nat,
    as_needed: bool,
    library_search: LibrarySearchMode,
)
    requires
        i <= tokens.len(),
        forall|k: int| 0 <= k < tokens.len() ==> plain(#[trigger] tokens[k]),
    ensures
        ({
            let found = script::collected(tokens, i, as_needed, library_search);
            &&& found.len() == tokens.len() - i
            &&& forall|k: int|
                0 <= k < found.len() ==> #[trigger] found[k] == (InputModel::File {
                    path: tokens[i + k],
                    as_needed,
                    library_search,
                })
        }),
    decreases tokens.len() - i,
{
    if i < tokens.len() {
        lemma_plain(tokens[i as int]);
        lemma_plain_collected(tokens, i + 1, as_needed, library_search);
    }
}

proof fn lemma_plain_closing(tokens: Seq<Seq<char>>, i: nat, end: nat)
    requires
        i <= end < tokens.len(),
        forall|k: int| i <= k < end ==> plain(#[trigger] tokens[k]),
        tokens[end as int] == ")"@,
    ensures
        script::closing(tokens, i, 1) == Some(end as int),
    decreases end - i,
{
    reveal_strlit("(");
    reveal_strlit(")");
    assert(tokens[end as int][0] == ')');
    if i < end {
        assert(plain(tokens[i as int]));
        lemma_plain_closing(tokens, i + 1, end);
    }
}

/// `GROUP` with files in brackets names these files in their order as a group, `INPUT`
/// names them without one.
pub proof fn law_script_names_files(
    tokens: Seq<Seq<char>>,
    as_needed: bool,
    library_search: LibrarySearchMode,
)
    requires
        tokens.len() >= 3,
        tokens[0] == "GROUP"@ || tokens[0] == "INPUT"@,
        tokens[1] == "("@,
        forall|k: int| 2 <= k < tokens.len() - 1 ==> plain(#[trigger] tokens[k]),
        tokens[tokens.len() - 1] == ")"@,
    ensures
        ({
            let found = script::listed(tokens, 0, as_needed, library_search);
            let lead: int = if tokens[0] == "GROUP"@ {
                1
            } else {
                0
            };
            &&& found.len() == tokens.len() - 3 + 2 * lead
            &&& tokens[0] == "GROUP"@ ==> found[0] == InputModel::GroupStart && found[found.len()
                - 1] == InputModel::GroupEnd
            &&& forall|k: int|
                2 <= k < tokens.len() - 1 ==> found[k - 2 + lead] == (InputModel::File {
                    path: #[trigger] tokens[k],
                    as_needed,
                    library_search,
                })
        }),
{
    reveal_strlit("GROUP");
    reveal_strlit("INPUT");
    let end = (tokens.len() - 1) as nat;
    lemma_plain_closing(tokens, 2, end);
    let inner = tokens.subrange(2, end as int);
    assert forall|k: int| 0 <= k < inner.len() implies plain(#[trigger] inner[k]) by {
        assert(inner[k] == tokens[k + 2]);
    }
    lemma_plain_collected(inner, 0, as_needed, library_search);
    let found = script::listed(tokens, 0, as_needed, library_search);
    let group = tokens[0] == "GROUP"@;
    let own = script::list(inner, group, as_needed, library_search);
    assert(script::listed(tokens, (end + 1) as nat, as_needed, library_search) =~= seq![]);
    assert(found =~= own);
    let lead: int = if group {
        1
    } else {
        0
    };
    assert forall|k: int| 2 <= k < tokens.len() - 1 implies found[k - 2 + lead] == (
    InputModel::File { path: #[trigger] tokens[k], as_needed, library_search }) by {
        let c = script::collected(inner, 0, as_needed, library_search);
        assert(inner[k - 2] == tokens[k]);
        assert(c[k - 2] == (InputModel::File { path: inner[0 + (k - 2)], as_needed, library_search }));
        assert(own[k - 2 + lead] == c[k - 2]);
    }
}

} // verus!
