use afs_ld::elf::args::{
    apply_elf_z_policy, elf_mode, read_elf_args, ArgsError, ElfArgs, ElfLinkPolicy, ElfMode,
};
use afs_ld::elf::files::{
    archive_holds_elf, choose_present, dynamic_file_role, library_candidates, missing_library_message,
    resolve_candidates, script_candidates, script_cycle_message, starts_archive, starts_elf,
    static_file_role, FileRole, ScriptStack,
};
use afs_ld::elf::script::{
    collect_script_inputs, linker_script_inputs, parenthesized, script_tokens, strip_c_comments,
};
use afs_ld::elf::{LibrarySearchMode, LinkInput};

fn args(words: &[&str]) -> ElfArgs {
    let list: Vec<String> = words.iter().map(|w| w.to_string()).collect();
    read_elf_args(&list)
}

fn file(path: &str, as_needed: bool, library_search: LibrarySearchMode) -> LinkInput {
    LinkInput::File {
        path: path.into(),
        as_needed,
        library_search,
    }
}

fn lib(name: &str, as_needed: bool, library_search: LibrarySearchMode) -> LinkInput {
    LinkInput::Lib {
        name: name.into(),
        as_needed,
        library_search,
    }
}

const DYNAMIC: LibrarySearchMode = LibrarySearchMode::DynamicPreferred;
const STATIC: LibrarySearchMode = LibrarySearchMode::StaticOnly;

#[test]
fn inputs_keep_their_order_and_policies() {
    let a = args(&[
        "main.o", "-lb", "-Bstatic", "./liba.a", "--as-needed", "-l", "c", "--start-group", "-Bdynamic",
        "-ld", "-)", "--no-as-needed", "x.so", "-L", "/one", "-L/two",
    ]);
    assert_eq!(
        a.inputs,
        vec![
            file("main.o", false, DYNAMIC),
            lib("b", false, DYNAMIC),
            file("./liba.a", false, STATIC),
            lib("c", true, STATIC),
            LinkInput::GroupStart,
            lib("d", true, DYNAMIC),
            LinkInput::GroupEnd,
            file("x.so", false, DYNAMIC),
        ]
    );
    assert_eq!(a.lib_dirs, vec!["/one", "/two"]);
    assert_eq!(a.entry, "_start");
    assert!(a.unsupported.is_empty());
}

#[test]
fn flags_with_values_and_switches() {
    let a = args(&[
        "-o", "out", "-e", "begin", "--dynamic-linker", "/lib/ld.so", "--eh-frame-hdr",
        "--gc-sections", "-z", "now", "-znoexecstack", "-m", "elf_x86_64",
    ]);
    assert_eq!(a.output.as_deref(), Some("out"));
    assert_eq!(a.entry, "begin");
    assert_eq!(a.dynamic_linker.as_deref(), Some("/lib/ld.so"));
    assert!(a.eh_frame_hdr && a.gc_sections && a.elf_emulation);
    assert_eq!(
        a.policy,
        ElfLinkPolicy { executable_stack: Some(false), bind_now: true }
    );
    let off = args(&["--eh-frame-hdr", "--no-eh-frame-hdr", "--gc-sections", "--no-gc-sections"]);
    assert!(!off.eh_frame_hdr && !off.gc_sections);
    assert_eq!(args(&["-o", "first", "-o"]).output, None);
}

#[test]
fn wrong_arguments_are_noted() {
    let a = args(&["-z", "bogus", "-z"]);
    assert_eq!(
        a.error,
        Some(ArgsError::InvalidValue {
            flag: "-z".into(),
            value: "bogus".into(),
            expected: "`execstack`, `noexecstack`, `lazy`, or `now`".into(),
        })
    );
    assert_eq!(
        args(&["-zbogus", "-dynamic-linker"]).error,
        Some(ArgsError::MissingValue("-dynamic-linker".into()))
    );
    assert_eq!(args(&["-z"]).error, Some(ArgsError::MissingValue("-z".into())));
    assert_eq!(
        args(&["-pie", "-m", "other", "-m", "x", "-e"]).unsupported,
        vec!["-pie", "-m other", "-m x", "-e (missing symbol)"]
    );
    assert_eq!(args(&["-m"]).unsupported, vec!["-m (missing emulation)"]);
}

#[test]
fn z_keywords() {
    let mut policy = ElfLinkPolicy::default();
    apply_elf_z_policy("execstack", &mut policy).unwrap();
    assert_eq!(policy.executable_stack, Some(true));
    apply_elf_z_policy("now", &mut policy).unwrap();
    assert!(policy.bind_now);
    apply_elf_z_policy("lazy", &mut policy).unwrap();
    assert!(!policy.bind_now);
    let before = policy;
    assert!(apply_elf_z_policy("relro", &mut policy).is_err());
    assert_eq!(policy, before);
}

#[test]
fn the_mode_follows_the_arguments() {
    assert!(matches!(elf_mode(&args(&["-z"]), true), ElfMode::BadArguments(_)));
    assert!(matches!(elf_mode(&args(&["a.o"]), false), ElfMode::NotElf));
    assert!(matches!(elf_mode(&args(&["a.o"]), true), ElfMode::NoOutput));
    assert!(matches!(elf_mode(&args(&["-melf_x86_64"]), false), ElfMode::NoOutput));
    match elf_mode(&args(&["-melf_x86_64", "-pie", "-x"]), false) {
        ElfMode::Unsupported(message) => assert_eq!(
            message,
            "ELF mode does not support: -pie -x — PIE and shared-object output land in a later rung"
        ),
        other => panic!("{other:?}"),
    }
    match elf_mode(&args(&["-o", "out", "a.o", "--dynamic-linker", "ld"]), true) {
        ElfMode::Link { output, dynamic } => {
            assert_eq!(output, "out");
            assert!(dynamic);
        }
        other => panic!("{other:?}"),
    }
}

fn text(chars: Vec<char>) -> String {
    chars.into_iter().collect()
}

#[test]
fn comments_are_stripped() {
    assert_eq!(text(strip_c_comments("a /* b */ c")), "a  c");
    assert_eq!(text(strip_c_comments("/*/ x */y")), "y");
    assert_eq!(text(strip_c_comments("a/* open")), "a");
    assert_eq!(text(strip_c_comments("a / * b")), "a / * b");
    assert_eq!(text(strip_c_comments("/")), "/");
    // Bytes stand for characters of their own.
    assert_eq!(text(strip_c_comments("\u{e9}")), "\u{c3}\u{a9}");
}

#[test]
fn tokens_end_at_white_space_and_marks() {
    let script: Vec<char> = "GROUP(a.so,-lb AS_NEEDED ( c ))".chars().collect();
    assert_eq!(
        script_tokens(&script),
        vec!["GROUP", "(", "a.so", ",", "-lb", "AS_NEEDED", "(", "c", ")", ")"]
    );
    assert!(script_tokens(&vec![' ', '\n']).is_empty());
}

#[test]
fn brackets_are_matched() {
    let tokens: Vec<String> = ["x", "(", "a", "(", ")", ")", "("].iter().map(|s| s.to_string()).collect();
    assert_eq!(parenthesized(&tokens, 1), Some(5));
    assert_eq!(parenthesized(&tokens, 3), Some(4));
    assert_eq!(parenthesized(&tokens, 0), None);
    assert_eq!(parenthesized(&tokens, 6), None);
    assert_eq!(parenthesized(&tokens, 99), None);
}

#[test]
fn scripts_name_inputs() {
    let script = b"/* GNU ld script */\nOUTPUT_FORMAT(elf64-x86-64)\nGROUP ( /lib/libc.so.6 -lnon \
                   AS_NEEDED ( ld.so INPUT(inner.o) ) -O )\nINPUT(extra.o)\n";
    assert_eq!(
        linker_script_inputs(script, false, STATIC).unwrap(),
        vec![
            LinkInput::GroupStart,
            file("/lib/libc.so.6", false, STATIC),
            lib("non", false, STATIC),
            file("ld.so", true, STATIC),
            file("inner.o", true, STATIC),
            LinkInput::GroupEnd,
            file("extra.o", false, STATIC),
        ]
    );
    assert!(linker_script_inputs(b"nothing here", false, DYNAMIC).is_none());
    assert!(linker_script_inputs(b"GROUP", false, DYNAMIC).is_none());
    assert!(linker_script_inputs(b"INPUT()", false, DYNAMIC).is_none());
    assert!(linker_script_inputs(&[0x47, 0xff], false, DYNAMIC).is_none());
}

#[test]
fn unclosed_brackets_name_files() {
    let tokens: Vec<String> = ["GROUP", "(", "a", "-l"].iter().map(|s| s.to_string()).collect();
    let mut out = Vec::new();
    collect_script_inputs(&tokens, true, DYNAMIC, &mut out);
    assert_eq!(out, vec![file("a", true, DYNAMIC)]);
}

fn dirs(list: &[&str]) -> Vec<String> {
    list.iter().map(|d| d.to_string()).collect()
}

#[test]
fn libraries_are_looked_for_in_order() {
    assert_eq!(
        library_candidates("z", &dirs(&["/a", "b/"]), true),
        vec!["/a/libz.so", "/a/libz.a", "b/libz.so", "b/libz.a"]
    );
    assert_eq!(
        resolve_candidates("z", &dirs(&["/a"]), true, STATIC),
        vec!["/a/libz.a"]
    );
    assert_eq!(
        resolve_candidates("z", &dirs(&["/a"]), false, DYNAMIC),
        vec!["/a/libz.a"]
    );
    assert_eq!(missing_library_message("z"), "unable to find library -lz");
}

#[test]
fn files_of_scripts_are_looked_for_beside_them() {
    assert_eq!(
        script_candidates("/lib/libc.so", "x.o", &dirs(&["/d"])),
        vec!["/lib/x.o", "/d/x.o"]
    );
    assert_eq!(script_candidates("libc.so", "x.o", &dirs(&[])), vec!["x.o"]);
    assert!(script_candidates("libc.so", "/x.o", &dirs(&["/d"])).is_empty());
}

#[test]
fn the_first_present_candidate_is_chosen() {
    let names = dirs(&["a", "b", "c"]);
    assert_eq!(choose_present(&names, &vec![false, true, true]), Some("b".to_string()));
    assert_eq!(choose_present(&names, &vec![false, false, false]), None);
}

#[test]
fn files_are_told_by_their_first_bytes() {
    assert!(starts_archive(b"!<arch>\nrest"));
    assert!(starts_archive(b"!<thin>\n"));
    assert!(!starts_archive(b"!<arch>"));
    assert!(starts_elf(b"\x7fELF"));
    assert!(!starts_elf(b"\x7fEL"));

    assert!(matches!(static_file_role(b"!<arch>\n", DYNAMIC), FileRole::Archive));
    assert!(matches!(static_file_role(b"\x7fELF", DYNAMIC), FileRole::Object));
    assert!(matches!(static_file_role(b"garbage", DYNAMIC), FileRole::Object));
    match static_file_role(b"INPUT(a.o)", STATIC) {
        FileRole::Script(inputs) => assert_eq!(inputs, vec![file("a.o", false, STATIC)]),
        other => panic!("{other:?}"),
    }

    let mut elf = vec![0x7f, 0x45, 0x4c, 0x46];
    elf.resize(18, 0);
    assert!(matches!(dynamic_file_role(&elf, true, DYNAMIC), FileRole::Object));
    elf[16] = 3;
    assert!(matches!(dynamic_file_role(&elf, true, DYNAMIC), FileRole::Shared));
    assert!(matches!(dynamic_file_role(&elf[..17], true, DYNAMIC), FileRole::Object));
    assert!(matches!(dynamic_file_role(b"!<thin>\n", true, DYNAMIC), FileRole::Archive));
    match dynamic_file_role(b"GROUP(a.o)", true, DYNAMIC) {
        FileRole::Script(inputs) => assert_eq!(inputs[1], file("a.o", true, DYNAMIC)),
        other => panic!("{other:?}"),
    }
}

#[test]
fn scripts_do_not_lead_back_to_themselves() {
    let mut stack = ScriptStack::new();
    assert!(stack.enter("a".to_string()));
    assert!(stack.enter("b".to_string()));
    assert!(!stack.enter("a".to_string()));
    stack.leave();
    assert!(stack.enter("b".to_string()));
    assert_eq!(
        script_cycle_message("a"),
        "linker script cycle involving a"
    );
}

fn archive(members: &[(&str, &[u8])]) -> Vec<u8> {
    let mut out = b"!<arch>\n".to_vec();
    for (name, contents) in members {
        let header = format!(
            "{name:<16}{:<12}{:<6}{:<6}{:<8}{:<10}`\n",
            0,
            0,
            0,
            644,
            contents.len()
        );
        out.extend_from_slice(header.as_bytes());
        out.extend_from_slice(contents);
        if contents.len() % 2 == 1 {
            out.push(b'\n');
        }
    }
    out
}

#[test]
fn archives_are_searched_for_elf_members() {
    assert!(archive_holds_elf(&archive(&[("a.o/", b"\x7fELF..")])));
    assert!(archive_holds_elf(&archive(&[("/", b"abc"), ("b.o/", b"\x7fELF")])));
    assert!(archive_holds_elf(&archive(&[("#1/4", b"name\x7fELF")])));
    assert!(!archive_holds_elf(&archive(&[("a.o/", b"\xcf\xfa\xed\xfe")])));
    assert!(!archive_holds_elf(&archive(&[])));
    assert!(!archive_holds_elf(b"!<thin>\n"));
    let mut short = archive(&[("a.o/", b"\x7fELF..")]);
    short.pop();
    assert!(!archive_holds_elf(&short));
}
