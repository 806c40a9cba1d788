use afs_ld::input::ObjectFile;
use afs_ld::macho::constants::{
    CPU_SUBTYPE_ARM64_ALL, CPU_TYPE_ARM64, LC_ID_DYLIB, MH_DYLIB, MH_MAGIC_64, MH_OBJECT, N_ABS,
    N_EXT, N_INDR, N_PEXT, N_SECT, N_UNDF, N_WEAK_DEF, N_WEAK_REF,
};
use afs_ld::macho::dylib::DylibFile;
use afs_ld::macho::exports::{ExportEntry, ExportKind, Exports};
use afs_ld::macho::reader::{
    write_commands, write_header, DylibCmd, LoadCommand, MachHeader64, ReadError,
};
use afs_ld::resolve::{
    classify_unresolved, did_you_mean, drain_fetches, find_archive_by_path, force_load_all,
    force_load_archive, format_duplicate_diagnostic, format_undefined_diagnostic,
    format_undefined_warning_diagnostic, levenshtein, seed_all, seed_dylib, seed_object, ArchiveId,
    ArchiveMember, AtomId, DrainReport, DylibId, DylibLoadMeta, FetchError, IndexEntry,
    InputAddError, InputId, Inputs, InsertError, Istr, MemberContent, MemberId, PendingFetch,
    ReferrerLog, SeedError, SeedReport, Symbol, SymbolId, SymbolKindTag, SymbolTable,
    UndefinedTreatment, Unresolved, FLAT_LOOKUP_ORDINAL,
};
use afs_ld::string_table::StringTable;
use afs_ld::symbol::{InputSymbol, RawNlist};

fn object(path: &str, symbols: &[(&str, u8, u16, u64)]) -> ObjectFile {
    let mut strings = vec![0u8];
    let mut list = Vec::new();
    for &(name, n_type, n_desc, n_value) in symbols {
        let strx = strings.len() as u32;
        strings.extend_from_slice(name.as_bytes());
        strings.push(0);
        list.push(InputSymbol::from_raw(RawNlist {
            strx,
            n_type,
            n_sect: 1,
            n_desc,
            n_value,
        }));
    }
    ObjectFile {
        path: path.into(),
        header: MachHeader64 {
            magic: MH_MAGIC_64,
            cputype: CPU_TYPE_ARM64,
            cpusubtype: CPU_SUBTYPE_ARM64_ALL,
            filetype: MH_OBJECT,
            ncmds: 0,
            sizeofcmds: 0,
            flags: 0,
            reserved: 0,
        },
        commands: Vec::new(),
        sections: Vec::new(),
        symbols: list,
        strings: StringTable::from_bytes(strings),
        symtab: None,
        dysymtab: None,
        loh: Vec::new(),
        data_in_code: Vec::new(),
    }
}

fn member(offset: u32, name: &str, symbols: &[(&str, u8, u16, u64)]) -> ArchiveMember {
    ArchiveMember {
        header_offset: offset,
        name: name.into(),
        is_object: true,
        bytes: vec![offset as u8],
        content: MemberContent::Ready(object(name, symbols)),
    }
}

fn index(entries: &[(&str, u32)]) -> Option<Vec<IndexEntry>> {
    let mut out = Vec::new();
    for &(name, member_header_offset) in entries {
        out.push(IndexEntry {
            name: name.into(),
            member_header_offset,
        });
    }
    Some(out)
}

fn add(inputs: &mut Inputs, path: &str, symbols: &[(&str, u8, u16, u64)]) -> InputId {
    let order = inputs.objects.len();
    inputs.add_parsed_object(path.into(), Vec::new(), object(path, symbols), order)
}

fn dylib(name: &str, exports: Exports) -> DylibFile {
    DylibFile {
        path: name.into(),
        header: object("x", &[]).header,
        commands: Vec::new(),
        install_name: name.into(),
        current_version: 0x10203,
        compatibility_version: 0x10000,
        dependencies: Vec::new(),
        rpaths: Vec::new(),
        symtab: None,
        exports,
    }
}

fn listed(names: &[(&str, u64)]) -> Exports {
    let mut entries = Vec::new();
    for &(name, flags) in names {
        entries.push(ExportEntry {
            name: name.into(),
            flags,
            kind: ExportKind::Regular { address: 0 },
        });
    }
    Exports::from_entries(entries)
}

fn kind_of(table: &SymbolTable, name: &str) -> SymbolKindTag {
    table.get(table.lookup_str(name).unwrap()).kind()
}

const UNDEF: u8 = N_UNDF | N_EXT;
const DEFINED: u8 = N_SECT | N_EXT;

fn no_tries(inputs: &Inputs) -> Vec<Result<Vec<ExportEntry>, ReadError>> {
    inputs.dylibs.iter().map(|_| Ok(vec![])).collect()
}

#[test]
fn handles_count_the_inputs_of_each_kind() {
    let mut inputs = Inputs::new();
    assert_eq!(add(&mut inputs, "a.o", &[]), InputId(0));
    assert_eq!(add(&mut inputs, "b.o", &[]), InputId(1));
    assert_eq!(
        inputs.add_validated_archive("lib.a".into(), 2, None, Vec::new()),
        ArchiveId(0)
    );
    assert_eq!(inputs.object(InputId(1)).path, "b.o");
    assert_eq!(inputs.object(InputId(1)).archive_member_offset, None);
    assert_eq!(inputs.object_file(InputId(0)).path, "a.o");
    assert_eq!(inputs.archive(ArchiveId(0)).path, "lib.a");
    inputs.archive_mut(ArchiveId(0)).load_order = 9;
    assert_eq!(inputs.archive(ArchiveId(0)).load_order, 9);
}

#[test]
fn dylib_ordinals_follow_the_largest_one() {
    let mut inputs = Inputs::new();
    assert_eq!(inputs.next_dylib_ordinal(), 1);
    let first = inputs.add_dylib_from_file("a.dylib".into(), dylib("/a", listed(&[])));
    assert_eq!(inputs.dylib(first).ordinal, 1);
    assert_eq!(inputs.dylib(first).load_install_name, "/a");
    assert_eq!(inputs.dylib(first).load_current_version, 0x10203);
    let second = inputs.add_dylib_from_file_with_meta(
        "b.tbd".into(),
        dylib("/inner", listed(&[])),
        DylibLoadMeta {
            install_name: "/umbrella".into(),
            current_version: 1,
            compatibility_version: 2,
            ordinal: 7,
        },
    );
    assert_eq!(second, DylibId(1));
    assert_eq!(inputs.dylib(second).load_install_name, "/umbrella");
    assert_eq!(inputs.dylib(second).load_compatibility_version, 2);
    assert_eq!(inputs.next_dylib_ordinal(), 8);
}

#[test]
fn a_dylib_is_parsed_when_it_is_added() {
    let command = LoadCommand::Dylib(DylibCmd {
        cmd: LC_ID_DYLIB,
        name: "@rpath/libz.dylib".into(),
        timestamp: 2,
        current_version: 0x20000,
        compatibility_version: 0x10000,
    });
    let header = MachHeader64 {
        filetype: MH_DYLIB,
        ncmds: 1,
        sizeofcmds: command.cmdsize(),
        ..object("x", &[]).header
    };
    let mut image = Vec::new();
    write_header(&header, &mut image);
    write_commands(&[command], &mut image);

    let mut inputs = Inputs::new();
    let id = inputs.add_dylib("libz.dylib".into(), &image).unwrap();
    assert_eq!(inputs.dylib(id).load_install_name, "@rpath/libz.dylib");
    assert_eq!(inputs.dylib(id).ordinal, 1);

    let error = inputs.add_dylib("short".into(), &image[..10]).unwrap_err();
    assert!(matches!(
        error,
        InputAddError::Read(ReadError::Truncated { need: 32, have: 10, .. })
    ));
    assert!(error.to_string().contains("need 32 bytes, have 10"));
    assert_eq!(inputs.dylibs.len(), 1);
}

#[test]
fn archives_are_found_by_path_up_to_slashes_and_dots() {
    let mut inputs = Inputs::new();
    inputs.add_validated_archive("lib/a.a".into(), 0, None, Vec::new());
    inputs.add_validated_archive("./b.a".into(), 1, None, Vec::new());
    inputs.add_validated_archive("lib//a.a".into(), 2, None, Vec::new());
    assert_eq!(find_archive_by_path(&inputs, "lib//./a.a"), Some(ArchiveId(0)));
    assert_eq!(find_archive_by_path(&inputs, "./b.a"), Some(ArchiveId(1)));
    assert_eq!(find_archive_by_path(&inputs, "b.a"), None);
    assert_eq!(find_archive_by_path(&inputs, "/lib/a.a"), None);
}

#[test]
fn referrers_are_noted_once_and_in_order() {
    let mut log = ReferrerLog::new();
    log.add(Istr(3), InputId(5));
    log.add(Istr(3), InputId(1));
    log.add(Istr(3), InputId(5));
    assert_eq!(log.get(Istr(3)), vec![InputId(5), InputId(1)]);
    assert!(log.get(Istr(0)).is_empty());
    assert!(log.get(Istr(9)).is_empty());

    let mut other = ReferrerLog::new();
    other.add(Istr(3), InputId(1));
    other.add(Istr(3), InputId(2));
    other.add(Istr(4), InputId(8));
    log.extend_from(&other);
    assert_eq!(log.get(Istr(3)), vec![InputId(5), InputId(1), InputId(2)]);
    assert_eq!(log.get(Istr(4)), vec![InputId(8)]);
}

#[test]
fn seeding_an_object_takes_what_others_may_see() {
    let mut inputs = Inputs::new();
    let id = add(
        &mut inputs,
        "a.o",
        &[
            ("_def", DEFINED, N_WEAK_DEF, 0x40),
            ("_private", N_SECT | N_EXT | N_PEXT, 0, 0x50),
            ("_local", N_SECT, 0, 0x60),
            ("_debug", 0x24 | N_EXT, 0, 0),
            ("_abs", N_ABS | N_EXT, 0, 7),
            ("_want", UNDEF, N_WEAK_REF, 0),
            ("_common", UNDEF, 3 << 8, 24),
            ("_alias", N_INDR | N_EXT, 0, 1),
        ],
    );
    let mut table = SymbolTable::new();
    let mut report = SeedReport::default();
    seed_object(&inputs, id, &mut table, &mut report);

    let def = table.get(table.lookup_str("_def").unwrap());
    assert!(matches!(
        def,
        Symbol::Defined { value: 0x40, weak: true, private_extern: false, atom: AtomId(0), .. }
    ));
    let private = table.get(table.lookup_str("_private").unwrap());
    assert!(matches!(private, Symbol::Defined { private_extern: true, .. }));
    assert_eq!(kind_of(&table, "_abs"), SymbolKindTag::Defined);
    let want = table.get(table.lookup_str("_want").unwrap());
    assert!(matches!(want, Symbol::Undefined { weak_ref: true, .. }));
    let common = table.get(table.lookup_str("_common").unwrap());
    assert!(matches!(common, Symbol::Common { size: 24, align_pow2: 3, .. }));
    assert_eq!(table.lookup_str("_local"), None);
    assert_eq!(table.lookup_str("_debug"), None);
    // An alias of the file is not followed, but the file does refer to the name.
    assert_eq!(table.lookup_str("_alias"), None);
    let alias = table.interner_get("_alias").unwrap();
    assert_eq!(report.referrers.get(alias), vec![id]);
    assert!(!report.has_errors());
}

#[test]
fn a_symbol_without_a_readable_name_takes_no_part() {
    let mut obj = object("a.o", &[]);
    obj.symbols.push(InputSymbol::from_raw(RawNlist {
        strx: 4000,
        n_type: DEFINED,
        n_sect: 1,
        n_desc: 0,
        n_value: 0,
    }));
    let mut inputs = Inputs::new();
    let id = inputs.add_parsed_object("a.o".into(), Vec::new(), obj, 0);
    let mut table = SymbolTable::new();
    let mut report = SeedReport::default();
    seed_object(&inputs, id, &mut table, &mut report);
    assert!(table.is_empty());
}

#[test]
fn seeding_reports_duplicates_and_goes_on() {
    let mut inputs = Inputs::new();
    add(&mut inputs, "a.o", &[("_x", DEFINED, 0, 0)]);
    add(&mut inputs, "b.o", &[("_x", DEFINED, 0, 0), ("_y", DEFINED, 0, 0)]);
    let mut table = SymbolTable::new();
    let report = seed_all(&inputs, &no_tries(&inputs), &mut table).unwrap();
    assert!(report.has_errors());
    assert_eq!(report.duplicates.len(), 1);
    assert_eq!(
        format_duplicate_diagnostic(&table, &inputs, &report.duplicates[0]),
        "afs-ld: error: duplicate symbol _x\n  defined in a.o\n  also in b.o\n"
    );
    assert_eq!(kind_of(&table, "_y"), SymbolKindTag::Defined);
    let name = table.intern("_x");
    assert_eq!(
        format_duplicate_diagnostic(&table, &inputs, &InsertError::AliasCycle { name }),
        ""
    );
}

#[test]
fn dylib_exports_are_seeded_with_the_ordinal() {
    let mut inputs = Inputs::new();
    inputs.add_dylib_from_file("a".into(), dylib("/a", listed(&[("_one", 0), ("_weak", 4)])));
    let mut table = SymbolTable::new();
    let mut report = SeedReport::default();
    seed_dylib(&inputs, DylibId(0), &Ok(vec![]), &mut table, &mut report).unwrap();
    let one = table.get(table.lookup_str("_one").unwrap());
    assert!(matches!(
        one,
        Symbol::DylibImport { dylib: DylibId(0), ordinal: 1, weak_import: false, .. }
    ));
    let weak = table.get(table.lookup_str("_weak").unwrap());
    assert!(matches!(weak, Symbol::DylibImport { weak_import: true, .. }));

    inputs.add_dylib_from_file("b".into(), dylib("/b", Exports::from_trie_bytes(&[0, 0])));
    // The exports of the second dylib are what its trie was read as.
    let entry = |name: &str, flags: u64, kind: ExportKind| ExportEntry {
        name: name.into(),
        flags,
        kind,
    };
    let tries = vec![
        Ok(vec![]),
        Ok(vec![
            entry("_two", 8, ExportKind::Reexport { ordinal: 1 }),
            entry("_three", 20, ExportKind::StubAndResolver { stub: 16, resolver: 32 }),
        ]),
    ];
    let mut table = SymbolTable::new();
    let report = seed_all(&inputs, &tries, &mut table).unwrap();
    assert!(!report.has_errors());
    assert_eq!(table.len(), 4);
    assert!(matches!(
        table.get(table.lookup_str("_two").unwrap()),
        Symbol::DylibImport { dylib: DylibId(1), ordinal: 2, weak_import: false, .. }
    ));
    assert!(matches!(
        table.get(table.lookup_str("_three").unwrap()),
        Symbol::DylibImport { dylib: DylibId(1), ordinal: 2, weak_import: true, .. }
    ));

    // One that cannot be read ends the seeding; that of a listed dylib is not looked at.
    let broken = ReadError::Truncated { need: 4, have: 2, context: "export trie" };
    let mut table = SymbolTable::new();
    let refused = seed_all(&inputs, &vec![Ok(vec![]), Err(broken)], &mut table).unwrap_err();
    assert_eq!(refused, SeedError::Read(broken));
    assert_eq!(
        refused.to_string(),
        "truncated input while reading export trie: need 4 bytes, have 2"
    );
    assert_eq!(table.len(), 2);
    let mut table = SymbolTable::new();
    seed_dylib(&inputs, DylibId(0), &Err(broken), &mut table, &mut SeedReport::default()).unwrap();
    assert_eq!(table.len(), 2);
}

fn archive_chain() -> Inputs {
    let mut inputs = Inputs::new();
    add(&mut inputs, "main.o", &[("_main", DEFINED, 0, 0), ("_a", UNDEF, 0, 0)]);
    inputs.add_validated_archive(
        "lib/libx.a".into(),
        4,
        index(&[("_a", 8), ("_b", 100), ("_unused", 200)]),
        vec![
            member(8, "a.o", &[("_a", DEFINED, 0, 0), ("_b", UNDEF, 0, 0)]),
            member(100, "b.o", &[("_b", DEFINED, 0, 0)]),
            member(200, "unused.o", &[("_unused", DEFINED, 0, 0)]),
        ],
    );
    inputs
}

#[test]
fn fetching_follows_what_members_want() {
    let mut inputs = archive_chain();
    let mut table = SymbolTable::new();
    let report = seed_all(&inputs, &no_tries(&inputs), &mut table).unwrap();
    assert_eq!(
        report.pending_fetches,
        vec![PendingFetch {
            id: table.lookup_str("_a").unwrap(),
            archive: ArchiveId(0),
            member: MemberId(8),
        }]
    );
    let drained = drain_fetches(&mut inputs, &mut table, report.pending_fetches).unwrap();
    assert_eq!(drained.fetched_members, 2);
    assert_eq!(drained.loaded_paths, vec!["lib/libx.a(a.o)", "lib/libx.a(b.o)"]);
    assert!(drained.duplicates.is_empty());
    assert_eq!(inputs.objects.len(), 3);
    assert_eq!(inputs.objects[1].archive_member_offset, Some(8));
    assert_eq!(inputs.objects[1].load_order, 4);
    assert_eq!(inputs.objects[1].bytes, vec![8]);
    assert_eq!(kind_of(&table, "_b"), SymbolKindTag::Defined);
    assert_eq!(kind_of(&table, "_unused"), SymbolKindTag::LazyArchive);
    let b = table.interner_get("_b").unwrap();
    assert_eq!(drained.referrers.get(b), vec![InputId(1), InputId(2)]);
}

#[test]
fn a_member_is_fetched_once() {
    let mut inputs = archive_chain();
    let mut table = SymbolTable::new();
    let report = seed_all(&inputs, &no_tries(&inputs), &mut table).unwrap();
    let want = report.pending_fetches[0];
    let drained = drain_fetches(&mut inputs, &mut table, vec![want, want]).unwrap();
    assert_eq!(drained.fetched_members, 2);
    let again = drain_fetches(&mut inputs, &mut table, vec![want]).unwrap();
    assert_eq!(again.fetched_members, 0);
    assert_eq!(inputs.objects.len(), 3);
}

#[test]
fn a_slot_that_was_filled_wants_nothing() {
    let mut inputs = archive_chain();
    let mut table = SymbolTable::new();
    let report = seed_all(&inputs, &no_tries(&inputs), &mut table).unwrap();
    let name = table.intern("_a");
    table
        .insert(Symbol::Defined {
            name,
            origin: InputId(0),
            atom: AtomId(0),
            value: 0,
            weak: false,
            private_extern: false,
            no_dead_strip: false,
        })
        .unwrap();
    let drained = drain_fetches(&mut inputs, &mut table, report.pending_fetches).unwrap();
    assert_eq!(drained.fetched_members, 0);
    assert_eq!(inputs.objects.len(), 1);
}

#[test]
fn missing_and_unreadable_members_are_errors() {
    let mut inputs = Inputs::new();
    add(&mut inputs, "main.o", &[("_a", UNDEF, 0, 0)]);
    inputs.add_validated_archive("x.a".into(), 0, index(&[("_a", 0xabc)]), Vec::new());
    let mut table = SymbolTable::new();
    let report = seed_all(&inputs, &no_tries(&inputs), &mut table).unwrap();
    let error = drain_fetches(&mut inputs, &mut table, report.pending_fetches.clone()).unwrap_err();
    assert_eq!(
        error,
        FetchError::MemberNotFound { archive: ArchiveId(0), member: MemberId(0xabc) }
    );
    assert_eq!(error.to_string(), "archive #0 has no member at ar_hdr offset 0xabc");

    inputs.archive_mut(ArchiveId(0)).members.push(ArchiveMember {
        header_offset: 0xabc,
        name: "bad.o".into(),
        is_object: true,
        bytes: Vec::new(),
        content: MemberContent::Unreadable(ReadError::BadMagic { got: 1 }),
    });
    let error = drain_fetches(&mut inputs, &mut table, report.pending_fetches).unwrap_err();
    assert_eq!(error, FetchError::Read(ReadError::BadMagic { got: 1 }));
    assert_eq!(
        error.to_string(),
        "not a Mach-O 64 file: magic 0x00000001 (expected 0xfeedfacf)"
    );
}

#[test]
fn forced_loading_takes_every_object() {
    let mut inputs = archive_chain();
    inputs.archive_mut(ArchiveId(0)).members.push(ArchiveMember {
        header_offset: 300,
        name: "__.SYMDEF".into(),
        is_object: false,
        bytes: Vec::new(),
        content: MemberContent::Unreadable(ReadError::BadMagic { got: 0 }),
    });
    let mut table = SymbolTable::new();
    seed_all(&inputs, &no_tries(&inputs), &mut table).unwrap();
    let mut report = DrainReport::default();
    force_load_archive(&mut inputs, &mut table, ArchiveId(0), &mut report).unwrap();
    assert_eq!(report.fetched_members, 3);
    assert_eq!(inputs.objects.len(), 4);
    assert_eq!(kind_of(&table, "_unused"), SymbolKindTag::Defined);

    force_load_all(&mut inputs, &mut table, &mut report).unwrap();
    assert_eq!(report.fetched_members, 3);
}

fn unresolved_table() -> SymbolTable {
    let mut table = SymbolTable::new();
    let strong = table.intern("_strong");
    let weak = table.intern("_weak");
    let origin = InputId(0);
    table
        .insert(Symbol::Undefined { name: strong, origin, weak_ref: false })
        .unwrap();
    table
        .insert(Symbol::Undefined { name: weak, origin, weak_ref: true })
        .unwrap();
    table
}

#[test]
fn each_treatment_sorts_the_undefined() {
    let strong = Unresolved { name: Istr(0), id: SymbolId(0) };
    let weak = Unresolved { name: Istr(1), id: SymbolId(1) };

    let mut table = unresolved_table();
    let report = classify_unresolved(&mut table, UndefinedTreatment::default());
    assert_eq!(report.errors, vec![strong]);
    assert_eq!(report.weak, vec![weak]);
    assert!(report.promoted_to_dynamic.is_empty());
    assert_eq!(kind_of(&table, "_strong"), SymbolKindTag::Undefined);

    for treatment in [
        UndefinedTreatment::Warning,
        UndefinedTreatment::Suppress,
        UndefinedTreatment::DynamicLookup,
    ] {
        let mut table = unresolved_table();
        let report = classify_unresolved(&mut table, treatment);
        assert!(report.errors.is_empty());
        assert_eq!(report.weak, vec![weak]);
        assert_eq!(report.promoted_to_dynamic, vec![SymbolId(0)]);
        assert_eq!(report.warnings.len(), (treatment == UndefinedTreatment::Warning) as usize);
        assert_eq!(report.suppressed.len(), (treatment == UndefinedTreatment::Suppress) as usize);
        assert_eq!(
            *table.get(SymbolId(0)),
            Symbol::DylibImport {
                name: Istr(0),
                dylib: DylibId::invalid(),
                ordinal: FLAT_LOOKUP_ORDINAL,
                weak_import: true,
            }
        );
        assert_eq!(kind_of(&table, "_weak"), SymbolKindTag::Undefined);
        assert_eq!(table.transitions().len(), 3);
    }
    assert_eq!(DylibId::invalid(), DylibId(u32::MAX));
}

#[test]
fn edit_distances() {
    assert_eq!(levenshtein("kitten", "sitting"), 3);
    assert_eq!(levenshtein("sitting", "kitten"), 3);
    assert_eq!(levenshtein("", "abc"), 3);
    assert_eq!(levenshtein("abc", ""), 3);
    assert_eq!(levenshtein("flaw", "lawn"), 2);
    assert_eq!(levenshtein("same", "same"), 0);
    assert_eq!(levenshtein("caf\u{e9}", "cafe"), 1);
}

#[test]
fn suggestions_are_sorted_by_distance_and_name() {
    let mut table = SymbolTable::new();
    for name in ["_prinf", "_printg", "_printf", "_puts", "_print", "_prints"] {
        let name = table.intern(name);
        table
            .insert(Symbol::Undefined { name, origin: InputId(0), weak_ref: false })
            .unwrap();
    }
    assert_eq!(
        did_you_mean(&table, "_printf", 1, 9),
        vec!["_prinf", "_print", "_printg", "_prints"]
    );
    assert_eq!(did_you_mean(&table, "_printf", 1, 2), vec!["_prinf", "_print"]);
    assert!(did_you_mean(&table, "_something_else", 3, 3).is_empty());
}

#[test]
fn undefined_names_are_reported_with_referrers_and_hints() {
    let mut inputs = Inputs::new();
    add(&mut inputs, "a.o", &[("_pritnf", UNDEF, 0, 0)]);
    add(&mut inputs, "b.o", &[("_pritnf", UNDEF, 0, 0), ("_print\"f", DEFINED, 0, 0)]);
    add(&mut inputs, "c.o", &[("_printf", DEFINED, 0, 0), ("_zzzzzzzzzz", UNDEF, 0, 0)]);
    let mut table = SymbolTable::new();
    let report = seed_all(&inputs, &no_tries(&inputs), &mut table).unwrap();
    let left = classify_unresolved(&mut table, UndefinedTreatment::Error);
    assert_eq!(
        format_undefined_diagnostic(&table, &inputs, &report.referrers, &left.errors),
        "afs-ld: error: undefined symbol: _pritnf\n      referenced by a.o\n      referenced by \
         b.o\n  Hint: did you mean \"_print\\\"f\" or \"_printf\"?\nafs-ld: error: undefined \
         symbol: _zzzzzzzzzz\n      referenced by c.o\n"
    );
    assert_eq!(
        format_undefined_warning_diagnostic(&table, &inputs, &report.referrers, &left.errors[1..]),
        "afs-ld: warning: undefined symbol: _zzzzzzzzzz\n      referenced by c.o\n"
    );
}

#[test]
fn an_object_that_cannot_be_read_is_not_registered() {
    let mut inputs = Inputs::new();
    let refused = inputs.add_object(
        "bad.o".into(),
        vec![1, 2],
        Err(ReadError::BadMagic { got: 7 }),
        0,
    );
    assert!(matches!(
        refused,
        Err(InputAddError::Read(ReadError::BadMagic { got: 7 }))
    ));
    assert!(inputs.objects.is_empty());
    let id = inputs
        .add_object("a.o".into(), vec![3], Ok(object("a.o", &[])), 5)
        .unwrap();
    assert_eq!(id, InputId(0));
    assert_eq!(inputs.object(id).path, "a.o");
    assert_eq!(inputs.object(id).bytes, vec![3]);
    assert_eq!(inputs.object(id).load_order, 5);
}

#[test]
fn forcing_an_archive_twice_brings_nothing_more() {
    let mut inputs = Inputs::new();
    let id = inputs.add_validated_archive(
        "lib.a".into(),
        0,
        index(&[("_x", 8), ("_y", 90)]),
        vec![
            member(8, "x.o", &[("_x", DEFINED, 0, 0)]),
            member(90, "y.o", &[("_y", DEFINED, 0, 0)]),
        ],
    );
    let mut table = SymbolTable::new();
    let mut report = DrainReport::default();
    force_load_archive(&mut inputs, &mut table, id, &mut report).unwrap();
    assert_eq!(report.fetched_members, 2);
    force_load_archive(&mut inputs, &mut table, id, &mut report).unwrap();
    assert_eq!(report.fetched_members, 2);
    assert_eq!(inputs.objects.len(), 2);
    assert!(report.duplicates.is_empty());
}

#[test]
fn a_detour_is_no_shorter() {
    let words = ["", "_a", "_malloc", "_maloc", "_mallocs", "kitten", "sitting"];
    for a in words {
        for b in words {
            for c in words {
                assert!(levenshtein(a, c) <= levenshtein(a, b) + levenshtein(b, c));
            }
        }
    }
}
