use afs_ld::macho::constants::{
    CPU_TYPE_ARM64, EXPORT_SYMBOL_FLAGS_KIND_THREAD_LOCAL, EXPORT_SYMBOL_FLAGS_WEAK_DEFINITION, LC_DYSYMTAB, LC_ID_DYLIB, LC_LOAD_DYLIB,
    LC_LOAD_WEAK_DYLIB, LC_REEXPORT_DYLIB, MH_DYLDLINK, MH_DYLIB, MH_MAGIC_64, MH_OBJECT,
    MH_TWOLEVEL, N_EXT, N_SECT, N_TYPE, N_UNDF, N_WEAK_DEF,
};
use afs_ld::macho::dylib::{dependency_ordinal, DylibFile, DylibLoadKind};
use afs_ld::macho::exports::{ExportEntry, ExportKind};
use afs_ld::macho::reader::{
    write_commands, write_header, DyldInfoCmd, DylibCmd, DysymtabCmd, LoadCommand, MachHeader64,
    ReadError, RpathCmd, SymtabCmd, HEADER_SIZE,
};
use afs_ld::macho::tbd::decode::parse_tbd;
use afs_ld::macho::tbd::{Arch, Platform, Scoped, SymbolLists, Target, Tbd};
use afs_ld::symbol::{RawNlist, NLIST_SIZE};

fn make_dylib_image(commands: Vec<LoadCommand>) -> Vec<u8> {
    let sizeofcmds: u32 = commands.iter().map(|c| c.cmdsize()).sum();
    let ncmds = commands.len() as u32;
    let hdr = MachHeader64 {
        magic: MH_MAGIC_64,
        cputype: CPU_TYPE_ARM64,
        cpusubtype: 0,
        filetype: MH_DYLIB,
        ncmds,
        sizeofcmds,
        flags: MH_DYLDLINK | MH_TWOLEVEL,
        reserved: 0,
    };
    let mut image = Vec::new();
    write_header(&hdr, &mut image);
    write_commands(&commands, &mut image);
    image
}

fn dylib_cmd(kind: u32, name: &str) -> DylibCmd {
    DylibCmd {
        cmd: kind,
        name: name.into(),
        timestamp: 2,
        current_version: 1 << 16,
        compatibility_version: 1 << 16,
    }
}

fn make_legacy_dylib_image(
    symbols: &[(&str, u8, u16, u64)],
    dysymtab: DysymtabCmd,
    export_locator: Option<LoadCommand>,
) -> Vec<u8> {
    let mut strings = vec![0];
    let mut raw_symbols = Vec::with_capacity(symbols.len());
    for &(name, n_type, n_desc, n_value) in symbols {
        let strx = strings.len() as u32;
        strings.extend_from_slice(name.as_bytes());
        strings.push(0);
        raw_symbols.push(RawNlist {
            strx,
            n_type,
            n_sect: u8::from(n_type & N_TYPE != N_UNDF),
            n_desc,
            n_value,
        });
    }

    let identity =
        LoadCommand::Dylib(dylib_cmd(LC_ID_DYLIB, "/usr/lib/liblegacy-exports.dylib"));
    let mut commands = vec![identity];
    commands.extend(export_locator);
    let sizeofcmds = commands.iter().map(LoadCommand::cmdsize).sum::<u32>()
        + SymtabCmd::WIRE_SIZE
        + DysymtabCmd::WIRE_SIZE;
    let symoff = HEADER_SIZE as u32 + sizeofcmds;
    let stroff = symoff + (raw_symbols.len() * NLIST_SIZE) as u32;
    commands.push(LoadCommand::Symtab(SymtabCmd {
        symoff,
        nsyms: raw_symbols.len() as u32,
        stroff,
        strsize: strings.len() as u32,
    }));
    commands.push(LoadCommand::Dysymtab(dysymtab));

    let mut image = make_dylib_image(commands);
    for symbol in raw_symbols {
        symbol.write(&mut image);
    }
    image.extend_from_slice(&strings);
    image
}

#[test]
fn parse_dylib_extracts_install_name_and_versions() {
    let image = make_dylib_image(vec![LoadCommand::Dylib(DylibCmd {
        cmd: LC_ID_DYLIB,
        name: "@rpath/libfoo.dylib".into(),
        timestamp: 2,
        current_version: (1 << 16) | (2 << 8) | 3,
        compatibility_version: 1 << 16,
    })]);
    let dy = DylibFile::parse("/tmp/libfoo.dylib".to_string(), &image).unwrap();
    assert_eq!(dy.install_name, "@rpath/libfoo.dylib");
    assert_eq!(dy.current_version, (1 << 16) | (2 << 8) | 3);
    assert_eq!(dy.compatibility_version, 1 << 16);
}

#[test]
fn parse_dylib_requires_exactly_one_nonempty_identity() {
    let cases = [
        (
            Vec::new(),
            "malformed MH_DYLIB identity: missing LC_ID_DYLIB load command",
        ),
        (
            vec![LoadCommand::Dylib(dylib_cmd(LC_ID_DYLIB, ""))],
            "malformed MH_DYLIB identity: LC_ID_DYLIB install name is empty",
        ),
        (
            vec![
                LoadCommand::Dylib(dylib_cmd(LC_ID_DYLIB, "@rpath/libfirst.dylib")),
                LoadCommand::Dylib(dylib_cmd(LC_ID_DYLIB, "@rpath/libsecond.dylib")),
            ],
            "malformed MH_DYLIB identity: multiple LC_ID_DYLIB load commands",
        ),
    ];

    for (commands, expected) in cases {
        let image = make_dylib_image(commands);
        let error = DylibFile::parse("/tmp/invalid.dylib".to_string(), &image)
            .expect_err("malformed dylib identity must be rejected");
        assert_eq!(error.to_string(), expected);
    }
}

#[test]
fn parse_dylib_assigns_ordinals_to_dependencies_in_order() {
    let image = make_dylib_image(vec![
        LoadCommand::Dylib(dylib_cmd(LC_ID_DYLIB, "@rpath/libself.dylib")),
        LoadCommand::Dylib(dylib_cmd(LC_LOAD_DYLIB, "/usr/lib/libSystem.B.dylib")),
        LoadCommand::Dylib(dylib_cmd(LC_LOAD_WEAK_DYLIB, "/usr/lib/libobjc.A.dylib")),
        LoadCommand::Dylib(dylib_cmd(LC_REEXPORT_DYLIB, "/usr/lib/libc++abi.dylib")),
    ]);
    let dy = DylibFile::parse("/tmp/x.dylib".to_string(), &image).unwrap();
    assert_eq!(dy.install_name, "@rpath/libself.dylib");
    assert_eq!(dy.dependencies.len(), 3);
    assert_eq!(dy.dependencies[0].kind, DylibLoadKind::Normal);
    assert_eq!(dy.dependencies[0].ordinal, 1);
    assert_eq!(dy.dependencies[1].kind, DylibLoadKind::Weak);
    assert_eq!(dy.dependencies[1].ordinal, 2);
    assert_eq!(dy.dependencies[2].kind, DylibLoadKind::Reexport);
    assert_eq!(dy.dependencies[2].ordinal, 3);

    assert_eq!(
        dependency_ordinal(&dy.dependencies, "/usr/lib/libSystem.B.dylib"),
        Some(1)
    );
    assert_eq!(
        dependency_ordinal(&dy.dependencies, "/usr/lib/libc++abi.dylib"),
        Some(3)
    );
    assert_eq!(dependency_ordinal(&dy.dependencies, "missing"), None);
}

#[test]
fn parse_dylib_collects_rpaths_in_source_order() {
    let image = make_dylib_image(vec![
        LoadCommand::Dylib(dylib_cmd(LC_ID_DYLIB, "@rpath/libself.dylib")),
        LoadCommand::Rpath(RpathCmd {
            path: "@executable_path/../lib".into(),
        }),
        LoadCommand::Rpath(RpathCmd {
            path: "/opt/local/lib".into(),
        }),
    ]);
    let dy = DylibFile::parse("/tmp/x.dylib".to_string(), &image).unwrap();
    assert_eq!(dy.rpaths, vec!["@executable_path/../lib", "/opt/local/lib"]);
}

#[test]
fn parse_dylib_falls_back_to_dysymtab_external_definitions() {
    let image = make_legacy_dylib_image(
        &[
            ("_local", N_SECT, 0, 0x1000),
            ("_legacy_export", N_SECT | N_EXT, 0, 0x1010),
            ("_legacy_weak", N_SECT | N_EXT, N_WEAK_DEF, 0x1020),
            ("_dependency", N_UNDF | N_EXT, 0, 0),
        ],
        DysymtabCmd {
            ilocalsym: 0,
            nlocalsym: 1,
            iextdefsym: 1,
            nextdefsym: 2,
            iundefsym: 3,
            nundefsym: 1,
            ..DysymtabCmd::default()
        },
        None,
    );

    let dylib = DylibFile::parse("/tmp/liblegacy-exports.dylib".to_string(), &image).unwrap();
    assert_eq!(
        *dylib.exports.entries().unwrap(),
        vec![
            ExportEntry {
                name: "_legacy_export".into(),
                flags: 0,
                kind: ExportKind::Regular { address: 0x1010 },
            },
            ExportEntry {
                name: "_legacy_weak".into(),
                flags: EXPORT_SYMBOL_FLAGS_WEAK_DEFINITION,
                kind: ExportKind::Regular { address: 0x1020 },
            },
        ]
    );
}

#[test]
fn parse_dylib_rejects_invalid_dysymtab_external_definition_ranges() {
    for (iextdefsym, nextdefsym, expected_reason) in
        [(u32::MAX, 1, "overflows"), (1, 1, "exceeds")]
    {
        let image = make_legacy_dylib_image(
            &[("_legacy_export", N_SECT | N_EXT, 0, 0x1010)],
            DysymtabCmd {
                iextdefsym,
                nextdefsym,
                ..DysymtabCmd::default()
            },
            None,
        );

        let error = DylibFile::parse("/tmp/liblegacy-exports.dylib".to_string(), &image).unwrap_err();
        assert!(matches!(
            error,
            ReadError::BadCmdsize {
                cmd: LC_DYSYMTAB,
                reason,
                ..
            } if reason.contains(expected_reason)
        ));
    }
}

#[test]
fn parse_dylib_does_not_override_an_explicit_empty_export_locator() {
    let image = make_legacy_dylib_image(
        &[("_legacy_export", N_SECT | N_EXT, 0, 0x1010)],
        DysymtabCmd {
            iextdefsym: 0,
            nextdefsym: 1,
            ..DysymtabCmd::default()
        },
        Some(LoadCommand::DyldInfoOnly(DyldInfoCmd::default())),
    );

    let dylib = DylibFile::parse("/tmp/liblegacy-exports.dylib".to_string(), &image).unwrap();
    assert!(dylib.exports.entries().unwrap().is_empty());
}

// ----- DylibFile::from_tbd tests -----

fn arm64_macos() -> Target {
    Target {
        arch: Arch::Arm64,
        platform: Platform::MacOs,
    }
}

#[test]
fn from_tbd_filters_exports_by_target() {
    let src = "--- !tapi-tbd\n\
               tbd-version: 4\n\
               targets: [ arm64-macos, x86_64-macos ]\n\
               install-name: '/usr/lib/libdemo.dylib'\n\
               current-version: 1.2.3\n\
               exports:\n\
               \x20 - targets: [ arm64-macos ]\n\
               \x20   symbols: [ _arm_only ]\n\
               \x20 - targets: [ x86_64-macos ]\n\
               \x20   symbols: [ _x86_only ]\n\
               \x20 - targets: [ arm64-macos, x86_64-macos ]\n\
               \x20   symbols: [ _shared_sym ]\n";
    let tbd = &parse_tbd(src).unwrap()[0];
    let dy = DylibFile::from_tbd("/stub/libdemo.tbd".to_string(), tbd, &arm64_macos());
    let names: Vec<String> = dy
        .exports
        .entries()
        .unwrap()
        .iter()
        .map(|e| e.name.clone())
        .collect();
    assert!(names.contains(&"_arm_only".to_string()));
    assert!(names.contains(&"_shared_sym".to_string()));
    assert!(!names.contains(&"_x86_only".to_string()));
}

#[test]
fn from_tbd_arm64_uses_arm64e_scopes() {
    let src = "--- !tapi-tbd\n\
               tbd-version: 4\n\
               targets: [ arm64e-macos ]\n\
               install-name: '/usr/lib/libdemo.dylib'\n\
               exports:\n\
               \x20 - targets: [ arm64e-macos ]\n\
               \x20   symbols: [ _umbrella_only ]\n";
    let tbd = &parse_tbd(src).unwrap()[0];
    let dy = DylibFile::from_tbd("/stub/libdemo.tbd".to_string(), tbd, &arm64_macos());
    let names: Vec<String> = dy
        .exports
        .entries()
        .unwrap()
        .iter()
        .map(|e| e.name.clone())
        .collect();
    assert_eq!(names, vec!["_umbrella_only".to_string()]);
}

#[test]
fn from_tbd_includes_reexported_libraries_as_dependencies() {
    let src = "--- !tapi-tbd\n\
               tbd-version: 4\n\
               targets: [ arm64-macos ]\n\
               install-name: '/usr/lib/libSystem.B.dylib'\n\
               reexported-libraries:\n\
               \x20 - targets: [ arm64-macos ]\n\
               \x20   libraries: [ '/usr/lib/system/libcache.dylib', '/usr/lib/system/libxpc.dylib' ]\n";
    let tbd = &parse_tbd(src).unwrap()[0];
    let dy = DylibFile::from_tbd("/stub/libSystem.tbd".to_string(), tbd, &arm64_macos());
    assert_eq!(dy.dependencies.len(), 2);
    assert_eq!(dy.dependencies[0].kind, DylibLoadKind::Reexport);
    assert_eq!(dy.dependencies[0].ordinal, 1);
    assert_eq!(
        dy.dependencies[0].install_name,
        "/usr/lib/system/libcache.dylib"
    );
    assert_eq!(dy.dependencies[1].ordinal, 2);
}

#[test]
fn from_tbd_decodes_objc_symbols_with_prefix() {
    let src = "--- !tapi-tbd\n\
               tbd-version: 4\n\
               targets: [ arm64-macos ]\n\
               install-name: '/usr/lib/libobjc.A.dylib'\n\
               exports:\n\
               \x20 - targets: [ arm64-macos ]\n\
               \x20   objc-classes: [ NSObject, NSArray ]\n\
               \x20   objc-eh-types: [ NSException ]\n";
    let tbd = &parse_tbd(src).unwrap()[0];
    let dy = DylibFile::from_tbd("/stub/libobjc.tbd".to_string(), tbd, &arm64_macos());
    let names: Vec<String> = dy
        .exports
        .entries()
        .unwrap()
        .iter()
        .map(|e| e.name.clone())
        .collect();
    assert!(names.contains(&"_OBJC_CLASS_$_NSObject".to_string()));
    assert!(names.contains(&"_OBJC_CLASS_$_NSArray".to_string()));
    assert!(names.contains(&"_OBJC_EHTYPE_$_NSException".to_string()));
}

#[test]
fn from_tbd_parses_current_version_into_packed_u32() {
    let src = "--- !tapi-tbd\n\
               tbd-version: 4\n\
               targets: [ arm64-macos ]\n\
               install-name: '/usr/lib/libfoo.dylib'\n\
               current-version: 14.2.3\n";
    let tbd = &parse_tbd(src).unwrap()[0];
    let dy = DylibFile::from_tbd("/stub".to_string(), tbd, &arm64_macos());
    assert_eq!(dy.current_version, (14 << 16) | (2 << 8) | 3);
}

#[test]
fn parse_dylib_rejects_non_dylib_filetype() {
    // MH_OBJECT image — should fail DylibFile::parse with a clear error.
    let hdr = MachHeader64 {
        magic: MH_MAGIC_64,
        cputype: CPU_TYPE_ARM64,
        cpusubtype: 0,
        filetype: MH_OBJECT,
        ncmds: 0,
        sizeofcmds: 0,
        flags: 0,
        reserved: 0,
    };
    let mut image = Vec::new();
    write_header(&hdr, &mut image);
    let err = DylibFile::parse("/tmp/obj.o".to_string(), &image).unwrap_err();
    assert!(matches!(
        err,
        ReadError::UnexpectedFiletype {
            got: MH_OBJECT,
            expected: MH_DYLIB
        }
    ));
}

#[test]
fn from_tbd_gives_thread_local_symbols_no_address() {
    let m = arm64_macos();
    let tbd = Tbd {
        install_name: "/x".into(),
        targets: vec![m.clone()],
        exports: vec![Scoped {
            targets: vec![m.clone()],
            value: SymbolLists {
                thread_local_symbols: vec!["_tls".into()],
                ..SymbolLists::default()
            },
        }],
        ..Tbd::default()
    };
    let dy = DylibFile::from_tbd("/x.tbd".to_string(), &tbd, &m);
    let entries = dy.exports.entries().unwrap();
    assert_eq!(entries.len(), 1);
    assert_eq!(entries[0].name, "_tls");
    assert_eq!(entries[0].flags, EXPORT_SYMBOL_FLAGS_KIND_THREAD_LOCAL);
    assert_eq!(entries[0].kind, ExportKind::Regular { address: 0 });
}
