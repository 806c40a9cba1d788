use afs_ld::macho::tbd::decode::parse_tbd;
use afs_ld::macho::tbd::direct::{
    parse_tbd_for_target, parse_tbd_for_target_direct, parse_tbd_metadata_for_target,
    DirectFlowBalance,
};
use afs_ld::macho::tbd::{
    filter_docs_for_target, filter_docs_for_target_metadata, parse_version, Arch, Platform, Target,
};

fn arm64_macos() -> Target {
    Target {
        arch: Arch::Arm64,
        platform: Platform::MacOs,
    }
}

#[test]
fn parses_minimal_tbd_v4() {
    let src = "--- !tapi-tbd\n\
               tbd-version: 4\n\
               targets: [ arm64-macos ]\n\
               install-name: '/usr/lib/libfoo.dylib'\n\
               ...\n";
    let docs = parse_tbd(src).unwrap();
    assert_eq!(docs.len(), 1);
    let tbd = &docs[0];
    assert_eq!(tbd.version, 4);
    assert_eq!(
        tbd.targets,
        vec![Target {
            arch: Arch::Arm64,
            platform: Platform::MacOs,
        }]
    );
    assert_eq!(tbd.install_name, "/usr/lib/libfoo.dylib");
}

#[test]
fn parses_scoped_exports_with_multiple_lists() {
    let src = "--- !tapi-tbd\n\
               tbd-version: 4\n\
               targets: [ arm64-macos, x86_64-macos ]\n\
               install-name: '/usr/lib/libfoo.dylib'\n\
               exports:\n\
               \x20 - targets: [ arm64-macos ]\n\
               \x20   symbols: [ _a, _b, _c ]\n\
               \x20   weak-symbols: [ _weak_one ]\n\
               \x20   objc-classes: [ _OBJC_CLASS_$_Foo ]\n";
    let tbd = &parse_tbd(src).unwrap()[0];
    assert_eq!(tbd.exports.len(), 1);
    let scoped = &tbd.exports[0];
    assert_eq!(
        scoped.targets,
        vec![Target {
            arch: Arch::Arm64,
            platform: Platform::MacOs,
        }]
    );
    assert_eq!(scoped.value.symbols, vec!["_a", "_b", "_c"]);
    assert_eq!(scoped.value.weak_symbols, vec!["_weak_one"]);
    assert_eq!(scoped.value.objc_classes, vec!["_OBJC_CLASS_$_Foo"]);
    assert_eq!(scoped.value.total(), 5);
}

#[test]
fn parses_reexported_libraries() {
    let src = "--- !tapi-tbd\n\
               tbd-version: 4\n\
               targets: [ arm64-macos ]\n\
               install-name: '/usr/lib/libSystem.B.dylib'\n\
               reexported-libraries:\n\
               \x20 - targets: [ arm64-macos ]\n\
               \x20   libraries: [ '/usr/lib/system/libcache.dylib', '/usr/lib/system/libxpc.dylib' ]\n";
    let tbd = &parse_tbd(src).unwrap()[0];
    assert_eq!(tbd.reexported_libraries.len(), 1);
    assert_eq!(
        tbd.reexported_libraries[0].value,
        vec![
            "/usr/lib/system/libcache.dylib",
            "/usr/lib/system/libxpc.dylib"
        ]
    );
}

#[test]
fn parses_parent_umbrella() {
    let src = "--- !tapi-tbd\n\
               tbd-version: 4\n\
               targets: [ arm64-macos ]\n\
               install-name: '/usr/lib/system/libcache.dylib'\n\
               parent-umbrella:\n\
               \x20 - targets: [ arm64-macos ]\n\
               \x20   umbrella: System\n";
    let tbd = &parse_tbd(src).unwrap()[0];
    assert_eq!(tbd.parent_umbrella.len(), 1);
    assert_eq!(tbd.parent_umbrella[0].value, "System");
}

#[test]
fn target_fast_path_keeps_matching_multiline_exports() {
    let src = "--- !tapi-tbd\n\
               tbd-version: 4\n\
               targets: [ x86_64-macos, arm64e-macos ]\n\
               install-name: '/usr/lib/libfoo.dylib'\n\
               exports:\n\
               \x20 - targets: [ x86_64-macos ]\n\
               \x20   symbols: [ _x86_only ]\n\
               \x20 - targets: [ x86_64-macos, arm64e-macos ]\n\
               \x20   symbols: [ _arm_one,\n\
               \x20              _arm_two ]\n";
    let docs = parse_tbd_for_target(src, &arm64_macos()).unwrap();
    assert_eq!(docs.len(), 1);
    assert_eq!(docs[0].exports.len(), 1);
    assert_eq!(docs[0].exports[0].value.symbols, ["_arm_one", "_arm_two"]);
}

#[test]
fn target_fast_path_scans_large_multiline_exports_once() {
    let mut src = String::from(
        "--- !tapi-tbd\n\
         tbd-version: 4\n\
         targets: [ arm64-macos ]\n\
         install-name: '/usr/lib/liblarge.dylib'\n\
         exports:\n\
         \x20 - targets: [ x86_64-macos ]\n\
         \x20   symbols: [\n",
    );
    for symbol in 0..4096 {
        src.push_str(&format!("    '_x86_symbol_{symbol}[quoted]',\n"));
    }
    src.push_str(
        "    _x86_last_symbol ]\n\
         \x20 - targets: [ arm64-macos ]\n\
         \x20   symbols: [\n",
    );
    for symbol in 0..4096 {
        src.push_str(&format!("    '_symbol_{symbol}[quoted]',\n"));
    }
    src.push_str("    _last_symbol ]\n");

    let docs = parse_tbd_for_target_direct(&src, &arm64_macos(), true).unwrap();
    assert_eq!(docs.len(), 1);
    let symbols = &docs[0].exports[0].value.symbols;
    assert_eq!(symbols.len(), 4097);
    assert_eq!(symbols[0], "_symbol_0[quoted]");
    assert_eq!(symbols[4095], "_symbol_4095[quoted]");
    assert_eq!(symbols[4096], "_last_symbol");
}

#[test]
fn direct_flow_balance_carries_escapes_between_fragments() {
    let mut balance = DirectFlowBalance::default();
    balance.scan("[ \"_quoted");
    balance.scan("\\");
    balance.scan(" ");
    balance.scan("_continued\", _tail ]");
    assert!(!balance.is_unbalanced());
}

#[test]
fn target_fast_path_preserves_utf8_in_double_quoted_scalars() {
    let src = r#"--- !tapi-tbd
tbd-version: 4
targets: [ arm64-macos ]
install-name: "/usr/lib/libcafé.dylib"
exports:
  - targets: [ arm64-macos ]
    symbols: [ "_café", "_snowman_☃", "_crab_🦀", "_escaped_\t_é" ]
...
"#;

    let generic = filter_docs_for_target(parse_tbd(src).unwrap(), &arm64_macos());
    let direct = parse_tbd_for_target_direct(src, &arm64_macos(), true).unwrap();

    assert_eq!(direct, generic);
    assert_eq!(direct[0].install_name, "/usr/lib/libcafé.dylib");
    assert_eq!(
        direct[0].exports[0].value.symbols,
        ["_café", "_snowman_☃", "_crab_🦀", "_escaped_\t_é"]
    );
}

#[test]
fn unknown_keys_are_tolerated() {
    let src = "--- !tapi-tbd\n\
               tbd-version: 4\n\
               targets: [ arm64-macos ]\n\
               install-name: 'x'\n\
               future-key: [ a, b ]\n";
    let tbd = &parse_tbd(src).unwrap()[0];
    assert_eq!(tbd.version, 4);
}

#[test]
fn target_as_string_roundtrip() {
    let t = Target {
        arch: Arch::Arm64e,
        platform: Platform::MacCatalyst,
    };
    assert_eq!(t.as_string(), "arm64e-maccatalyst");
}

#[test]
fn arm64_request_accepts_arm64e_scope() {
    let scoped = Target {
        arch: Arch::Arm64e,
        platform: Platform::MacOs,
    };
    let wanted = Target {
        arch: Arch::Arm64,
        platform: Platform::MacOs,
    };
    assert!(scoped.matches_requested(&wanted));
}

#[test]
fn arm64_request_still_rejects_wrong_platform() {
    let scoped = Target {
        arch: Arch::Arm64e,
        platform: Platform::MacCatalyst,
    };
    let wanted = Target {
        arch: Arch::Arm64,
        platform: Platform::MacOs,
    };
    assert!(!scoped.matches_requested(&wanted));
}

#[test]
fn all_tbd_decoders_reject_malformed_packed_versions() {
    let cases = [
        ("empty", ""),
        ("nondigit", "1.x.3"),
        ("leading-empty-component", ".1"),
        ("middle-empty-component", "1..3"),
        ("trailing-empty-component", "1."),
        ("extra-component", "1.2.3.4"),
        ("major-overflow", "65536"),
        ("minor-overflow", "1.256"),
        ("patch-overflow", "1.2.256"),
        ("integer-overflow", "4294967296"),
    ];

    for field in ["current-version", "compatibility-version"] {
        for (case, value) in cases {
            let src = format!(
                "--- !tapi-tbd\n\
                 tbd-version: 4\n\
                 targets: [ arm64-macos ]\n\
                 install-name: '/usr/lib/libbad.dylib'\n\
                 {field}: '{value}'\n\
                 ...\n"
            );
            let expected_value = format!("{value:?}");
            for (decoder, result) in [
                ("generic", parse_tbd(&src)),
                (
                    "direct",
                    parse_tbd_for_target_direct(&src, &arm64_macos(), true),
                ),
                ("target", parse_tbd_for_target(&src, &arm64_macos())),
                (
                    "metadata",
                    parse_tbd_metadata_for_target(&src, &arm64_macos()),
                ),
            ] {
                let error = match result {
                    Ok(_) => panic!("{decoder} decoder accepted {case} {field} {value:?}"),
                    Err(error) => error,
                };
                let diagnostic = error.to_string();
                assert!(
                    diagnostic.contains(field) && diagnostic.contains(&expected_value),
                    "{decoder} decoder returned an unhelpful {case} {field} diagnostic: {diagnostic}"
                );
            }
        }
    }
}

#[test]
fn parse_version_packs_major_dot_minor_dot_patch() {
    assert_eq!(parse_version("1.2.3").unwrap(), (1 << 16) | (2 << 8) | 3);
    assert_eq!(parse_version("11").unwrap(), 11 << 16);
    assert_eq!(parse_version("14.0").unwrap(), 14 << 16);
    assert_eq!(parse_version("1351").unwrap(), 1351 << 16);
    assert_eq!(parse_version("65535.255.255").unwrap(), u32::MAX);
}

#[test]
fn parse_version_rejects_invalid_text_and_component_overflow() {
    for value in [
        "",
        "+1",
        " 1",
        "1 ",
        ".1",
        "1.",
        "1..3",
        "1.x.3",
        "1.2.3.4",
        "65536",
        "1.256",
        "1.2.256",
        "4294967296",
    ] {
        assert!(
            parse_version(value).is_err(),
            "accepted malformed packed version {value:?}"
        );
    }
}

#[test]
fn missing_required_key_errors() {
    let src = "--- !tapi-tbd\ntbd-version: 4\n";
    let err = parse_tbd(src).unwrap_err();
    assert!(err.to_string().contains("install-name") || err.to_string().contains("targets"));
}

#[test]
fn parses_libsystem_like_shape() {
    let src = "--- !tapi-tbd\n\
               tbd-version: 4\n\
               targets:         [ x86_64-macos, arm64-macos, arm64e-macos ]\n\
               install-name:    '/usr/lib/libSystem.B.dylib'\n\
               current-version: 1351\n\
               reexported-libraries:\n\
               \x20 - targets:         [ arm64-macos, x86_64-macos ]\n\
               \x20   libraries:       [ '/usr/lib/system/libcache.dylib',\n\
               \x20                      '/usr/lib/system/libxpc.dylib' ]\n\
               exports:\n\
               \x20 - targets:         [ arm64-macos, x86_64-macos ]\n\
               \x20   symbols:         [ _dyld_stub_binder, _malloc, _free,\n\
               \x20                      _printf, _fprintf ]\n\
               ...\n";
    let tbd = &parse_tbd(src).unwrap()[0];
    assert_eq!(tbd.install_name, "/usr/lib/libSystem.B.dylib");
    assert_eq!(tbd.current_version, Some(1351 << 16));
    assert_eq!(tbd.exports[0].value.symbols.len(), 5);
}

#[test]
fn quick_and_general_reading_agree() {
    let src = "--- !tapi-tbd\n\
               tbd-version: 4\n\
               targets: [ x86_64-macos, arm64-macos,\n\
               \x20          arm64e-macos ]\n\
               install-name: '/usr/lib/libone.dylib'\n\
               current-version: 1.2.3\n\
               flags: [ not_app_extension_safe ]\n\
               parent-umbrella:\n\
               \x20 - targets: [ arm64-macos ]\n\
               \x20   umbrella: System\n\
               exports:\n\
               \x20 - targets: [ x86_64-macos ]\n\
               \x20   symbols: [ _only_there ]\n\
               \x20 - targets: [ arm64-macos ]\n\
               \x20   symbols: [ _a, '_b[c]',\n\
               \x20              \"_d\\te\" ]\n\
               \x20   weak-symbols: [ _w ]\n\
               \x20   future-symbols: [ _f,\n\
               \x20                     _g ]\n\
               ...\n\
               --- !tapi-tbd\n\
               tbd-version: 4\n\
               targets: [ x86_64-macos ]\n\
               install-name: '/usr/lib/libtwo.dylib'\n\
               ...\n";
    let all = parse_tbd(src).unwrap();
    assert_eq!(all.len(), 2);
    let narrowed = filter_docs_for_target(all, &arm64_macos());
    let quick = parse_tbd_for_target_direct(src, &arm64_macos(), true).unwrap();
    assert_eq!(quick, narrowed);
    assert_eq!(parse_tbd_for_target(src, &arm64_macos()).unwrap(), narrowed);
    assert_eq!(quick.len(), 1);
    assert_eq!(quick[0].exports[0].value.symbols, ["_a", "_b[c]", "_d\te"]);
    assert_eq!(quick[0].parent_umbrella[0].value, "System");

    let bare = filter_docs_for_target_metadata(parse_tbd(src).unwrap(), &arm64_macos());
    let passed = parse_tbd_for_target_direct(src, &arm64_macos(), false).unwrap();
    assert_eq!(passed, bare);
    assert_eq!(
        parse_tbd_metadata_for_target(src, &arm64_macos()).unwrap(),
        bare
    );
    assert!(passed[0].exports.is_empty());
    assert_eq!(passed[0].parent_umbrella[0].value, "System");
}

#[test]
fn idle_lines_and_hash_signs_are_read_alike() {
    let smooth = "# a comment in front\n\
                  \n\
                  --- !tapi-tbd\n\
                  \t\n\
                  tbd-version: 4  \n\
                  targets: [ arm64-macos ]\r\n\
                  \n\
                  # between two keys\n\
                  install-name: '/usr/lib/lib #one.dylib'\n\
                  undefineds:\n\
                  \x20 - targets: [ arm64-macos ]\n\
                  \x20   symbols: [ _u ]\n\
                  \n\
                  exports:\n\
                  \x20 - targets: [ arm64-macos ]\n\
                  \x20   symbols: [ _a#b, ' #c',\n\
                  \x20              _d ]\n\
                  \n\
                  ...\n\
                  \n";
    let narrowed = filter_docs_for_target(parse_tbd(smooth).unwrap(), &arm64_macos());
    assert_eq!(narrowed[0].install_name, "/usr/lib/lib #one.dylib");
    assert_eq!(narrowed[0].exports[0].value.symbols, ["_a#b", " #c", "_d"]);
    assert_eq!(
        parse_tbd_for_target_direct(smooth, &arm64_macos(), true).unwrap(),
        narrowed
    );
    assert_eq!(parse_tbd_for_target(smooth, &arm64_macos()).unwrap(), narrowed);
    let bare = filter_docs_for_target_metadata(parse_tbd(smooth).unwrap(), &arm64_macos());
    assert_eq!(
        parse_tbd_metadata_for_target(smooth, &arm64_macos()).unwrap(),
        bare
    );

    // An idle line among entries or in a list: the general reader takes over.
    for inner in ["\n    weak-symbols: [ _w ]\n", "    weak-symbols: [ _v,\n  # here\n      _w ]\n"] {
        let src = format!(
            "--- !tapi-tbd\ntbd-version: 4\ntargets: [ arm64-macos ]\ninstall-name: /a\n\
             exports:\n  - targets: [ arm64-macos ]\n    symbols: [ _a ]\n{inner}...\n"
        );
        assert!(parse_tbd_for_target_direct(&src, &arm64_macos(), true).is_err());
        let narrowed = filter_docs_for_target(parse_tbd(&src).unwrap(), &arm64_macos());
        assert_eq!(narrowed[0].exports[0].value.weak_symbols.last().unwrap(), "_w");
        assert_eq!(parse_tbd_for_target(&src, &arm64_macos()).unwrap(), narrowed);
        assert!(parse_tbd_for_target_direct(&src, &arm64_macos(), false).is_ok());
        assert_eq!(
            parse_tbd_metadata_for_target(&src, &arm64_macos()).unwrap(),
            filter_docs_for_target_metadata(parse_tbd(&src).unwrap(), &arm64_macos())
        );
    }
}
