use afs_ld::dyld_info::{emit_rebase_stream, RebaseSite};
use afs_ld::leb::{read_uleb, write_sleb, write_uleb};
use afs_ld::macho::constants::{
    CPU_TYPE_ARM64, LC_ID_DYLIB, LC_LOAD_DYLIB, LC_LOAD_UPWARD_DYLIB, LC_LOAD_WEAK_DYLIB,
    LC_REEXPORT_DYLIB, MH_DYLIB, MH_MAGIC_64,
};
use afs_ld::macho::dylib::DylibLoadKind;
use afs_ld::macho::exports::{ExportEntry, ExportKind, Exports};
use afs_ld::macho::reader::{
    parse_commands, parse_header, write_commands, write_header, BuildTool, BuildVersionCmd,
    DyldInfoCmd, DylibCmd, DysymtabCmd, LinkEditDataCmd, LoadCommand, MachHeader64, ReadError,
    RpathCmd, Section64Header, Segment64, SymtabCmd,
};
use afs_ld::macho::tbd::decode::parse_tbd;
use afs_ld::macho::tbd::{filter_docs_for_target, parse_target, parse_version, Arch, Platform, Target};
use afs_ld::macho::tbd_yaml::{parse_documents, YamlError};
use afs_ld::macho::writer::{align_up, pack_version, u32_fit, LinkEditBuildTimings, WriteError};
use afs_ld::reloc::arm64::encode::{
    branch26_in_range, encode_adrp_reg, encode_branch26, encode_stub, encode_thunk, page,
};
use afs_ld::reloc::arm64::RelocError;
use afs_ld::reloc::{validate_relocs, Referent, Reloc, RelocKind, RelocLength};
use afs_ld::resolve::{AtomId, SymbolId};
use afs_ld::section::{InputSection, Prot, SectionKind};
use afs_ld::symbol_visibility::{symbol_patterns, wildcard_matches};

#[test]
fn uleb_is_read_back() {
    for value in [0, 1, 127, 128, 624_485, u32::MAX as u64, u64::MAX] {
        let mut out = Vec::new();
        write_uleb(value, &mut out);
        assert_eq!(read_uleb(&out), Some((value, out.len())));
        out.push(0x55);
        assert_eq!(read_uleb(&out), Some((value, out.len() - 1)));
    }
    let mut out = Vec::new();
    write_uleb(624_485, &mut out);
    assert_eq!(out, vec![0xe5, 0x8e, 0x26]);
    assert_eq!(read_uleb(&[0x80]), None);
    assert_eq!(read_uleb(&[]), None);
}

#[test]
fn sleb_bytes() {
    for (value, bytes) in [
        (0i64, vec![0u8]),
        (2, vec![2]),
        (-2, vec![0x7e]),
        (127, vec![0xff, 0x00]),
        (-127, vec![0x81, 0x7f]),
        (-128, vec![0x80, 0x7f]),
    ] {
        let mut out = Vec::new();
        write_sleb(value, &mut out);
        assert_eq!(out, bytes, "{value}");
    }
}

#[test]
fn rebase_sites_in_a_row_are_one_run() {
    let site = |segment_offset| RebaseSite {
        segment_index: 2,
        segment_offset,
    };
    // A type, a place, three pointers in a row, and the end.
    assert_eq!(
        emit_rebase_stream(&vec![site(0x10), site(0x18), site(0x20)]),
        vec![0x11, 0x22, 0x10, 0x53, 0x00]
    );
    assert!(emit_rebase_stream(&Vec::new()).is_empty());
}

fn some_commands() -> Vec<LoadCommand> {
    let mut segname = [0u8; 16];
    segname[..6].copy_from_slice(b"__TEXT");
    let mut sectname = [0u8; 16];
    sectname[..6].copy_from_slice(b"__text");
    vec![
        LoadCommand::Segment64(Segment64 {
            segname,
            vmaddr: 1,
            vmsize: 2,
            fileoff: 3,
            filesize: 4,
            maxprot: 5,
            initprot: 6,
            flags: 7,
            sections: vec![Section64Header {
                sectname,
                segname,
                addr: 8,
                size: 9,
                offset: 10,
                align: 11,
                reloff: 12,
                nreloc: 13,
                flags: 14,
                reserved1: 15,
                reserved2: 16,
                reserved3: 17,
            }],
        }),
        LoadCommand::Symtab(SymtabCmd {
            symoff: 1,
            nsyms: 2,
            stroff: 3,
            strsize: 4,
        }),
        LoadCommand::Dysymtab(DysymtabCmd {
            ilocalsym: 1,
            nlocrel: 18,
            ..DysymtabCmd::default()
        }),
        LoadCommand::DyldInfoOnly(DyldInfoCmd {
            rebase_off: 1,
            export_size: 10,
            ..DyldInfoCmd::default()
        }),
        LoadCommand::DyldExportsTrie(LinkEditDataCmd {
            dataoff: 1,
            datasize: 2,
        }),
        LoadCommand::Dylib(DylibCmd {
            cmd: LC_ID_DYLIB,
            name: "@rpath/libé.dylib".into(),
            timestamp: 2,
            current_version: 3,
            compatibility_version: 4,
        }),
        LoadCommand::Rpath(RpathCmd { path: "".into() }),
        LoadCommand::BuildVersion(BuildVersionCmd {
            platform: 1,
            minos: 2,
            sdk: 3,
            tools: vec![BuildTool { tool: 4, version: 5 }],
        }),
        LoadCommand::Raw {
            cmd: 0x99,
            cmdsize: 16,
            data: vec![1, 2, 3, 4, 5, 6, 7, 8],
        },
    ]
}

fn file_with(commands: &[LoadCommand]) -> Vec<u8> {
    let header = MachHeader64 {
        magic: MH_MAGIC_64,
        cputype: CPU_TYPE_ARM64,
        cpusubtype: 0,
        filetype: MH_DYLIB,
        ncmds: commands.len() as u32,
        sizeofcmds: commands.iter().map(|c| c.cmdsize()).sum(),
        flags: 0,
        reserved: 0,
    };
    let mut out = Vec::new();
    write_header(&header, &mut out);
    write_commands(commands, &mut out);
    assert_eq!(out.len() as u32, 32 + header.sizeofcmds);
    out
}

#[test]
fn commands_are_read_back() {
    let commands = some_commands();
    let mut file = file_with(&commands);
    file.extend_from_slice(b"more");
    let header = parse_header(&file).unwrap();
    assert_eq!(parse_commands(&header, &file).unwrap(), commands);
}

#[test]
fn malformed_commands_are_refused() {
    let command = LoadCommand::Rpath(RpathCmd { path: "abc".into() });
    let file = file_with(&[command]);
    let header = parse_header(&file).unwrap();

    let cut = &file[..file.len() - 1];
    assert!(matches!(
        parse_commands(&header, cut).unwrap_err(),
        ReadError::Truncated { .. }
    ));
    let mut small = file.clone();
    small[36] = 4;
    assert!(matches!(
        parse_commands(&header, &small).unwrap_err(),
        ReadError::BadCmdsize { cmdsize: 4, at_offset: 32, .. }
    ));
    let mut far = file.clone();
    far[40] = 200;
    assert!(matches!(
        parse_commands(&header, &far).unwrap_err(),
        ReadError::BadCmdsize { .. }
    ));
    let mut foreign = file.clone();
    foreign[44] = 0xff;
    assert!(matches!(
        parse_commands(&header, &foreign).unwrap_err(),
        ReadError::BadCmdsize { .. }
    ));
}

#[test]
fn read_errors_say_what_is_wrong() {
    for (error, message) in [
        (
            ReadError::Truncated { need: 5, have: 3, context: "it" },
            "truncated input while reading it: need 5 bytes, have 3",
        ),
        (
            ReadError::BadMagic { got: 0xcafe },
            "not a Mach-O 64 file: magic 0x0000cafe (expected 0xfeedfacf)",
        ),
        (
            ReadError::UnsupportedCpu { got: 7 },
            "unsupported cpu type 0x00000007 (afs-ld requires arm64 / 0x0100000c)",
        ),
        (
            ReadError::BadCmdsize { cmd: 0x1b, cmdsize: 3, at_offset: 0x20, reason: "why" },
            "load command 0x1b at offset 0x20: cmdsize 3 invalid (why)",
        ),
    ] {
        assert_eq!(error.to_string(), message);
    }
}

#[test]
fn write_errors_say_what_is_wrong() {
    let (atom, symbol) = (AtomId(3), SymbolId(4));
    for (error, message) in [
        (WriteError::MissingSegment("__TEXT"), "missing output segment `__TEXT`"),
        (WriteError::OffsetTooLarge("it"), "it exceeds 32-bit Mach-O field width"),
        (WriteError::EntryAtomMissing(atom), "entry atom AtomId(3) missing from layout"),
        (
            WriteError::DefinedSymbolAtomMissing(symbol, atom),
            "defined symbol SymbolId(4) points at missing atom AtomId(3) in final layout",
        ),
        (
            WriteError::DefinedSymbolSectionMissing(symbol, atom),
            "defined symbol SymbolId(4) points at atom AtomId(3) outside any output section",
        ),
        (
            WriteError::DirectBindAtomMissing(atom),
            "direct bind atom AtomId(3) missing from layout",
        ),
        (
            WriteError::DirectBindSectionMissing(atom),
            "direct bind atom AtomId(3) is not inside an output section",
        ),
        (
            WriteError::ImportSymbolMissing(symbol),
            "synthetic import symbol SymbolId(4) missing from symbol table",
        ),
        (
            WriteError::ImportSymbolWrongKind(symbol),
            "synthetic import symbol SymbolId(4) is not a dylib import",
        ),
        (
            WriteError::MalformedRelocations("a.o".into(), 2, "why".into()),
            "failed to parse relocations in a.o section 2: why",
        ),
        (
            WriteError::MalformedLoh("a.o".into(), "why".into()),
            "failed to remap LC_LINKER_OPTIMIZATION_HINT in a.o: why",
        ),
        (
            WriteError::MalformedDataInCode("a.o".into(), "why".into()),
            "failed to remap LC_DATA_IN_CODE in a.o: why",
        ),
        (
            WriteError::SymbolListRead("list".into(), "why".into()),
            "list: unable to read symbol list: why",
        ),
    ] {
        assert_eq!(error.to_string(), message);
    }
    let error = RelocError {
        input: "a.o".into(),
        atom,
        atom_offset: 0x1c,
        kind: RelocKind::Branch26,
        referent: "_f".into(),
        detail: "too far".into(),
    };
    assert_eq!(
        error.to_string(),
        "a.o: relocation Branch26 at atom AtomId(3)+0x1c against _f: too far"
    );
}

#[test]
fn numbers_are_rounded_and_packed() {
    assert_eq!(align_up(0, 8), 0);
    assert_eq!(align_up(1, 8), 8);
    assert_eq!(align_up(16, 8), 16);
    assert_eq!(align_up(5, 1), 5);
    assert_eq!(align_up(5, 0), 5);
    assert_eq!(align_up(0x4001, 0x4000), 0x8000);
    assert_eq!(pack_version(11, 2, 3), 0x000b_0203);
    assert_eq!(u32_fit(7, "x").unwrap(), 7);
    assert!(matches!(u32_fit(1 << 32, "x"), Err(WriteError::OffsetTooLarge("x"))));
}

fn branch_target(insn: u32, place: u64) -> u64 {
    let imm = ((insn & 0x03ff_ffff) << 6) as i32 >> 6;
    place.wrapping_add((imm as i64 * 4) as u64)
}

fn adrp_page(insn: u32, place: u64) -> u64 {
    let imm = (((insn >> 5) & 0x7ffff) << 2) | ((insn >> 29) & 3);
    let imm = ((imm << 11) as i32 >> 11) as i64;
    page(place).wrapping_add((imm * 0x1000) as u64)
}

fn words(bytes: &[u8]) -> Vec<u32> {
    bytes
        .chunks(4)
        .map(|c| u32::from_le_bytes(c.try_into().unwrap()))
        .collect()
}

#[test]
fn branches_reach_their_targets() {
    for (place, target) in [(0x1000u64, 0x2000u64), (0x2000, 0x1000), (0x800_0000, 0xfff_fffc), (0x800_0000, 0)] {
        assert!(branch26_in_range(place, target));
        let insn = encode_branch26(place, target, "f").unwrap();
        assert_eq!(branch_target(insn, place), target);
    }
    assert!(!branch26_in_range(0, 0x800_0000));
    assert!(encode_branch26(0, 0x800_0000, "f").is_err());
}

#[test]
fn page_addresses_thunks_and_stubs_reach_their_targets() {
    let place = 0x1_0000_1234;
    for target in [0x1_0000_0000u64, 0x1_4000_5678, 0xf000_0ff8] {
        let insn = encode_adrp_reg(16, place, target, "x").unwrap();
        assert_eq!(adrp_page(insn, place), page(target));
        assert_eq!(insn & 0x1f, 16);

        let thunk = words(&encode_thunk(place, target).unwrap());
        assert_eq!(adrp_page(thunk[0], place), page(target));
        assert_eq!(((thunk[1] >> 10) & 0xfff) as u64, target & 0xfff);

        let stub = words(&encode_stub(place, target).unwrap());
        assert_eq!(adrp_page(stub[0], place), page(target));
        assert_eq!(((stub[1] >> 10) & 0xfff) as u64 * 8, target & 0xfff);
    }
    assert!(encode_adrp_reg(16, 0, 1 << 40, "x").is_err());
}

#[test]
fn patterns_match_as_they_read() {
    for (pattern, value, expected) in [
        ("_a", "_a", true),
        ("_a", "_ab", false),
        ("_a*", "_a", true),
        ("_a*c", "_abbc", true),
        ("_a*c", "_abbd", false),
        ("_?", "_x", true),
        ("_?", "_", false),
        ("*", "", true),
        ("**b*", "ab", true),
        ("", "", true),
        ("", "x", false),
        ("a?c", "a*c", true),
        ("*", "*x", false),
    ] {
        assert_eq!(wildcard_matches(pattern, value), expected, "{pattern} {value}");
    }
    assert_eq!(symbol_patterns("  _a \n\n\t_b*\r\n"), vec!["_a", "_b*"]);
}

#[test]
fn load_kinds_and_commands_go_together() {
    for (cmd, kind) in [
        (LC_LOAD_DYLIB, DylibLoadKind::Normal),
        (LC_LOAD_WEAK_DYLIB, DylibLoadKind::Weak),
        (LC_REEXPORT_DYLIB, DylibLoadKind::Reexport),
        (LC_LOAD_UPWARD_DYLIB, DylibLoadKind::Upward),
    ] {
        assert_eq!(DylibLoadKind::from_cmd(cmd), Some(kind));
        assert_eq!(kind.load_cmd(), cmd);
    }
    assert_eq!(DylibLoadKind::from_cmd(LC_ID_DYLIB), None);
}

#[test]
fn exports_are_listed_or_not() {
    assert!(Exports::empty().entries().unwrap().is_empty());
    assert!(Exports::from_trie_bytes(&[1]).entries().is_none());
    let weak = ExportEntry {
        name: "_w".into(),
        flags: 4,
        kind: ExportKind::Regular { address: 0 },
    };
    assert!(weak.weak_def());
}

#[test]
fn targets_are_read_back() {
    for text in ["arm64-macos", "arm64e-maccatalyst", "x86_64-ios", "riscv-plan9", "a-b-macos"] {
        assert_eq!(parse_target(text).unwrap().as_string(), text);
    }
    assert_eq!(
        parse_target("arm64").unwrap_err().to_string(),
        "TBD schema error: target \"arm64\" is not `arch-platform`"
    );
    assert!(parse_version("1.x").unwrap_err().to_string().ends_with(": \"1.x\""));
}

#[test]
fn narrowing_twice_is_narrowing_once() {
    let target = Target {
        arch: Arch::Arm64,
        platform: Platform::MacOs,
    };
    let src = "--- !tapi-tbd\n\
               tbd-version: 4\n\
               targets: [ arm64-macos, x86_64-macos ]\n\
               install-name: '/usr/lib/libfoo.dylib'\n\
               exports:\n\
               \x20 - targets: [ arm64-macos ]\n\
               \x20   symbols: [ _a ]\n\
               \x20 - targets: [ x86_64-macos ]\n\
               \x20   symbols: [ _b ]\n";
    let once = filter_docs_for_target(parse_tbd(src).unwrap(), &target);
    let twice = filter_docs_for_target(
        filter_docs_for_target(parse_tbd(src).unwrap(), &target),
        &target,
    );
    assert_eq!(once, twice);
    assert_eq!(once[0].exports.len(), 1);
}

#[test]
fn yaml_errors_say_where() {
    let error = YamlError {
        line: 2,
        col: 3,
        msg: "why".into(),
    };
    assert_eq!(error.to_string(), "YAML error at line 2, col 3: why");
    let error = parse_tbd("xs: [ a,\n").unwrap_err();
    assert!(error.to_string().starts_with("YAML error at line "));
    assert!(parse_documents("").unwrap().is_empty());
}

#[test]
fn a_section_is_lifted_from_its_header() {
    let mut sectname = [0u8; 16];
    sectname[..6].copy_from_slice(b"__text");
    let mut segname = [0u8; 16];
    segname[..6].copy_from_slice(b"__TEXT");
    let header = Section64Header {
        sectname,
        segname,
        addr: 0x40,
        size: 4,
        offset: 2,
        align: 2,
        reloff: 6,
        nreloc: 1,
        flags: 0x8000_0400,
        reserved1: 0,
        reserved2: 0,
        reserved3: 0,
    };
    let file: Vec<u8> = (0u8..14).collect();
    let section = InputSection::from_header(&header, &file).unwrap();
    assert_eq!(section.segname, "__TEXT");
    assert_eq!(section.sectname, "__text");
    assert_eq!(section.kind, SectionKind::Text);
    assert_eq!(section.addr, 0x40);
    assert_eq!(section.data, vec![2, 3, 4, 5]);
    assert_eq!(section.raw_relocs, vec![6, 7, 8, 9, 10, 11, 12, 13]);
    assert!(matches!(
        InputSection::from_header(&header, &file[..5]),
        Err(ReadError::Truncated { need: 6, have: 5, .. })
    ));
    assert!(matches!(
        InputSection::from_header(&header, &file[..13]),
        Err(ReadError::Truncated { need: 14, have: 13, .. })
    ));
}

#[test]
fn protections_are_bit_sets() {
    assert_eq!(Prot::read_write(), Prot(3));
    assert_eq!(Prot::read_execute(), Prot(5));
}

#[test]
fn relocations_stay_inside_their_section() {
    let reloc = Reloc {
        offset: 4,
        kind: RelocKind::Unsigned,
        length: RelocLength::Quad,
        pcrel: false,
        referent: Referent::Symbol(2),
        addend: 0,
        subtrahend: None,
    };
    assert!(validate_relocs(&[reloc], 12, 3, 0).is_ok());
    assert!(validate_relocs(&[], 0, 0, 0).is_ok());
    assert!(validate_relocs(&[reloc], 11, 3, 0).is_err());
    assert!(validate_relocs(&[reloc], 12, 2, 0).is_err());
}

#[test]
fn build_times_add_up() {
    let mut times = LinkEditBuildTimings::default();
    let run = LinkEditBuildTimings {
        symbol_plan: 7,
        dyld_bind: 3,
        ..LinkEditBuildTimings::default()
    };
    times.add_assign(run);
    times.add_assign(run);
    assert_eq!(times.symbol_plan, 14);
    assert_eq!(times.dyld_bind, 6);
    assert_eq!(times.code_signature, 0);
}
