use afs_ld::atom::{AltEntry, Atom, AtomFlags, AtomSection, AtomTable};
use afs_ld::input::ObjectFile;
use afs_ld::layout::{Layout, LayoutInput, PAGE_SIZE};
use afs_ld::leb::read_uleb;
use afs_ld::macho::constants::{
    CPU_SUBTYPE_ARM64_ALL, CPU_TYPE_ARM64, LC_ID_DYLIB, LC_MAIN, MH_DYLIB, MH_EXECUTE, MH_MAGIC_64,
    MH_OBJECT, N_ALT_ENTRY, N_SECT,
};
use afs_ld::macho::reader::{
    parse_commands, parse_header, LoadCommand, MachHeader64, HEADER_SIZE,
};
use afs_ld::macho::writer::file::{write_finalized_with_dylibs, write_finalized_with_linkedit};
use afs_ld::macho::writer::finalize::{
    finalize_layout, finalize_layout_with_linkedit, FinalizeAction, FinalizeStage,
};
use afs_ld::macho::writer::plan::{size_linkedit_segment, CodeSignaturePlan, LinkEditPlan};
use afs_ld::macho::writer::ranges::{
    build_atom_range_index, find_containing_atom, find_containing_atom_range,
};
use afs_ld::macho::writer::starts::build_function_starts;
use afs_ld::options::{LinkOptions, OutputKind};
use afs_ld::resolve::{AtomId, InputId, SymbolId};
use afs_ld::section::{
    InputSection, OutputAtom, OutputSection, OutputSectionId, OutputSegment, Prot, SectionKind,
};
use afs_ld::string_table::StringTable;
use afs_ld::symbol::{InputSymbol, RawNlist};
fn decode_function_starts_blob(blob: &[u8]) -> Vec<u64> {
    let mut out = Vec::new();
    let mut cursor = 0usize;
    let mut current = 0u64;
    while cursor < blob.len() {
        let (delta, used) = read_uleb(&blob[cursor..]).unwrap();
        cursor += used;
        if delta == 0 {
            break;
        }
        current += delta;
        out.push(current);
    }
    out
}

fn empty_section() -> OutputSection {
    OutputSection {
        segment: "__TEXT".into(),
        name: "__text".into(),
        kind: SectionKind::Text,
        align_pow2: 2,
        flags: 0,
        reserved1: 0,
        reserved2: 0,
        reserved3: 0,
        atoms: Vec::new(),
        synthetic_offset: 0,
        synthetic_data: Vec::new(),
        addr: 0x1_0000_1000,
        size: 0,
        file_off: 0x1000,
    }
}

fn segment(name: &str, sections: Vec<OutputSectionId>, addr: u64, file_off: u64) -> OutputSegment {
    OutputSegment {
        name: name.into(),
        sections,
        vm_addr: addr,
        vm_size: PAGE_SIZE,
        file_off,
        file_size: PAGE_SIZE,
        init_prot: Prot::read_execute(),
        max_prot: Prot::read_execute(),
        flags: 0,
    }
}

/// A layout without any input: an empty text section and the tables behind it.
fn empty_layout(kind: OutputKind) -> Layout {
    Layout {
        kind,
        segments: vec![
            segment("__TEXT", vec![OutputSectionId(0)], 0x1_0000_0000, 0),
            segment("__LINKEDIT", Vec::new(), 0x1_0000_4000, PAGE_SIZE),
        ],
        sections: vec![empty_section()],
    }
}

fn write(layout: &Layout, kind: OutputKind, opts: &LinkOptions, out: &mut Vec<u8>) {
    let plan = LinkEditPlan::minimal(layout).unwrap();
    let mut sized = empty_layout(layout.kind);
    size_linkedit_segment(&mut sized, &plan).unwrap();
    write_finalized_with_linkedit(&sized, kind, opts, None, &[], &plan, out).unwrap();
}

#[test]
fn minimal_executable_writes_parseable_header() {
    let layout = empty_layout(OutputKind::Executable);
    let mut bytes = Vec::new();
    write(
        &layout,
        OutputKind::Executable,
        &LinkOptions::default(),
        &mut bytes,
    );

    let header = parse_header(&bytes).unwrap();
    let commands = parse_commands(&header, &bytes).unwrap();
    assert_eq!(header.filetype, MH_EXECUTE);
    assert!(
        commands
            .iter()
            .any(|cmd| matches!(cmd, LoadCommand::Raw { cmd, .. } if *cmd == LC_MAIN)),
        "expected LC_MAIN in {commands:?}"
    );
    assert!(bytes.len() >= HEADER_SIZE);
}

#[test]
fn minimal_dylib_writes_parseable_header() {
    let layout = empty_layout(OutputKind::Dylib);
    let mut bytes = Vec::new();
    let opts = LinkOptions {
        output: Some("libtiny.dylib".into()),
        ..LinkOptions::default()
    };
    write(&layout, OutputKind::Dylib, &opts, &mut bytes);

    let header = parse_header(&bytes).unwrap();
    let commands = parse_commands(&header, &bytes).unwrap();
    assert_eq!(header.filetype, MH_DYLIB);
    assert!(
        commands
            .iter()
            .any(|cmd| matches!(cmd, LoadCommand::Dylib(d) if d.cmd == LC_ID_DYLIB)),
        "expected LC_ID_DYLIB in {commands:?}"
    );
}

#[test]
fn linkedit_starts_on_page_boundary_after_text() {
    let layout = empty_layout(OutputKind::Executable);
    let mut bytes = Vec::new();
    write(
        &layout,
        OutputKind::Executable,
        &LinkOptions::default(),
        &mut bytes,
    );

    let header = parse_header(&bytes).unwrap();
    let commands = parse_commands(&header, &bytes).unwrap();
    let mut text = None;
    let mut linkedit = None;
    for cmd in commands {
        if let LoadCommand::Segment64(seg) = cmd {
            let name = seg.segname_str();
            if name == "__TEXT" {
                text = Some(seg);
            } else if name == "__LINKEDIT" {
                linkedit = Some(seg);
            }
        }
    }

    let text = text.unwrap();
    let linkedit = linkedit.unwrap();
    assert_eq!(linkedit.fileoff % PAGE_SIZE, 0);
    assert!(linkedit.fileoff >= text.filesize);
}

#[test]
fn text_only_executable_omits_empty_data_segments() {
    let layout = empty_layout(OutputKind::Executable);
    let mut bytes = Vec::new();
    write(
        &layout,
        OutputKind::Executable,
        &LinkOptions::default(),
        &mut bytes,
    );

    let header = parse_header(&bytes).unwrap();
    let commands = parse_commands(&header, &bytes).unwrap();
    let segment_names: Vec<String> = commands
        .into_iter()
        .filter_map(|cmd| match cmd {
            LoadCommand::Segment64(seg) => Some(seg.segname_str()),
            _ => None,
        })
        .collect();

    assert!(segment_names.iter().any(|name| name == "__TEXT"));
    assert!(segment_names.iter().any(|name| name == "__LINKEDIT"));
    assert!(!segment_names.iter().any(|name| name == "__DATA_CONST"));
    assert!(!segment_names.iter().any(|name| name == "__DATA"));
}

#[test]
fn function_starts_use_all_executable_text_atoms_and_alt_entries_only() {
    let mut atoms = AtomTable::new();
    let atom_id = atoms.push(Atom {
        id: AtomId(0),
        origin: InputId(1),
        input_section: 1,
        section: AtomSection::Text,
        input_offset: 0,
        size: 16,
        align_pow2: 2,
        owner: None,
        alt_entries: vec![AltEntry {
            symbol: SymbolId(1),
            offset_within_atom: 8,
        }],
        data: vec![0; 16],
        flags: AtomFlags::none(),
        parent_of: None,
    });
    let coalesced_atom_id = atoms.push(Atom {
        id: AtomId(1),
        origin: InputId(1),
        input_section: 2,
        section: AtomSection::Text,
        input_offset: 0,
        size: 4,
        align_pow2: 2,
        owner: None,
        alt_entries: Vec::new(),
        data: vec![0; 4],
        flags: AtomFlags::none(),
        parent_of: None,
    });
    let layout = Layout {
        kind: OutputKind::Executable,
        segments: vec![OutputSegment {
            name: "__TEXT".into(),
            sections: vec![
                OutputSectionId(0),
                OutputSectionId(1),
                OutputSectionId(2),
                OutputSectionId(3),
            ],
            vm_addr: 0x1_0000_0000,
            vm_size: 0x4000,
            file_off: 0,
            file_size: 0x4000,
            init_prot: Prot::read_execute(),
            max_prot: Prot::read_execute(),
            flags: 0,
        }],
        sections: vec![
            OutputSection {
                segment: "__TEXT".into(),
                name: "__text".into(),
                kind: SectionKind::Text,
                align_pow2: 2,
                flags: 0,
                reserved1: 0,
                reserved2: 0,
                reserved3: 0,
                atoms: vec![OutputAtom {
                    atom: atom_id,
                    offset: 0,
                    size: 16,
                    data: vec![0; 16],
                }],
                synthetic_offset: 0,
                synthetic_data: Vec::new(),
                addr: 0x1_0000_1000,
                size: 16,
                file_off: 0x1000,
            },
            OutputSection {
                segment: "__TEXT".into(),
                name: "__stubs".into(),
                kind: SectionKind::SymbolStubs,
                align_pow2: 2,
                flags: 0,
                reserved1: 0,
                reserved2: 0,
                reserved3: 0,
                atoms: Vec::new(),
                synthetic_offset: 0,
                synthetic_data: vec![0; 12],
                addr: 0x1_0000_1010,
                size: 12,
                file_off: 0x1010,
            },
            OutputSection {
                segment: "__TEXT".into(),
                name: "__stub_helper".into(),
                kind: SectionKind::Text,
                align_pow2: 2,
                flags: 0,
                reserved1: 0,
                reserved2: 0,
                reserved3: 0,
                atoms: Vec::new(),
                synthetic_offset: 0,
                synthetic_data: vec![0; 36],
                addr: 0x1_0000_101c,
                size: 36,
                file_off: 0x101c,
            },
            OutputSection {
                segment: "__TEXT".into(),
                name: "__textcoal_nt".into(),
                kind: SectionKind::Coalesced,
                align_pow2: 2,
                flags: 0,
                reserved1: 0,
                reserved2: 0,
                reserved3: 0,
                atoms: vec![OutputAtom {
                    atom: coalesced_atom_id,
                    offset: 0,
                    size: 4,
                    data: vec![0; 4],
                }],
                synthetic_offset: 0,
                synthetic_data: Vec::new(),
                addr: 0x1_0000_1040,
                size: 4,
                file_off: 0x1040,
            },
        ],
    };

    let blob = build_function_starts(&layout, &[], &atoms).unwrap();
    assert_eq!(
        decode_function_starts_blob(&blob),
        vec![0x1000, 0x1008, 0x1040]
    );
}

#[test]
fn function_starts_index_uses_only_interior_named_entries() {
    let mut atoms = AtomTable::new();
    let atom_id = atoms.push(Atom {
        id: AtomId(0),
        origin: InputId(1),
        input_section: 1,
        section: AtomSection::Text,
        input_offset: 0,
        size: 16,
        align_pow2: 2,
        owner: None,
        alt_entries: Vec::new(),
        data: vec![0; 16],
        flags: AtomFlags::none(),
        parent_of: None,
    });
    let zero_atom_id = atoms.push(Atom {
        id: AtomId(0),
        origin: InputId(1),
        input_section: 1,
        section: AtomSection::Text,
        input_offset: 16,
        size: 0,
        align_pow2: 2,
        owner: None,
        alt_entries: Vec::new(),
        data: Vec::new(),
        flags: AtomFlags::none(),
        parent_of: None,
    });
    let object = object_with_text_symbols(&[
        ("_start", 0x1000, 0),
        ("Ltmp0", 0x1004, 0),
        ("_middle", 0x1008, 0),
        ("_alt", 0x100c, N_ALT_ENTRY),
        ("_end", 0x1010, 0),
    ]);
    let inputs = [LayoutInput {
        id: InputId(1),
        object: &object,
        load_order: 0,
        archive_member_offset: None,
    }];
    let layout = Layout {
        kind: OutputKind::Executable,
        segments: vec![OutputSegment {
            name: "__TEXT".into(),
            sections: vec![OutputSectionId(0)],
            vm_addr: 0x1_0000_0000,
            vm_size: 0x4000,
            file_off: 0,
            file_size: 0x4000,
            init_prot: Prot::read_execute(),
            max_prot: Prot::read_execute(),
            flags: 0,
        }],
        sections: vec![OutputSection {
            segment: "__TEXT".into(),
            name: "__text".into(),
            kind: SectionKind::Text,
            align_pow2: 2,
            flags: 0,
            reserved1: 0,
            reserved2: 0,
            reserved3: 0,
            atoms: vec![
                OutputAtom {
                    atom: atom_id,
                    offset: 0,
                    size: 16,
                    data: vec![0; 16],
                },
                OutputAtom {
                    atom: zero_atom_id,
                    offset: 16,
                    size: 0,
                    data: Vec::new(),
                },
            ],
            synthetic_offset: 0,
            synthetic_data: Vec::new(),
            addr: 0x1_0000_1000,
            size: 16,
            file_off: 0x1000,
        }],
    };

    let blob = build_function_starts(&layout, &inputs, &atoms).unwrap();
    assert_eq!(
        decode_function_starts_blob(&blob),
        vec![0x1000, 0x1008, 0x1010]
    );
}

fn object_with_text_symbols(symbols: &[(&str, u64, u16)]) -> ObjectFile {
    let mut strings = vec![0];
    let mut strx = Vec::new();
    for (name, _, _) in symbols {
        strx.push(strings.len() as u32);
        strings.extend_from_slice(name.as_bytes());
        strings.push(0);
    }
    ObjectFile {
        path: "function-starts-index.o".into(),
        header: MachHeader64 {
            magic: MH_MAGIC_64,
            cputype: CPU_TYPE_ARM64,
            cpusubtype: CPU_SUBTYPE_ARM64_ALL,
            filetype: MH_OBJECT,
            ncmds: 0,
            sizeofcmds: 0,
            flags: 0,
            reserved: 0,
        },
        commands: Vec::new(),
        sections: vec![InputSection {
            segname: "__TEXT".into(),
            sectname: "__text".into(),
            kind: SectionKind::Text,
            addr: 0x1000,
            size: 16,
            align_pow2: 2,
            flags: 0,
            offset: 0,
            reloff: 0,
            nreloc: 0,
            reserved1: 0,
            reserved2: 0,
            reserved3: 0,
            data: vec![0; 16],
            raw_relocs: Vec::new(),
        }],
        symbols: symbols
            .iter()
            .zip(strx)
            .map(|((_, value, desc), strx)| {
                InputSymbol::from_raw(RawNlist {
                    strx,
                    n_type: N_SECT,
                    n_sect: 1,
                    n_desc: *desc,
                    n_value: *value,
                })
            })
            .collect(),
        strings: StringTable::from_bytes(strings),
        symtab: None,
        dysymtab: None,
        loh: Vec::new(),
        data_in_code: Vec::new(),
    }
}

#[test]
fn containing_atom_lookup_reuses_precomputed_section_index() {
    let mut atoms = AtomTable::new();
    let first = atoms.push(Atom {
        id: AtomId(0),
        origin: InputId(7),
        input_section: 3,
        section: AtomSection::Text,
        input_offset: 0,
        size: 8,
        align_pow2: 2,
        owner: None,
        alt_entries: Vec::new(),
        data: vec![0; 8],
        flags: AtomFlags::none(),
        parent_of: None,
    });
    let second = atoms.push(Atom {
        id: AtomId(0),
        origin: InputId(7),
        input_section: 3,
        section: AtomSection::Text,
        input_offset: 8,
        size: 12,
        align_pow2: 2,
        owner: None,
        alt_entries: Vec::new(),
        data: vec![0; 12],
        flags: AtomFlags::none(),
        parent_of: None,
    });

    let by_input_section = atoms.by_input_section();
    let atom_ranges = build_atom_range_index(&atoms, &by_input_section, None);
    assert_eq!(
        find_containing_atom(&atom_ranges, InputId(7), 3, 4),
        Some((first, 4))
    );
    assert_eq!(
        find_containing_atom_range(&atom_ranges, InputId(7), 3, 10, 2),
        Some((second, 2))
    );
}

#[test]
fn an_image_without_tables_is_written_with_its_minimal_plan() {
    let plan = LinkEditPlan::minimal(&empty_layout(OutputKind::Executable)).unwrap();
    let mut layout = empty_layout(OutputKind::Executable);
    size_linkedit_segment(&mut layout, &plan).unwrap();
    let opts = LinkOptions::default();
    let kind = OutputKind::Executable;
    let mut with_plan = Vec::new();
    write_finalized_with_linkedit(&layout, kind, &opts, None, &[], &plan, &mut with_plan).unwrap();
    let mut with_dylibs = Vec::new();
    write_finalized_with_dylibs(&layout, kind, &opts, None, &[], None, &mut with_dylibs).unwrap();
    assert_eq!(with_plan, with_dylibs);
    assert!(!with_plan.is_empty());
}

#[test]
fn a_signature_stands_behind_the_tables() {
    let plan = LinkEditPlan::minimal(&empty_layout(OutputKind::Executable)).unwrap();
    let limit = plan.code_limit();
    assert_eq!(limit % 16, 0);
    assert!(limit >= plan.symtab.stroff as u64 + plan.strtab_bytes.len() as u64);
    assert!(limit < plan.symtab.stroff as u64 + plan.strtab_bytes.len() as u64 + 16);
    let signature = CodeSignaturePlan {
        dataoff: limit as u32,
        datasize: 0x120,
    };
    let signed = plan.with_code_signature(signature);
    assert_eq!(signed.total_size(), limit + 0x120 - PAGE_SIZE);
}

#[test]
fn a_layout_is_final_when_the_room_for_the_header_is_right() {
    let kind = OutputKind::Executable;
    let opts = LinkOptions::default();
    let mut layout = empty_layout(kind);
    let first = finalize_layout(&mut layout, kind, &opts, &[], None, FinalizeStage::Planned);
    let (header_size, next) = match first {
        Ok(FinalizeAction::Relayout { header_size, next }) => (header_size, next),
        other => panic!("{other:?}"),
    };
    assert_eq!(next, FinalizeStage::Estimated { header_size });

    let mut written = Vec::new();
    let plan = LinkEditPlan::minimal(&layout).unwrap();
    let mut sized = empty_layout(kind);
    size_linkedit_segment(&mut sized, &plan).unwrap();
    write_finalized_with_linkedit(&sized, kind, &opts, None, &[], &plan, &mut written).unwrap();
    let header = parse_header(&written).unwrap();
    assert_eq!(header_size, HEADER_SIZE as u64 + header.sizeofcmds as u64);

    let done = finalize_layout_with_linkedit(&mut layout, kind, &opts, &[], &plan, next).unwrap();
    assert_eq!(done, FinalizeAction::Done);
    assert_eq!(layout.segments[1].file_size, 8);
    assert_eq!(layout.segments[1].vm_size, PAGE_SIZE);
}

#[test]
fn a_wrong_room_for_the_header_is_corrected_once() {
    let kind = OutputKind::Executable;
    let opts = LinkOptions::default();
    let mut layout = empty_layout(kind);
    let stage = FinalizeStage::Estimated { header_size: 1 };
    let again = finalize_layout(&mut layout, kind, &opts, &[], None, stage).unwrap();
    assert!(matches!(
        again,
        FinalizeAction::Relayout { header_size, next: FinalizeStage::Corrected } if header_size > 1
    ));
    let stage = FinalizeStage::Corrected;
    let done = finalize_layout(&mut layout, kind, &opts, &[], None, stage).unwrap();
    assert_eq!(done, FinalizeAction::Done);
    layout.segments.pop();
    assert!(finalize_layout(&mut layout, kind, &opts, &[], None, stage).is_err());
}
