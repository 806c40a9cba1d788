use std::collections::HashMap;

use afs_ld::atom::{Atom, AtomFlags, AtomSection, AtomTable};
use afs_ld::input::ObjectFile;
use afs_ld::layout::{Layout, LayoutInput};
use afs_ld::macho::constants::{
    CPU_SUBTYPE_ARM64_ALL, CPU_TYPE_ARM64, LC_MAIN, MH_EXECUTE, MH_MAGIC_64, MH_OBJECT, N_EXT,
    N_SECT, N_UNDF,
};
use afs_ld::macho::dylib::{DylibDependency, DylibFile, DylibLoadKind};
use afs_ld::macho::exports::{ExportEntry, ExportKind, Exports};
use afs_ld::macho::reader::{
    parse_commands, parse_header, LoadCommand, MachHeader64, ReadError, HEADER_SIZE,
};
use afs_ld::macho::writer::bind::build_bind_streams;
use afs_ld::macho::writer::commands::{
    estimate_header_size, exact_sizeofcmds, header_mismatch, resolve_entryoff,
};
use afs_ld::macho::writer::file::{final_file_size, place_code_signature, write_finalized_with_linkedit};
use afs_ld::macho::writer::image_plan::{plan_image, plan_symbols};
use afs_ld::macho::writer::imports::{collect_imports, ImportLookup};
use afs_ld::macho::writer::plan::{
    apply_indirect_starts, build_linkedit_plan, size_linkedit_segment, CodeSignaturePlan,
    LinkEditPlan,
};
use afs_ld::macho::writer::relocs::build_parsed_reloc_cache;
use afs_ld::macho::writer::symbol_plan::build_output_symbols;
use afs_ld::macho::writer::{EntryPoint, LinkEditContext, WriteError};
use afs_ld::options::{LinkOptions, OutputKind};
use afs_ld::reloc::arm64::image::{apply_layout, ApplyLayoutPlan};
use afs_ld::reloc::{write_raw_relocs, write_relocs, Referent, Reloc, RelocKind, RelocLength};
use afs_ld::resolve::{seed_all, AtomId, InputId, Inputs, SymbolTable};
use afs_ld::section::{
    InputSection, OutputAtom, OutputSection, OutputSectionId, OutputSegment, Prot, SectionKind,
};
use afs_ld::string_table::StringTable;
use afs_ld::symbol::{parse_nlist_table, InputSymbol, RawNlist, SymKind};
use afs_ld::symbol_visibility::SymbolVisibilityPolicy;
use afs_ld::synth::{SlotEntry, SlotTable, SyntheticPlan};

fn reloc(offset: u32, kind: RelocKind, length: RelocLength, pcrel: bool, symbol: u32) -> Reloc {
    Reloc {
        offset,
        kind,
        length,
        pcrel,
        referent: Referent::Symbol(symbol),
        addend: 0,
        subtrahend: None,
    }
}

fn raw(relocs: &[Reloc]) -> Vec<u8> {
    let mut out = Vec::new();
    write_raw_relocs(&write_relocs(relocs).unwrap(), &mut out);
    out
}

fn input_section(seg: &str, name: &str, kind: SectionKind, addr: u64, data: Vec<u8>, raw_relocs: Vec<u8>) -> InputSection {
    InputSection {
        segname: seg.into(),
        sectname: name.into(),
        kind,
        addr,
        size: data.len() as u64,
        align_pow2: 2,
        flags: 0,
        offset: 0,
        reloff: 0,
        nreloc: (raw_relocs.len() / 8) as u32,
        reserved1: 0,
        reserved2: 0,
        reserved3: 0,
        data,
        raw_relocs,
    }
}

fn code() -> Vec<u8> {
    let mut out = Vec::new();
    for insn in [0x9400_0000u32, 0x9000_0000, 0xf940_0000, 0xd65f_03c0] {
        out.extend_from_slice(&insn.to_le_bytes());
    }
    out
}

/// `main` calls `_puts`, loads the address of `_var` and is pointed at by data.
fn object() -> ObjectFile {
    let strings = b"\0_main\0_puts\0_var\0l_ptr\0".to_vec();
    let sym = |strx, n_type, n_sect, n_value| {
        InputSymbol::from_raw(RawNlist { strx, n_type, n_sect, n_desc: 0, n_value })
    };
    ObjectFile {
        path: "main.o".into(),
        header: MachHeader64 {
            magic: MH_MAGIC_64,
            cputype: CPU_TYPE_ARM64,
            cpusubtype: CPU_SUBTYPE_ARM64_ALL,
            filetype: MH_OBJECT,
            ncmds: 0,
            sizeofcmds: 0,
            flags: 0,
            reserved: 0,
        },
        commands: Vec::new(),
        sections: vec![
            input_section(
                "__TEXT",
                "__text",
                SectionKind::Text,
                0,
                code(),
                raw(&[
                    reloc(0, RelocKind::Branch26, RelocLength::Word, true, 1),
                    reloc(4, RelocKind::GotLoadPage21, RelocLength::Word, true, 2),
                    reloc(8, RelocKind::GotLoadPageOff12, RelocLength::Word, false, 2),
                ]),
            ),
            input_section(
                "__DATA",
                "__data",
                SectionKind::Data,
                16,
                vec![0; 8],
                raw(&[reloc(0, RelocKind::Unsigned, RelocLength::Quad, false, 0)]),
            ),
        ],
        symbols: vec![
            sym(1, N_SECT | N_EXT, 1, 0),
            sym(7, N_UNDF | N_EXT, 0, 0),
            sym(13, N_UNDF | N_EXT, 0, 0),
            sym(18, N_SECT, 2, 16),
        ],
        strings: StringTable::from_bytes(strings),
        symtab: None,
        dysymtab: None,
        loh: Vec::new(),
        data_in_code: Vec::new(),
    }
}

fn atom(section: AtomSection, input_section: u8, data: Vec<u8>) -> Atom {
    Atom {
        id: AtomId(0),
        origin: InputId(0),
        input_section,
        section,
        input_offset: 0,
        size: data.len() as u32,
        align_pow2: 2,
        owner: None,
        alt_entries: Vec::new(),
        data,
        flags: AtomFlags::none(),
        parent_of: None,
    }
}

fn section(
    segment: &str,
    name: &str,
    kind: SectionKind,
    addr: u64,
    file_off: u64,
    atoms: Vec<OutputAtom>,
    synthetic_offset: u64,
    synthetic: usize,
) -> OutputSection {
    OutputSection {
        segment: segment.into(),
        name: name.into(),
        kind,
        align_pow2: 2,
        flags: 0,
        reserved1: 0,
        reserved2: 0,
        reserved3: 0,
        size: atoms.iter().map(|a| a.size).sum::<u64>() + synthetic as u64,
        atoms,
        synthetic_offset,
        synthetic_data: vec![0; synthetic],
        addr,
        file_off,
    }
}

fn segment(name: &str, sections: &[u32], addr: u64, file_off: u64, size: u64) -> OutputSegment {
    OutputSegment {
        name: name.into(),
        sections: sections.iter().map(|i| OutputSectionId(*i)).collect(),
        vm_addr: addr,
        vm_size: 0x4000,
        file_off,
        file_size: size,
        init_prot: Prot::read_only(),
        max_prot: Prot::read_only(),
        flags: 0,
    }
}

const BASE: u64 = 0x1_0000_0000;

fn layout(text: AtomId, data: AtomId) -> Layout {
    let placed = |atom, bytes: Vec<u8>| OutputAtom {
        atom,
        offset: 0,
        size: bytes.len() as u64,
        data: bytes,
    };
    Layout {
        kind: OutputKind::Executable,
        segments: vec![
            segment("__TEXT", &[0, 1, 2], BASE, 0, 0x4000),
            segment("__DATA_CONST", &[3], BASE + 0x4000, 0x4000, 0x4000),
            segment("__DATA", &[4, 5], BASE + 0x8000, 0x8000, 0x4000),
            segment("__LINKEDIT", &[], BASE + 0xc000, 0xc000, 0),
        ],
        sections: vec![
            section("__TEXT", "__text", SectionKind::Text, BASE + 0x1000, 0x1000, vec![placed(text, code())], 0, 0),
            section("__TEXT", "__stubs", SectionKind::SymbolStubs, BASE + 0x1010, 0x1010, Vec::new(), 0, 12),
            section("__TEXT", "__stub_helper", SectionKind::Text, BASE + 0x101c, 0x101c, Vec::new(), 0, 36),
            section("__DATA_CONST", "__got", SectionKind::NonLazySymbolPointers, BASE + 0x4000, 0x4000, Vec::new(), 0, 16),
            section("__DATA", "__la_symbol_ptr", SectionKind::LazySymbolPointers, BASE + 0x8000, 0x8000, Vec::new(), 0, 8),
            section("__DATA", "__data", SectionKind::Data, BASE + 0x8008, 0x8008, vec![placed(data, vec![0; 8])], 8, 8),
        ],
    }
}

struct Link {
    inputs: Inputs,
    table: SymbolTable,
    atoms: AtomTable,
    layout: Layout,
    plan: SyntheticPlan,
}

fn link() -> Link {
    let mut inputs = Inputs::new();
    inputs.add_parsed_object("main.o".into(), Vec::new(), object(), 0);
    let export = |name: &str| ExportEntry {
        name: name.into(),
        flags: 0,
        kind: ExportKind::Regular { address: 0 },
    };
    let file = DylibFile {
        path: "libSystem".into(),
        header: object().header,
        commands: Vec::new(),
        install_name: "/usr/lib/libSystem.B.dylib".into(),
        current_version: 1,
        compatibility_version: 1,
        dependencies: Vec::new(),
        rpaths: Vec::new(),
        symtab: None,
        exports: Exports::from_entries(vec![
            export("_puts"),
            export("_var"),
            export("dyld_stub_binder"),
        ]),
    };
    inputs.add_dylib_from_file("libSystem".into(), file);
    let mut table = SymbolTable::new();
    seed_all(&inputs, &no_tries(&inputs), &mut table).unwrap();

    let mut atoms = AtomTable::new();
    let text = atoms.push(atom(AtomSection::Text, 1, code()));
    let data = atoms.push(atom(AtomSection::Data, 2, vec![0; 8]));
    let main = table.lookup_str("_main").unwrap();
    table.bind_atom(main, text, 0);

    let slot = |name: &str| SlotEntry {
        symbol: table.lookup_str(name).unwrap(),
    };
    let plan = SyntheticPlan {
        stubs: SlotTable { entries: vec![slot("_puts")] },
        got: SlotTable { entries: vec![slot("_var"), slot("dyld_stub_binder")] },
        thread_pointers: SlotTable { entries: Vec::new() },
        lazy_pointers: SlotTable { entries: vec![slot("_puts")] },
        direct_binds: Vec::new(),
        tlv_bootstrap_symbol: None,
        binder_symbol: table.lookup_str("dyld_stub_binder"),
        needs_dyld_private: true,
    };
    Link {
        layout: layout(text, data),
        inputs,
        table,
        atoms,
        plan,
    }
}

fn word(bytes: &[u8], at: usize) -> u32 {
    u32::from_le_bytes(bytes[at..at + 4].try_into().unwrap())
}

fn quad(bytes: &[u8], at: usize) -> u64 {
    u64::from_le_bytes(bytes[at..at + 8].try_into().unwrap())
}

fn policy() -> SymbolVisibilityPolicy {
    SymbolVisibilityPolicy {
        exported: Vec::new(),
        unexported: Vec::new(),
    }
}

fn no_tries(inputs: &Inputs) -> Vec<Result<Vec<ExportEntry>, ReadError>> {
    inputs.dylibs.iter().map(|_| Ok(vec![])).collect()
}

#[test]
fn a_small_image_is_planned_written_and_read_back() {
    let mut link = link();
    let inputs = [LayoutInput {
        id: InputId(0),
        object: &link.inputs.objects[0].parsed,
        load_order: 0,
        archive_member_offset: None,
    }];
    let relocs = build_parsed_reloc_cache(&inputs).unwrap();
    let ctx = LinkEditContext {
        layout_inputs: &inputs,
        atom_table: &link.atoms,
        sym_table: &link.table,
        synthetic_plan: &link.plan,
        icf_redirects: None,
        parsed_relocs: &relocs,
    };
    let records = collect_imports(&link.table, &link.plan);
    let names: Vec<&str> = records.iter().map(|r| r.name.as_str()).collect();
    assert_eq!(names, vec!["_puts", "_var", "dyld_stub_binder"]);

    let symbols = build_output_symbols(
        &link.layout,
        OutputKind::Executable,
        false,
        false,
        &policy(),
        &ctx,
        &records,
    )
    .unwrap();
    assert_eq!(symbols.exports.len(), 2);
    let opts = LinkOptions::default();
    let kind = OutputKind::Executable;
    let again = plan_symbols(&link.layout, kind, &opts, &policy(), &ctx).unwrap();
    assert_eq!(again.exports, symbols.exports);
    let plan = build_linkedit_plan(&link.layout, &ctx, &records, symbols, Vec::new()).unwrap();
    let whole = plan_image(&link.layout, kind, &opts, &policy(), &ctx, Vec::new()).unwrap();
    assert_eq!(whole, plan);
    assert_eq!(plan.lazy_bind_offset(link.table.lookup_str("_puts").unwrap()), Some(0));

    apply_indirect_starts(&mut link.layout, &plan);
    assert_eq!(link.layout.sections[1].reserved1, 0);
    assert_eq!(link.layout.sections[3].reserved1, 1);
    assert_eq!(link.layout.sections[4].reserved1, 3);

    let opts = LinkOptions::default();
    let dylibs = [DylibDependency {
        kind: DylibLoadKind::Normal,
        install_name: "/usr/lib/libSystem.B.dylib".into(),
        current_version: 1,
        compatibility_version: 1,
        ordinal: 1,
    }];
    let estimate = estimate_header_size(&link.layout, OutputKind::Executable, &opts, &dylibs, &plan);
    let exact = exact_sizeofcmds(&link.layout, OutputKind::Executable, &opts, &dylibs, &plan).unwrap();
    assert_eq!(estimate, HEADER_SIZE as u64 + exact as u64);
    assert_eq!(
        header_mismatch(&link.layout, OutputKind::Executable, &opts, &dylibs, &plan, estimate).unwrap(),
        None
    );
    assert_eq!(
        header_mismatch(&link.layout, OutputKind::Executable, &opts, &dylibs, &plan, 1).unwrap(),
        Some(estimate)
    );

    let offsets: HashMap<u32, u32> = plan.lazy_bind_offsets.clone();
    apply_layout(
        &mut link.layout,
        &inputs,
        &link.atoms,
        &link.table,
        ApplyLayoutPlan {
            synthetic_plan: Some(&link.plan),
            thunk_plan: None,
            lazy_bind_offsets: &offsets,
            icf_redirects: None,
            parsed_relocs: &relocs,
        },
    )
    .unwrap();
    size_linkedit_segment(&mut link.layout, &plan).unwrap();

    let entry = EntryPoint {
        atom: link.layout.sections[0].atoms[0].atom,
        atom_value: 0,
    };
    let mut image = Vec::new();
    write_finalized_with_linkedit(
        &link.layout,
        OutputKind::Executable,
        &opts,
        Some(entry),
        &dylibs,
        &plan,
        &mut image,
    )
    .unwrap();
    assert_eq!(image.len() as u64, final_file_size(&link.layout));

    // The header and the commands are read back.
    let header = parse_header(&image).unwrap();
    assert_eq!(header.filetype, MH_EXECUTE);
    assert_eq!(header.sizeofcmds, exact);
    let commands = parse_commands(&header, &image).unwrap();
    assert_eq!(commands.len() as u32, header.ncmds);
    let main = commands.iter().find_map(|c| match c {
        LoadCommand::Raw { cmd, data, .. } if *cmd == LC_MAIN => Some(data.clone()),
        _ => None,
    });
    assert_eq!(quad(&main.unwrap(), 0), 0x1000);
    assert_eq!(resolve_entryoff(&link.layout, Some(entry)).unwrap(), 0x1000);

    // The call goes to the stub, the stub to the lazy pointer, and that to the helper.
    assert_eq!(word(&image, 0x1000), 0x9400_0004);
    assert_eq!(word(&image, 0x1010), 0xf000_0030);
    assert_eq!(word(&image, 0x1014), 0xf940_0210);
    assert_eq!(word(&image, 0x1018), 0xd61f_0200);
    assert_eq!(quad(&image, 0x8000), BASE + 0x101c + 24);
    // The load takes the first slot of the table.
    assert_eq!(word(&image, 0x1004), 0xf000_0000);
    assert_eq!(word(&image, 0x1008), 0xf940_0000);
    // The data points at `main`.
    assert_eq!(quad(&image, 0x8008), BASE + 0x1000);

    // The symbol table is read back where the command says.
    let symtab = commands
        .iter()
        .find_map(|c| match c {
            LoadCommand::Symtab(s) => Some(*s),
            _ => None,
        })
        .unwrap();
    let table = parse_nlist_table(&image, symtab.symoff, symtab.nsyms).unwrap();
    let strings = StringTable::from_file(&image, symtab.stroff, symtab.strsize).unwrap();
    let names: Vec<&str> = table.iter().map(|s| strings.get(s.strx()).unwrap()).collect();
    assert_eq!(
        names,
        vec!["l_ptr", "__dyld_private", "__mh_execute_header", "_main", "_puts", "_var", "dyld_stub_binder"]
    );
    assert_eq!(table[3].value(), BASE + 0x1000);
    assert_eq!(table[4].kind(), SymKind::Undef);
    assert_eq!(table[4].library_ordinal(), Some(1));

    // Every table stands at its place.
    for (at, part) in [
        (plan.symtab.symoff, &plan.symtab_bytes),
        (plan.dysymtab.indirectsymoff, &plan.indirect_bytes),
        (plan.dyld_info.rebase_off, &plan.rebase_bytes),
        (plan.dyld_info.bind_off, &plan.bind_bytes),
        (plan.dyld_info.lazy_bind_off, &plan.lazy_bind_bytes),
        (plan.function_starts.dataoff, &plan.function_starts_bytes),
        (plan.symtab.stroff, &plan.strtab_bytes),
    ] {
        assert!(!part.is_empty());
        let at = at as usize;
        assert_eq!(&image[at..at + part.len()], &part[..]);
    }

    let signature = CodeSignaturePlan {
        dataoff: (image.len() - 4) as u32,
        datasize: 4,
    };
    place_code_signature(&mut image, &signature, &vec![1, 2, 3, 4]);
    assert_eq!(&image[image.len() - 4..], &[1, 2, 3, 4]);
}

#[test]
fn bind_streams_name_what_they_bind() {
    let link = link();
    let records = collect_imports(&link.table, &link.plan);
    let streams = build_bind_streams(&link.layout, &link.plan, &ImportLookup::new(&records)).unwrap();
    let holds = |stream: &[u8], name: &[u8]| stream.windows(name.len()).any(|w| w == name);
    assert!(holds(&streams.bind, b"_var\0"));
    assert!(holds(&streams.bind, b"dyld_stub_binder\0"));
    assert!(!holds(&streams.bind, b"_puts"));
    assert!(streams.weak_bind.is_empty());
    // The record at the symbol's offset: where, which dylib, which name.
    let at = streams.lazy_offsets[&link.table.lookup_str("_puts").unwrap().0] as usize;
    assert_eq!(&streams.lazy_bind[at..at + 3], &[0x72, 0x00, 0x11]);
    assert_eq!(&streams.lazy_bind[at + 3..at + 10], b"\x40_puts\0");
}

#[test]
fn hidden_names_are_not_exported() {
    let link = link();
    let inputs = [LayoutInput {
        id: InputId(0),
        object: &link.inputs.objects[0].parsed,
        load_order: 0,
        archive_member_offset: None,
    }];
    let relocs = build_parsed_reloc_cache(&inputs).unwrap();
    let ctx = LinkEditContext {
        layout_inputs: &inputs,
        atom_table: &link.atoms,
        sym_table: &link.table,
        synthetic_plan: &link.plan,
        icf_redirects: None,
        parsed_relocs: &relocs,
    };
    let records = collect_imports(&link.table, &link.plan);
    let hiding = SymbolVisibilityPolicy {
        exported: Vec::new(),
        unexported: vec!["_m*".into(), "__mh*".into()],
    };
    let symbols = build_output_symbols(
        &link.layout,
        OutputKind::Executable,
        false,
        true,
        &hiding,
        &ctx,
        &records,
    )
    .unwrap();
    assert!(symbols.exports.is_empty());
    let undefined = symbols.dysymtab.nundefsym;
    assert_eq!(undefined, 3);
}

#[test]
fn a_layout_without_tables_has_no_place_for_them() {
    let full = link();
    let mut link = link();
    link.layout.segments.pop();
    assert!(matches!(
        LinkEditPlan::minimal(&link.layout),
        Err(WriteError::MissingSegment("__LINKEDIT"))
    ));
    let plan = LinkEditPlan::minimal(&full.layout).unwrap();
    assert!(matches!(
        size_linkedit_segment(&mut link.layout, &plan),
        Err(WriteError::MissingSegment("__LINKEDIT"))
    ));
    let entry = EntryPoint {
        atom: AtomId(77),
        atom_value: 0,
    };
    assert!(matches!(
        resolve_entryoff(&full.layout, Some(entry)),
        Err(WriteError::EntryAtomMissing(AtomId(77)))
    ));
}
