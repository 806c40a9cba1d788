use afs_ld::atom::{Atom, AtomFlags, AtomSection, AtomTable};
use afs_ld::input::ObjectFile;
use afs_ld::layout::{Layout, LayoutInput};
use afs_ld::macho::constants::{
    CPU_SUBTYPE_ARM64_ALL, CPU_TYPE_ARM64, MH_MAGIC_64, MH_OBJECT, N_EXT, N_SECT,
    S_ATTR_PURE_INSTRUCTIONS, S_ATTR_SOME_INSTRUCTIONS, S_REGULAR,
};
use afs_ld::macho::reader::MachHeader64;
use afs_ld::macho::writer::relocs::build_parsed_reloc_cache;
use afs_ld::options::{LinkOptions, OutputKind};
use afs_ld::reloc::arm64::encode::{
    fits_signed, is_add_immediate, is_simd_fp_pageoff, pageoff_load_store_shift,
    BRANCH26_MAX_FORWARD_DELTA_BYTES,
};
use afs_ld::reloc::arm64::thunks::{
    layout_fits_branch26_span, plan_thunks, ThunkPlanningContext,
};
use afs_ld::reloc::{write_raw_relocs, write_relocs, Referent, Reloc, RelocKind, RelocLength};
use afs_ld::resolve::{AtomId, InputId, InsertOutcome, Symbol, SymbolTable};
use afs_ld::section::{InputSection, OutputAtom, OutputSection, SectionKind};
use afs_ld::string_table::StringTable;
use afs_ld::symbol::{InputSymbol, RawNlist};
#[test]
fn branch26_patches_low_bits() {
    let insn = 0x9400_0000u32;
    let delta = 0x40i64;
    let imm = ((delta >> 2) as u32) & 0x03ff_ffff;
    let patched = (insn & !0x03ff_ffff) | imm;
    assert_eq!(patched, 0x9400_0010);
}

#[test]
fn page21_encodes_immhi_and_immlo() {
    let insn = 0x9000_0000u32;
    let imm = 0x12345u32;
    let immlo = imm & 0x3;
    let immhi = (imm >> 2) & 0x7ffff;
    let patched = (insn & !((0x3 << 29) | (0x7ffff << 5))) | (immlo << 29) | (immhi << 5);
    assert_eq!(patched & (0x3 << 29), immlo << 29);
    assert_eq!(patched & (0x7ffff << 5), immhi << 5);
}

#[test]
fn add_immediate_pageoff_is_unscaled() {
    let insn = 0x9100_0000u32;
    assert!(is_add_immediate(insn));
    let patched = (insn & !(0xfff << 10)) | (0xabc << 10);
    assert_eq!((patched >> 10) & 0xfff, 0xabc);
}

#[test]
fn load_store_pageoff_uses_size_scaling() {
    let insn = 0xf940_0000u32;
    assert!(!is_add_immediate(insn));
    let shift = pageoff_load_store_shift(insn);
    assert_eq!(shift, 0b11);
    let pageoff = 0x3f8u64;
    let imm = pageoff >> shift;
    let patched = (insn & !(0xfff << 10)) | ((imm as u32) << 10);
    assert_eq!((patched >> 10) & 0xfff, 0x7f);
}

#[test]
fn simd_q_pageoff_uses_16_byte_scaling() {
    let insn = 0x3dc0_0100u32;
    assert!(!is_add_immediate(insn));
    assert!(is_simd_fp_pageoff(insn));
    let shift = pageoff_load_store_shift(insn);
    assert_eq!(shift, 4);
    let pageoff = 0x690u64;
    let imm = pageoff >> shift;
    let patched = (insn & !(0xfff << 10)) | ((imm as u32) << 10);
    assert_eq!((patched >> 10) & 0xfff, 0x69);
    assert_eq!(patched, 0x3dc1_a500);
}

#[test]
fn signed_fit_helper_matches_branch_range() {
    assert!(fits_signed((1 << 25) - 1, 26));
    assert!(fits_signed(-(1 << 25), 26));
    assert!(!fits_signed(1 << 25, 26));
    assert!(!fits_signed(-(1 << 25) - 1, 26));
}

#[test]
fn branch26_span_fast_path_rejects_only_large_non_linkedit_images() {
    let small = Layout {
        kind: OutputKind::Executable,
        segments: Vec::new(),
        sections: vec![
            output_section("__TEXT", "__text", 0x1_0000_0000, 0x100),
            output_section("__DATA", "__data", 0x1_0001_0000, 0x100),
            output_section("__LINKEDIT", "__linkedit", 0x1_8000_0000, 0x1000),
        ],
    };
    assert!(layout_fits_branch26_span(&small));

    let large = Layout {
        kind: OutputKind::Executable,
        segments: Vec::new(),
        sections: vec![
            output_section("__TEXT", "__text", 0x1_0000_0000, 0x100),
            output_section(
                "__DATA",
                "__data",
                0x1_0000_0000 + BRANCH26_MAX_FORWARD_DELTA_BYTES + 1,
                0x100,
            ),
        ],
    };
    assert!(!layout_fits_branch26_span(&large));
}

#[test]
fn thunk_plan_splits_monolithic_text_section_into_multiple_islands() {
    let gap = 0x0900_0000u32;
    let caller2_offset = 4 + gap;
    let target_offset = 8 + gap * 2;
    let raw_relocs = branch26_raw_relocs(&[0, caller2_offset]);
    let object = thunk_test_object(raw_relocs, target_offset as u64, target_offset as u64 + 4);

    let mut atoms = AtomTable::new();
    let caller1 = atoms.push(test_atom(0, 4));
    let between1 = atoms.push(test_atom(4, gap));
    let caller2 = atoms.push(test_atom(caller2_offset, 4));
    let between2 = atoms.push(test_atom(caller2_offset + 4, gap));
    let target = atoms.push(test_atom(target_offset, 4));

    let mut sym_table = SymbolTable::new();
    let target_name = sym_table.intern("_target");
    let insert = sym_table
        .insert(Symbol::Defined {
            name: target_name,
            origin: InputId(0),
            atom: target,
            value: 0,
            weak: false,
            private_extern: false,
            no_dead_strip: false,
        })
        .unwrap();
    assert!(matches!(insert, InsertOutcome::Inserted(_)));

    let inputs = [LayoutInput {
        id: InputId(0),
        object: &object,
        load_order: 0,
        archive_member_offset: None,
    }];
    let opts = LinkOptions {
        kind: OutputKind::Executable,
        ..LinkOptions::default()
    };
    let base_layout = text_layout(vec![text_section(
        &[
            (caller1, 4),
            (between1, gap),
            (caller2, 4),
            (between2, gap),
            (target, 4),
        ],
        0x1_0000_4000,
    )]);
    let parsed_relocs = build_parsed_reloc_cache(&inputs).unwrap();
    let plan = plan_thunks(
        &opts,
        ThunkPlanningContext {
            layout: &base_layout,
            inputs: &inputs,
            atoms: &atoms,
            sym_table: &sym_table,
            synthetic_plan: None,
            icf_redirects: None,
            parsed_relocs: &parsed_relocs,
        },
    )
    .unwrap()
    .unwrap();

    assert_eq!(
        plan.redirect_for(caller1, 0),
        Some(0),
        "expected first caller to use its own thunk"
    );
    assert_eq!(
        plan.redirect_for(caller2, 0),
        Some(1),
        "expected second caller to use its own thunk"
    );

    assert_eq!(plan.split_after_atoms(), vec![caller1, caller2]);
    let extra = plan.output_sections();
    assert_eq!(extra.len(), 2);
    let first = text_section(&[(caller1, 4)], 0x1_0000_4000);
    let mut island1 = extra[0].section.clone();
    island1.addr = end_of(&first);
    let second = text_section(&[(between1, gap), (caller2, 4)], end_of(&island1));
    let mut island2 = extra[1].section.clone();
    island2.addr = end_of(&second);
    let third = text_section(&[(between2, gap), (target, 4)], end_of(&island2));
    let rebuilt = text_layout(vec![first, island1, second, island2, third]);
    let text_section_count = rebuilt
        .sections
        .iter()
        .filter(|section| section.segment == "__TEXT" && section.name == "__text")
        .count();
    let thunk_section_count = rebuilt
        .sections
        .iter()
        .filter(|section| section.segment == "__TEXT" && section.name == "__thunks")
        .count();
    assert_eq!(
        text_section_count, 3,
        "expected the monolithic text section to split around the two caller atoms"
    );
    assert_eq!(
        thunk_section_count, 2,
        "expected one thunk island per far caller atom"
    );
    let text_sequence: Vec<_> = rebuilt
        .sections
        .iter()
        .filter(|section| section.segment == "__TEXT")
        .map(|section| section.name.as_str())
        .collect();
    assert_eq!(
        text_sequence,
        vec!["__text", "__thunks", "__text", "__thunks", "__text"]
    );

    let replan = plan_thunks(
        &opts,
        ThunkPlanningContext {
            layout: &rebuilt,
            inputs: &inputs,
            atoms: &atoms,
            sym_table: &sym_table,
            synthetic_plan: None,
            icf_redirects: None,
            parsed_relocs: &parsed_relocs,
        },
    )
    .unwrap()
    .unwrap();
    assert_eq!(
        replan, plan,
        "expected thunk planning to converge once the intra-section islands exist"
    );
}

fn branch26_raw_relocs(offsets: &[u32]) -> Vec<u8> {
    let relocs: Vec<_> = offsets
        .iter()
        .copied()
        .map(|offset| Reloc {
            offset,
            kind: RelocKind::Branch26,
            length: RelocLength::Word,
            pcrel: true,
            referent: Referent::Symbol(0),
            addend: 0,
            subtrahend: None,
        })
        .collect();
    let raws = write_relocs(&relocs).unwrap();
    let mut out = Vec::new();
    write_raw_relocs(&raws, &mut out);
    out
}

fn output_section(segment: &str, name: &str, addr: u64, size: u64) -> OutputSection {
    OutputSection {
        segment: segment.into(),
        name: name.into(),
        kind: SectionKind::Text,
        align_pow2: 2,
        flags: 0,
        reserved1: 0,
        reserved2: 0,
        reserved3: 0,
        atoms: Vec::new(),
        synthetic_offset: 0,
        synthetic_data: Vec::new(),
        addr,
        size,
        file_off: 0,
    }
}

fn thunk_test_object(raw_relocs: Vec<u8>, target_offset: u64, section_size: u64) -> ObjectFile {
    let strings = b"\0_target\0".to_vec();
    ObjectFile {
        path: "/tmp/thunk-plan.o".into(),
        header: MachHeader64 {
            magic: MH_MAGIC_64,
            cputype: CPU_TYPE_ARM64,
            cpusubtype: CPU_SUBTYPE_ARM64_ALL,
            filetype: MH_OBJECT,
            ncmds: 0,
            sizeofcmds: 0,
            flags: 0,
            reserved: 0,
        },
        commands: Vec::new(),
        sections: vec![InputSection {
            segname: "__TEXT".into(),
            sectname: "__text".into(),
            kind: SectionKind::Text,
            addr: 0,
            size: section_size,
            align_pow2: 2,
            flags: S_REGULAR | S_ATTR_PURE_INSTRUCTIONS | S_ATTR_SOME_INSTRUCTIONS,
            offset: 0,
            reloff: 0,
            nreloc: (raw_relocs.len() / 8) as u32,
            reserved1: 0,
            reserved2: 0,
            reserved3: 0,
            data: Vec::new(),
            raw_relocs,
        }],
        symbols: vec![InputSymbol::from_raw(RawNlist {
            strx: 1,
            n_type: N_SECT | N_EXT,
            n_sect: 1,
            n_desc: 0,
            n_value: target_offset,
        })],
        strings: StringTable::from_bytes(strings),
        symtab: None,
        dysymtab: None,
        loh: Vec::new(),
        data_in_code: Vec::new(),
    }
}

fn test_atom(input_offset: u32, size: u32) -> Atom {
    Atom {
        id: AtomId(0),
        origin: InputId(0),
        input_section: 1,
        section: AtomSection::Text,
        input_offset,
        size,
        align_pow2: 2,
        owner: None,
        alt_entries: Vec::new(),
        data: Vec::new(),
        flags: AtomFlags::none(),
        parent_of: None,
    }
}


fn text_section(atoms: &[(AtomId, u32)], addr: u64) -> OutputSection {
    let mut section = output_section("__TEXT", "__text", addr, 0);
    let mut offset = 0u64;
    for (atom, size) in atoms {
        section.atoms.push(OutputAtom {
            atom: *atom,
            offset,
            size: *size as u64,
            data: Vec::new(),
        });
        offset += *size as u64;
    }
    section.size = offset;
    section
}

fn end_of(section: &OutputSection) -> u64 {
    (section.addr + section.size + 3) / 4 * 4
}

fn text_layout(sections: Vec<OutputSection>) -> Layout {
    Layout {
        kind: OutputKind::Executable,
        segments: Vec::new(),
        sections,
    }
}
