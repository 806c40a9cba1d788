use afs_ld::macho::constants::{
    ARM64_RELOC_ADDEND, ARM64_RELOC_BRANCH26, ARM64_RELOC_PAGE21, ARM64_RELOC_PAGEOFF12,
    ARM64_RELOC_SUBTRACTOR, ARM64_RELOC_UNSIGNED,
};
use afs_ld::macho::reader::ReadError;
use afs_ld::reloc::{
    parse_raw_relocs, parse_relocs, validate_reloc, write_raw_relocs, write_relocs, RawRelocation,
    Referent, Reloc, RelocKind, RelocLength, RAW_RELOC_SIZE,
};

#[test]
fn raw_reloc_round_trip_byte_equal() {
    let raw = RawRelocation {
        r_address: 0x24,
        r_symbolnum: 5,
        r_pcrel: true,
        r_length: 2,
        r_extern: true,
        r_type: ARM64_RELOC_BRANCH26,
    };
    let mut buf = Vec::new();
    raw.write(&mut buf);
    assert_eq!(buf.len(), RAW_RELOC_SIZE);
    let back = RawRelocation::parse(&buf).unwrap();
    assert_eq!(back, raw);
}

#[test]
fn raw_reloc_preserves_all_bit_fields() {
    // Cover every extreme value to catch shift/mask bugs.
    let raw = RawRelocation {
        r_address: -1, // signed negative round-trips
        r_symbolnum: 0x00FF_FFFF, // max 24-bit value
        r_pcrel: true,
        r_length: 0b11,
        r_extern: true,
        r_type: 0x0f,
    };
    let mut buf = Vec::new();
    raw.write(&mut buf);
    let back = RawRelocation::parse(&buf).unwrap();
    assert_eq!(back, raw);
}

#[test]
fn raw_reloc_parses_known_branch26_pattern() {
    // BRANCH26, external, length=2, pcrel, symnum=3.
    // r_info = 3 | (1<<24) | (2<<25) | (1<<27) | (2<<28)
    //       = 0x0000_0003 | 0x0100_0000 | 0x0400_0000 | 0x0800_0000 | 0x2000_0000
    //       = 0x2D00_0003 → little-endian bytes [03, 00, 00, 2D]
    let bytes = [
        0x10, 0x00, 0x00, 0x00, // r_address = 0x10
        0x03, 0x00, 0x00, 0x2D, // r_info
    ];
    let raw = RawRelocation::parse(&bytes).unwrap();
    assert_eq!(raw.r_address, 0x10);
    assert_eq!(raw.r_symbolnum, 3);
    assert!(raw.r_pcrel);
    assert_eq!(raw.r_length, 2);
    assert!(raw.r_extern);
    assert_eq!(raw.r_type, ARM64_RELOC_BRANCH26);
}

#[test]
fn raw_reloc_truncated_errors() {
    let err = RawRelocation::parse(&[0u8; 4]).unwrap_err();
    assert!(matches!(err, ReadError::Truncated { need: RAW_RELOC_SIZE, have: 4, .. }));
}

#[test]
fn parse_raw_relocs_reads_consecutive_entries() {
    let r1 = RawRelocation {
        r_address: 0x4,
        r_symbolnum: 1,
        r_pcrel: true,
        r_length: 2,
        r_extern: true,
        r_type: ARM64_RELOC_BRANCH26,
    };
    let r2 = RawRelocation {
        r_address: 0x10,
        r_symbolnum: 2,
        r_pcrel: false,
        r_length: 3,
        r_extern: true,
        r_type: ARM64_RELOC_UNSIGNED,
    };
    let mut file = vec![0u8; 32]; // plant at offset 16
    let mut plant = Vec::new();
    r1.write(&mut plant);
    r2.write(&mut plant);
    file[16..16 + plant.len()].copy_from_slice(&plant);

    let parsed = parse_raw_relocs(&file, 16, 2).unwrap();
    assert_eq!(parsed, vec![r1, r2]);

    let mut reemit = Vec::new();
    write_raw_relocs(&parsed, &mut reemit);
    assert_eq!(reemit, plant);
}

#[test]
fn parse_raw_relocs_oob_errors() {
    let file = vec![0u8; 8];
    // Ask for 2 × 8 = 16 bytes starting at 0; we only have 8.
    let err = parse_raw_relocs(&file, 0, 2).unwrap_err();
    assert!(matches!(err, ReadError::Truncated { .. }));
}

// ---------- fused Reloc tests ----------

fn rel(ty: u8, addr: i32, symnum: u32, ext: bool, pcrel: bool, len: u8) -> RawRelocation {
    RawRelocation {
        r_address: addr,
        r_symbolnum: symnum,
        r_pcrel: pcrel,
        r_length: len,
        r_extern: ext,
        r_type: ty,
    }
}

#[test]
fn parse_branch26_simple() {
    let raws = vec![rel(ARM64_RELOC_BRANCH26, 0x10, 3, true, true, 2)];
    let parsed = parse_relocs(&raws).unwrap();
    assert_eq!(parsed.len(), 1);
    let r = parsed[0];
    assert_eq!(r.kind, RelocKind::Branch26);
    assert_eq!(r.length, RelocLength::Word);
    assert!(r.pcrel);
    assert_eq!(r.referent, Referent::Symbol(3));
    assert_eq!(r.addend, 0);
    assert_eq!(r.subtrahend, None);
}

#[test]
fn parse_page_pageoff_pair() {
    let raws = vec![
        rel(ARM64_RELOC_PAGE21, 0x10, 5, true, true, 2),
        rel(ARM64_RELOC_PAGEOFF12, 0x14, 5, true, false, 2),
    ];
    let parsed = parse_relocs(&raws).unwrap();
    assert_eq!(parsed.len(), 2);
    assert_eq!(parsed[0].kind, RelocKind::Page21);
    assert_eq!(parsed[1].kind, RelocKind::PageOff12);
    assert!(parsed[0].pcrel);
    assert!(!parsed[1].pcrel);
}

#[test]
fn parse_addend_prefix_folds_positive() {
    let raws = vec![
        rel(ARM64_RELOC_ADDEND, 0x10, 0x1000, false, false, 2),
        rel(ARM64_RELOC_PAGEOFF12, 0x10, 7, true, false, 2),
    ];
    let parsed = parse_relocs(&raws).unwrap();
    assert_eq!(parsed.len(), 1);
    assert_eq!(parsed[0].kind, RelocKind::PageOff12);
    assert_eq!(parsed[0].addend, 0x1000);
    assert_eq!(parsed[0].referent, Referent::Symbol(7));
}

#[test]
fn parse_addend_prefix_folds_negative() {
    // r_symbolnum = 0xFFFFFF → 24-bit signed = -1.
    let raws = vec![
        rel(ARM64_RELOC_ADDEND, 0x20, 0x00FF_FFFF, false, false, 2),
        rel(ARM64_RELOC_UNSIGNED, 0x20, 9, true, false, 3),
    ];
    let parsed = parse_relocs(&raws).unwrap();
    assert_eq!(parsed.len(), 1);
    assert_eq!(parsed[0].addend, -1);
    assert_eq!(parsed[0].kind, RelocKind::Unsigned);
    assert_eq!(parsed[0].length, RelocLength::Quad);
}

#[test]
fn parse_subtractor_unsigned_pair() {
    let raws = vec![
        rel(ARM64_RELOC_SUBTRACTOR, 0x30, 11, true, false, 3),
        rel(ARM64_RELOC_UNSIGNED, 0x30, 12, true, false, 3),
    ];
    let parsed = parse_relocs(&raws).unwrap();
    assert_eq!(parsed.len(), 1);
    let r = parsed[0];
    assert_eq!(r.kind, RelocKind::Subtractor);
    assert_eq!(r.referent, Referent::Symbol(12)); // minuend
    assert_eq!(r.subtrahend, Some(Referent::Symbol(11))); // subtrahend
    assert_eq!(r.length, RelocLength::Quad);
}

#[test]
fn parse_subtractor_with_addend() {
    // SUBTRACTOR, ADDEND, UNSIGNED — addend applies to the final value.
    let raws = vec![
        rel(ARM64_RELOC_SUBTRACTOR, 0x40, 20, true, false, 3),
        rel(ARM64_RELOC_ADDEND, 0x40, 0x100, false, false, 3),
        rel(ARM64_RELOC_UNSIGNED, 0x40, 21, true, false, 3),
    ];
    let parsed = parse_relocs(&raws).unwrap();
    assert_eq!(parsed.len(), 1);
    assert_eq!(parsed[0].kind, RelocKind::Subtractor);
    assert_eq!(parsed[0].referent, Referent::Symbol(21));
    assert_eq!(parsed[0].subtrahend, Some(Referent::Symbol(20)));
    assert_eq!(parsed[0].addend, 0x100);
}

#[test]
fn parse_section_relative_referent() {
    // r_extern = false → section referent (1-based).
    let raws = vec![rel(ARM64_RELOC_UNSIGNED, 0x0, 2, false, false, 3)];
    let parsed = parse_relocs(&raws).unwrap();
    assert_eq!(parsed[0].referent, Referent::Section(2));
}

#[test]
fn parse_trailing_addend_errors() {
    let raws = vec![rel(ARM64_RELOC_ADDEND, 0x0, 1, false, false, 2)];
    let err = parse_relocs(&raws).unwrap_err();
    assert!(matches!(
        err,
        ReadError::BadRelocation { reason, .. } if reason.contains("trailing")
    ));
}

#[test]
fn parse_trailing_subtractor_errors() {
    let raws = vec![rel(ARM64_RELOC_SUBTRACTOR, 0x0, 1, true, false, 3)];
    let err = parse_relocs(&raws).unwrap_err();
    assert!(matches!(
        err,
        ReadError::BadRelocation { reason, .. } if reason.contains("trailing")
    ));
}

#[test]
fn parse_subtractor_not_followed_by_unsigned_errors() {
    let raws = vec![
        rel(ARM64_RELOC_SUBTRACTOR, 0x0, 1, true, false, 3),
        rel(ARM64_RELOC_BRANCH26, 0x0, 2, true, true, 2),
    ];
    let err = parse_relocs(&raws).unwrap_err();
    assert!(matches!(
        err,
        ReadError::BadRelocation { reason, .. } if reason.contains("followed by UNSIGNED")
    ));
}

#[test]
fn parse_subtractor_address_mismatch_errors() {
    let raws = vec![
        rel(ARM64_RELOC_SUBTRACTOR, 0x0, 1, true, false, 3),
        rel(ARM64_RELOC_UNSIGNED, 0x8, 2, true, false, 3),
    ];
    let err = parse_relocs(&raws).unwrap_err();
    assert!(matches!(
        err,
        ReadError::BadRelocation { reason, .. } if reason.contains("share r_address")
    ));
}

#[test]
fn parse_subtractor_length_mismatch_errors() {
    let raws = vec![
        rel(ARM64_RELOC_SUBTRACTOR, 0x0, 1, true, false, 2),
        rel(ARM64_RELOC_UNSIGNED, 0x0, 2, true, false, 3),
    ];
    let err = parse_relocs(&raws).unwrap_err();
    assert!(matches!(
        err,
        ReadError::BadRelocation { reason, .. } if reason.contains("share r_length")
    ));
}

#[test]
fn parse_unknown_reloc_type_errors() {
    let raws = vec![rel(0x0F, 0x0, 1, true, false, 2)];
    let err = parse_relocs(&raws).unwrap_err();
    assert!(matches!(
        err,
        ReadError::BadRelocation { reason, .. } if reason.contains("unknown")
    ));
}

// ---------- round-trip write_relocs tests ----------

#[test]
fn write_then_parse_round_trip_simple() {
    let input = vec![Reloc {
        offset: 0x10,
        kind: RelocKind::Branch26,
        length: RelocLength::Word,
        pcrel: true,
        referent: Referent::Symbol(5),
        addend: 0,
        subtrahend: None,
    }];
    let raws = write_relocs(&input).unwrap();
    assert_eq!(raws.len(), 1); // no ADDEND prefix when addend=0
    let back = parse_relocs(&raws).unwrap();
    assert_eq!(back, input);
}

#[test]
fn write_then_parse_round_trip_with_addend() {
    let input = vec![Reloc {
        offset: 0x20,
        kind: RelocKind::PageOff12,
        length: RelocLength::Word,
        pcrel: false,
        referent: Referent::Symbol(7),
        addend: 0x1000,
        subtrahend: None,
    }];
    let raws = write_relocs(&input).unwrap();
    assert_eq!(raws.len(), 2);
    assert_eq!(raws[0].r_type, ARM64_RELOC_ADDEND);
    assert_eq!(raws[1].r_type, ARM64_RELOC_PAGEOFF12);
    let back = parse_relocs(&raws).unwrap();
    assert_eq!(back, input);
}

#[test]
fn write_then_parse_round_trip_subtractor_pair() {
    let input = vec![Reloc {
        offset: 0x30,
        kind: RelocKind::Subtractor,
        length: RelocLength::Quad,
        pcrel: false,
        referent: Referent::Symbol(12),
        addend: 0,
        subtrahend: Some(Referent::Symbol(11)),
    }];
    let raws = write_relocs(&input).unwrap();
    assert_eq!(raws.len(), 2);
    assert_eq!(raws[0].r_type, ARM64_RELOC_SUBTRACTOR);
    assert_eq!(raws[0].r_symbolnum, 11);
    assert_eq!(raws[1].r_type, ARM64_RELOC_UNSIGNED);
    assert_eq!(raws[1].r_symbolnum, 12);
    let back = parse_relocs(&raws).unwrap();
    assert_eq!(back, input);
}

#[test]
fn write_then_parse_round_trip_subtractor_with_addend() {
    let input = vec![Reloc {
        offset: 0x40,
        kind: RelocKind::Subtractor,
        length: RelocLength::Quad,
        pcrel: false,
        referent: Referent::Symbol(21),
        addend: 0x100,
        subtrahend: Some(Referent::Symbol(20)),
    }];
    let raws = write_relocs(&input).unwrap();
    assert_eq!(raws.len(), 3);
    assert_eq!(raws[0].r_type, ARM64_RELOC_SUBTRACTOR);
    assert_eq!(raws[1].r_type, ARM64_RELOC_ADDEND);
    assert_eq!(raws[2].r_type, ARM64_RELOC_UNSIGNED);
    let back = parse_relocs(&raws).unwrap();
    assert_eq!(back, input);
}

#[test]
fn write_then_parse_round_trip_negative_addend() {
    let input = vec![Reloc {
        offset: 0x50,
        kind: RelocKind::Unsigned,
        length: RelocLength::Quad,
        pcrel: false,
        referent: Referent::Symbol(3),
        addend: -1,
        subtrahend: None,
    }];
    let raws = write_relocs(&input).unwrap();
    let back = parse_relocs(&raws).unwrap();
    assert_eq!(back, input);
}

#[test]
fn write_subtractor_without_subtrahend_errors() {
    let bad = vec![Reloc {
        offset: 0,
        kind: RelocKind::Subtractor,
        length: RelocLength::Quad,
        pcrel: false,
        referent: Referent::Symbol(1),
        addend: 0,
        subtrahend: None,
    }];
    let err = write_relocs(&bad).unwrap_err();
    assert!(matches!(
        err,
        ReadError::BadRelocation { reason, .. } if reason.contains("subtrahend")
    ));
}

#[test]
fn write_addend_overflow_errors() {
    let bad = vec![Reloc {
        offset: 0,
        kind: RelocKind::Unsigned,
        length: RelocLength::Quad,
        pcrel: false,
        referent: Referent::Symbol(1),
        addend: 0x0100_0000, // outside 24-bit signed range
        subtrahend: None,
    }];
    let err = write_relocs(&bad).unwrap_err();
    assert!(matches!(
        err,
        ReadError::BadRelocation { reason, .. } if reason.contains("24-bit")
    ));
}

// ---------- validate_reloc tests ----------

fn good() -> Reloc {
    Reloc {
        offset: 0x10,
        kind: RelocKind::Branch26,
        length: RelocLength::Word,
        pcrel: true,
        referent: Referent::Symbol(0),
        addend: 0,
        subtrahend: None,
    }
}

#[test]
fn validate_accepts_good_reloc() {
    assert!(validate_reloc(&good(), 0x100, 1, 1).is_ok());
}

#[test]
fn validate_rejects_out_of_bounds_offset() {
    let mut r = good();
    r.offset = 0xFC; // offset+4 = 0x100, at boundary → ok
    assert!(validate_reloc(&r, 0x100, 1, 1).is_ok());
    r.offset = 0xFD; // offset+4 = 0x101, past end
    assert!(matches!(
        validate_reloc(&r, 0x100, 1, 1).unwrap_err(),
        ReadError::BadRelocation { reason, .. } if reason.contains("exceeds section")
    ));
}

#[test]
fn validate_rejects_symbol_oob() {
    let mut r = good();
    r.referent = Referent::Symbol(5);
    assert!(matches!(
        validate_reloc(&r, 0x100, 3, 1).unwrap_err(),
        ReadError::BadRelocation { reason, .. } if reason.contains("past end of symbol")
    ));
}

#[test]
fn validate_rejects_section_oob() {
    let mut r = good();
    r.referent = Referent::Section(4);
    assert!(matches!(
        validate_reloc(&r, 0x100, 0, 2).unwrap_err(),
        ReadError::BadRelocation { reason, .. } if reason.contains("out-of-range section")
    ));
}

#[test]
fn validate_rejects_branch26_with_wrong_length() {
    let mut r = good();
    r.length = RelocLength::Quad; // BRANCH26 must be Word
    assert!(matches!(
        validate_reloc(&r, 0x100, 1, 1).unwrap_err(),
        ReadError::BadRelocation { reason, .. } if reason.contains("Word length")
    ));
}

#[test]
fn validate_rejects_page21_without_pcrel() {
    let r = Reloc {
        offset: 0x10,
        kind: RelocKind::Page21,
        length: RelocLength::Word,
        pcrel: false, // Page21 requires pcrel=true
        referent: Referent::Symbol(0),
        addend: 0,
        subtrahend: None,
    };
    assert!(matches!(
        validate_reloc(&r, 0x100, 1, 1).unwrap_err(),
        ReadError::BadRelocation { reason, .. } if reason.contains("pcrel")
    ));
}

#[test]
fn validate_accepts_unsigned_quad() {
    let r = Reloc {
        offset: 0,
        kind: RelocKind::Unsigned,
        length: RelocLength::Quad,
        pcrel: false,
        referent: Referent::Symbol(0),
        addend: 0,
        subtrahend: None,
    };
    assert!(validate_reloc(&r, 0x100, 1, 1).is_ok());
}

#[test]
fn validate_rejects_subtractor_missing_subtrahend() {
    let r = Reloc {
        offset: 0,
        kind: RelocKind::Subtractor,
        length: RelocLength::Quad,
        pcrel: false,
        referent: Referent::Symbol(0),
        addend: 0,
        subtrahend: None,
    };
    assert!(matches!(
        validate_reloc(&r, 0x100, 1, 1).unwrap_err(),
        ReadError::BadRelocation { reason, .. } if reason.contains("subtrahend")
    ));
}

#[test]
fn write_then_parse_round_trip_section_referent() {
    let input = vec![Reloc {
        offset: 0x60,
        kind: RelocKind::Unsigned,
        length: RelocLength::Quad,
        pcrel: false,
        referent: Referent::Section(2),
        addend: 0,
        subtrahend: None,
    }];
    let raws = write_relocs(&input).unwrap();
    assert!(!raws[0].r_extern);
    assert_eq!(raws[0].r_symbolnum, 2);
    let back = parse_relocs(&raws).unwrap();
    assert_eq!(back, input);
}

#[test]
fn a_pc_relative_pair_is_read_back() {
    let half = |r_pcrel, r_symbolnum, r_type| RawRelocation {
        r_address: 8,
        r_symbolnum,
        r_pcrel,
        r_length: 2,
        r_extern: true,
        r_type,
    };
    let raws = [
        half(false, 1, ARM64_RELOC_SUBTRACTOR),
        half(true, 2, ARM64_RELOC_UNSIGNED),
    ];
    let relocs = parse_relocs(&raws).unwrap();
    assert_eq!(relocs.len(), 1);
    assert!(relocs[0].pcrel);
    let written = write_relocs(&relocs).unwrap();
    assert_eq!(parse_relocs(&written).unwrap(), relocs);
    let mut bytes = Vec::new();
    write_raw_relocs(&written, &mut bytes);
    assert_eq!(parse_raw_relocs(&bytes, 0, 2).unwrap(), written);
}
