use afs_ld::macho::constants::{
    N_ABS, N_EXT, N_INDR, N_PEXT, N_SECT, N_UNDF, N_WEAK_DEF, N_WEAK_REF,
};
use afs_ld::macho::reader::ReadError;
use afs_ld::symbol::{
    parse_nlist_table, write_nlist_table, InputSymbol, RawNlist, SymKind, NLIST_SIZE,
};

fn nlist(strx: u32, n_type: u8, n_sect: u8, n_desc: u16, n_value: u64) -> RawNlist {
    RawNlist {
        strx,
        n_type,
        n_sect,
        n_desc,
        n_value,
    }
}

#[test]
fn raw_nlist_round_trips_byte_equal() {
    let raw = nlist(42, N_SECT | N_EXT, 3, N_WEAK_DEF, 0x1_0000_0040);
    let mut buf = Vec::new();
    raw.write(&mut buf);
    assert_eq!(buf.len(), NLIST_SIZE);
    let back = RawNlist::parse(&buf).unwrap();
    assert_eq!(back, raw);
}

#[test]
fn classify_extern_text_symbol() {
    let sym = InputSymbol::from_raw(nlist(10, N_SECT | N_EXT, 1, 0, 0x100));
    assert_eq!(sym.kind(), SymKind::Sect);
    assert!(sym.is_ext());
    assert!(!sym.is_private_ext());
    assert!(!sym.is_common());
    assert_eq!(sym.library_ordinal(), None);
}

#[test]
fn classify_local_symbol() {
    let sym = InputSymbol::from_raw(nlist(20, N_SECT, 2, 0, 0x200));
    assert_eq!(sym.kind(), SymKind::Sect);
    assert!(!sym.is_ext());
}

#[test]
fn classify_undef_import() {
    let sym = InputSymbol::from_raw(nlist(30, N_UNDF | N_EXT, 0, 3 << 8, 0));
    assert_eq!(sym.kind(), SymKind::Undef);
    assert!(sym.is_ext());
    assert!(!sym.is_common());
    assert_eq!(sym.library_ordinal(), Some(3));
}

#[test]
fn classify_common_symbol() {
    // UNDF + EXT + size 16, alignment 2^3 = 8.
    let n_desc = (3u16) << 8;
    let sym = InputSymbol::from_raw(nlist(40, N_UNDF | N_EXT, 0, n_desc, 16));
    assert!(sym.is_common());
    assert_eq!(sym.common_size(), Some(16));
    assert_eq!(sym.common_align_pow2(), Some(3));
    assert_eq!(sym.library_ordinal(), None);
}

#[test]
fn classify_weak_def() {
    let sym = InputSymbol::from_raw(nlist(50, N_SECT | N_EXT, 1, N_WEAK_DEF, 0x400));
    assert!(sym.weak_def());
    assert!(!sym.weak_ref());
}

#[test]
fn classify_weak_ref_import() {
    let sym = InputSymbol::from_raw(nlist(60, N_UNDF | N_EXT, 0, N_WEAK_REF | (1 << 8), 0));
    assert_eq!(sym.kind(), SymKind::Undef);
    assert!(sym.weak_ref());
    assert_eq!(sym.library_ordinal(), Some(1));
}

#[test]
fn classify_private_extern() {
    let sym = InputSymbol::from_raw(nlist(70, N_SECT | N_EXT | N_PEXT, 1, 0, 0x800));
    assert!(sym.is_ext());
    assert!(sym.is_private_ext());
}

#[test]
fn classify_absolute() {
    let sym = InputSymbol::from_raw(nlist(80, N_ABS | N_EXT, 0, 0, 0xDEAD_BEEF));
    assert_eq!(sym.kind(), SymKind::Abs);
    assert!(sym.is_ext());
}

#[test]
fn classify_indirect_alias() {
    // `n_value` carries the strx of the aliased name.
    let sym = InputSymbol::from_raw(nlist(90, N_INDR | N_EXT, 0, 0, 123));
    assert_eq!(sym.kind(), SymKind::Indirect);
    assert_eq!(sym.indirect_target_strx(), Some(123));
}

#[test]
fn classify_stab_entry_preserved() {
    // Stab entry — the whole n_type byte encodes the stab kind.
    let stab_type: u8 = 0x24; // N_FUN
    let sym = InputSymbol::from_raw(nlist(100, stab_type, 1, 0, 0x1000));
    assert_eq!(sym.stab_kind(), Some(stab_type));
}

#[test]
fn symtab_round_trip_byte_equal() {
    let syms = vec![
        InputSymbol::from_raw(nlist(1, N_SECT | N_EXT, 1, 0, 0x100)),
        InputSymbol::from_raw(nlist(2, N_UNDF | N_EXT, 0, 1 << 8, 0)),
        InputSymbol::from_raw(nlist(3, N_ABS, 0, 0, 42)),
    ];

    // Plant them at offset 8 into a synthetic file image.
    let mut image = vec![0u8; 8];
    write_nlist_table(&syms, &mut image);
    assert_eq!(image.len(), 8 + 3 * NLIST_SIZE);

    let parsed = parse_nlist_table(&image, 8, 3).unwrap();
    assert_eq!(parsed, syms);
}

#[test]
fn symtab_truncation_errors() {
    // Ask for 2 symbols but only 16 bytes available (one fits, second doesn't).
    let image = vec![0u8; 16];
    let err = parse_nlist_table(&image, 0, 2).unwrap_err();
    assert!(matches!(err, ReadError::Truncated { .. }));
}
