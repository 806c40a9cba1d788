use afs_ld::macho::constants::{
    CPU_TYPE_ARM64, MH_MAGIC_64, MH_OBJECT, MH_SUBSECTIONS_VIA_SYMBOLS,
};
use afs_ld::macho::reader::{parse_header, write_header, ReadError, HEADER_SIZE};

/// Hand-crafted minimal MH_OBJECT header: arm64, 0 load commands, 0 flags.
fn minimal_object_header_bytes() -> Vec<u8> {
    let mut b = Vec::new();
    b.extend_from_slice(&MH_MAGIC_64.to_le_bytes());
    b.extend_from_slice(&CPU_TYPE_ARM64.to_le_bytes());
    b.extend_from_slice(&0u32.to_le_bytes()); // cpusubtype
    b.extend_from_slice(&MH_OBJECT.to_le_bytes());
    b.extend_from_slice(&0u32.to_le_bytes()); // ncmds
    b.extend_from_slice(&0u32.to_le_bytes()); // sizeofcmds
    b.extend_from_slice(&MH_SUBSECTIONS_VIA_SYMBOLS.to_le_bytes()); // flags
    b.extend_from_slice(&0u32.to_le_bytes()); // reserved
    b
}

#[test]
fn parse_minimal_object_header() {
    let bytes = minimal_object_header_bytes();
    let hdr = parse_header(&bytes).expect("valid header");
    assert_eq!(hdr.magic, MH_MAGIC_64);
    assert_eq!(hdr.cputype, CPU_TYPE_ARM64);
    assert_eq!(hdr.filetype, MH_OBJECT);
    assert_eq!(hdr.flags, MH_SUBSECTIONS_VIA_SYMBOLS);
}

#[test]
fn round_trip_header_byte_equal() {
    let bytes = minimal_object_header_bytes();
    let hdr = parse_header(&bytes).unwrap();
    let mut out = Vec::new();
    write_header(&hdr, &mut out);
    assert_eq!(out, bytes);
}

#[test]
fn truncated_header_errors_cleanly() {
    let err = parse_header(&[0u8; 10]).unwrap_err();
    assert!(
        matches!(err, ReadError::Truncated { need: HEADER_SIZE, have: 10, .. }),
        "unexpected: {err:?}"
    );
}

#[test]
fn bad_magic_errors() {
    let mut bytes = minimal_object_header_bytes();
    bytes[0] ^= 0xff;
    let err = parse_header(&bytes).unwrap_err();
    assert!(matches!(err, ReadError::BadMagic { .. }));
}

#[test]
fn wrong_cpu_errors() {
    let mut bytes = minimal_object_header_bytes();
    // Overwrite cputype with x86_64 (0x01000007).
    bytes[4..8].copy_from_slice(&0x0100_0007u32.to_le_bytes());
    let err = parse_header(&bytes).unwrap_err();
    assert!(matches!(err, ReadError::UnsupportedCpu { got: 0x0100_0007 }));
}
