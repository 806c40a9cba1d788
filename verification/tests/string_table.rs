use afs_ld::macho::reader::ReadError;
use afs_ld::string_table::{StringTable, StringTableBuilder};

fn tbl(bytes: &[u8]) -> StringTable {
    StringTable::from_bytes(bytes.to_vec())
}

#[test]
fn empty_strx_yields_empty_string() {
    let t = tbl(b"\0");
    assert_eq!(t.get(0).unwrap(), "");
}

#[test]
fn resolves_simple_name() {
    let t = tbl(b"\0_main\0_helper\0");
    assert_eq!(t.get(1).unwrap(), "_main");
    assert_eq!(t.get(7).unwrap(), "_helper");
}

#[test]
fn suffix_dedup_overlap() {
    // strtab contains "_afs_array_sum\0" at offset 1; a symbol named just
    // "array_sum" (9 chars) points mid-string at offset 6.
    let mut raw = vec![0u8];
    raw.extend_from_slice(b"_afs_array_sum\0");
    let t = tbl(&raw);
    assert_eq!(t.get(1).unwrap(), "_afs_array_sum");
    assert_eq!(t.get(6).unwrap(), "array_sum");
    assert_eq!(t.get(10).unwrap(), "y_sum");
}

#[test]
fn out_of_bounds_strx_errors() {
    let t = tbl(b"\0a\0");
    let err = t.get(100).unwrap_err();
    assert!(matches!(err, ReadError::BadCmdsize { reason, .. } if reason.contains("out of bounds")));
}

#[test]
fn unterminated_string_errors() {
    let t = tbl(b"\0abcdef"); // no trailing null
    let err = t.get(1).unwrap_err();
    assert!(matches!(err, ReadError::BadCmdsize { reason, .. } if reason.contains("unterminated")));
}

#[test]
fn non_utf8_bytes_error() {
    let t = tbl(&[0, 0xff, 0xfe, 0]);
    let err = t.get(1).unwrap_err();
    assert!(matches!(err, ReadError::BadCmdsize { reason, .. } if reason.contains("UTF-8")));
}

#[test]
fn from_file_bounds_check() {
    let file = vec![0u8; 32];
    // stroff + strsize spills off the end.
    let err = StringTable::from_file(&file, 30, 10).unwrap_err();
    assert!(matches!(err, ReadError::Truncated { .. }));
}

#[test]
fn from_file_copies_range() {
    let mut file = vec![0u8; 8];
    file.extend_from_slice(b"\0_main\0");
    let t = StringTable::from_file(&file, 8, 7).unwrap();
    assert_eq!(t.as_bytes(), b"\0_main\0");
    assert_eq!(t.get(1).unwrap(), "_main");
}

#[test]
fn builder_dedups_suffix_names() {
    let mut builder = StringTableBuilder::new();
    builder.insert("_array_sum");
    builder.insert("_afs_array_sum");

    let (bytes, offsets) = builder.finish();
    let table = StringTable::from_bytes(bytes);
    let afs = offsets.get("_afs_array_sum").unwrap();
    let array = offsets.get("_array_sum").unwrap();

    assert_eq!(table.get(afs).unwrap(), "_afs_array_sum");
    assert_eq!(table.get(array).unwrap(), "_array_sum");
    assert_eq!(array, afs + 4);
    assert_eq!(table.as_bytes().len() % 8, 0);
}

#[test]
fn names_that_end_others_take_no_room() {
    let mut builder = StringTableBuilder::new();
    for name in ["_foobar", "bar", "", "_baz", "foobar", "bar"] {
        builder.insert(name);
    }
    let (raw, offsets) = builder.finish();
    assert_eq!(raw.len(), (1 + "_foobar".len() + 1 + "_baz".len() + 1 + 7) / 8 * 8);
    let table = StringTable::from_bytes(raw);
    for name in ["_foobar", "bar", "", "_baz", "foobar"] {
        assert_eq!(table.get(offsets.get(name).unwrap()).unwrap(), name);
    }
}
