use afs_ld::macho::tbd_yaml::{parse_documents, Document, Value};

fn parse_one(src: &str) -> Document {
    let mut docs = parse_documents(src).unwrap();
    assert_eq!(docs.len(), 1);
    docs.pop().unwrap()
}

#[test]
fn parses_flat_mapping() {
    let doc = parse_one("key1: value1\nkey2: value2\n");
    let m = doc.root.as_mapping().unwrap();
    assert_eq!(m.len(), 2);
    assert_eq!(m[0].0, "key1");
    assert_eq!(m[0].1, Value::Scalar("value1".into()));
    assert_eq!(m[1].0, "key2");
    assert_eq!(m[1].1, Value::Scalar("value2".into()));
}

#[test]
fn nested_mapping_via_indentation() {
    let doc = parse_one("a:\n  b: 1\n  c: 2\n");
    let a = doc.root.get("a").unwrap();
    let m = a.as_mapping().unwrap();
    assert_eq!(m[0], ("b".into(), Value::Scalar("1".into())));
    assert_eq!(m[1], ("c".into(), Value::Scalar("2".into())));
}

#[test]
fn flow_sequence_on_one_line() {
    let doc = parse_one("xs: [ a, b, c ]\n");
    let xs = doc.root.get("xs").unwrap();
    let s = xs.as_sequence().unwrap();
    assert_eq!(s[0], Value::Scalar("a".into()));
    assert_eq!(s[1], Value::Scalar("b".into()));
    assert_eq!(s[2], Value::Scalar("c".into()));
}

#[test]
fn flow_sequence_spans_lines() {
    let doc = parse_one("xs: [ a, b,\n      c, d ]\n");
    let s = doc.root.get("xs").unwrap().as_sequence().unwrap();
    assert_eq!(s.len(), 4);
}

#[test]
fn single_quoted_scalar_unescapes_doubled_apostrophe() {
    let doc = parse_one("path: 'can''t'\n");
    assert_eq!(
        doc.root.get("path").unwrap(),
        &Value::Scalar("can't".into())
    );
}

#[test]
fn double_quoted_scalar_applies_escapes() {
    let doc = parse_one(r#"msg: "a\tb\n""#);
    assert_eq!(
        doc.root.get("msg").unwrap(),
        &Value::Scalar("a\tb\n".into())
    );
}

#[test]
fn block_sequence_of_mappings() {
    let doc = parse_one("items:\n  - name: alpha\n    size: 1\n  - name: beta\n    size: 2\n");
    let items = doc.root.get("items").unwrap().as_sequence().unwrap();
    assert_eq!(items.len(), 2);
    let a = items[0].as_mapping().unwrap();
    assert_eq!(a[0], ("name".into(), Value::Scalar("alpha".into())));
    assert_eq!(a[1], ("size".into(), Value::Scalar("1".into())));
    let b = items[1].as_mapping().unwrap();
    assert_eq!(b[0], ("name".into(), Value::Scalar("beta".into())));
}

#[test]
fn block_sequence_entries_with_flow_values() {
    let doc =
        parse_one("exports:\n  - targets: [ arm64-macos ]\n    symbols: [ _foo, _bar ]\n");
    let e = doc.root.get("exports").unwrap().as_sequence().unwrap();
    let entry = e[0].as_mapping().unwrap();
    assert_eq!(
        entry[0].1.as_sequence().unwrap()[0],
        Value::Scalar("arm64-macos".into())
    );
    assert_eq!(
        entry[1].1.as_sequence().unwrap()[1],
        Value::Scalar("_bar".into())
    );
}

#[test]
fn multi_document_split_by_triple_dash() {
    let src = "--- !tapi-tbd\nkey: a\n--- !tapi-tbd\nkey: b\n...\n";
    let docs = parse_documents(src).unwrap();
    assert_eq!(docs.len(), 2);
    assert_eq!(docs[0].tag.as_deref(), Some("!tapi-tbd"));
    assert_eq!(docs[0].root.get("key"), Some(&Value::Scalar("a".into())));
    assert_eq!(docs[1].root.get("key"), Some(&Value::Scalar("b".into())));
}

#[test]
fn comment_lines_are_skipped() {
    let doc = parse_one("# a comment\nkey: value\n# another\n");
    assert_eq!(doc.root.get("key"), Some(&Value::Scalar("value".into())));
}

#[test]
fn eol_comments_are_stripped() {
    let doc = parse_one("key: value  # trailing\n");
    assert_eq!(doc.root.get("key"), Some(&Value::Scalar("value".into())));
}

#[test]
fn unterminated_flow_errors_cleanly() {
    let err = parse_documents("xs: [ a, b,\n").unwrap_err();
    assert!(err.msg.contains("unterminated"));
}

#[test]
fn wrong_indentation_errors() {
    // Second key at a greater indent than the first without a parent.
    let err = parse_documents("a: 1\n   b: 2\n").unwrap_err();
    assert!(err.msg.contains("indentation"));
}

#[test]
fn a_line_outside_of_the_block_is_refused() {
    let error = parse_documents("a:\n- x\nb: 1\n").unwrap_err();
    assert_eq!((error.line, error.col), (2, 1));
    let error = parse_documents("  a: 1\nb: 2\n").unwrap_err();
    assert_eq!((error.line, error.col), (2, 1));
}

#[test]
fn text_behind_a_document_mark_is_refused() {
    assert_eq!(parse_documents("--- !tag\na: 1\n...\n").unwrap().len(), 1);
    for text in ["--- a: 1\n", "--- !tag b\na: 1\n", "a: 1\n... b\n"] {
        let error = parse_documents(text).unwrap_err();
        assert_eq!(error.msg, "unexpected text behind a document mark");
    }
}

#[test]
fn anchors_aliases_and_block_scalars_are_refused() {
    for text in ["a: &x 1\n", "a: *x\n", "a: |\n", "a: [ b, >c ]\n"] {
        assert_eq!(parse_documents(text).unwrap_err().line, 1);
    }
    assert!(parse_documents("a: '*x'\n").is_ok());
}
