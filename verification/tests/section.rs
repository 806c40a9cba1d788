use afs_ld::macho::constants::{
    S_ATTR_DEBUG, S_ATTR_PURE_INSTRUCTIONS, S_ATTR_SOME_INSTRUCTIONS, S_COALESCED,
    S_CSTRING_LITERALS, S_LAZY_SYMBOL_POINTERS, S_NON_LAZY_SYMBOL_POINTERS, S_REGULAR,
    S_SYMBOL_STUBS, S_THREAD_LOCAL_REGULAR, S_THREAD_LOCAL_VARIABLES, S_THREAD_LOCAL_ZEROFILL,
    S_ZEROFILL,
};
use afs_ld::section::{classify_section, is_executable, is_zerofill, SectionKind};

#[test]
fn classify_text_section() {
    let k = classify_section(
        "__TEXT",
        "__text",
        S_ATTR_PURE_INSTRUCTIONS | S_ATTR_SOME_INSTRUCTIONS,
    );
    assert_eq!(k, SectionKind::Text);
    assert!(is_executable(k));
}

#[test]
fn classify_cstring_literals() {
    assert_eq!(
        classify_section("__TEXT", "__cstring", S_CSTRING_LITERALS),
        SectionKind::CStringLiterals
    );
}

#[test]
fn classify_zerofill() {
    let k = classify_section("__DATA", "__bss", S_ZEROFILL);
    assert_eq!(k, SectionKind::ZeroFill);
    assert!(is_zerofill(k));
}

#[test]
fn classify_const_data() {
    assert_eq!(
        classify_section("__TEXT", "__const", S_REGULAR),
        SectionKind::ConstData
    );
}

#[test]
fn classify_regular_data() {
    assert_eq!(
        classify_section("__DATA", "__data", S_REGULAR),
        SectionKind::Data
    );
}

#[test]
fn classify_compact_unwind() {
    let flags = S_REGULAR | S_ATTR_DEBUG;
    assert_eq!(
        classify_section("__TEXT", "__compact_unwind", flags),
        SectionKind::CompactUnwind
    );
}

#[test]
fn classify_eh_frame_vs_coalesced() {
    assert_eq!(
        classify_section("__TEXT", "__eh_frame", S_COALESCED),
        SectionKind::EhFrame
    );
    assert_eq!(
        classify_section("__TEXT", "__weak_text", S_COALESCED),
        SectionKind::Coalesced
    );
}

#[test]
fn classify_tls_family() {
    assert_eq!(
        classify_section("__DATA", "__thread_data", S_THREAD_LOCAL_REGULAR),
        SectionKind::ThreadLocalRegular
    );
    assert_eq!(
        classify_section("__DATA", "__thread_bss", S_THREAD_LOCAL_ZEROFILL),
        SectionKind::ThreadLocalZeroFill
    );
    assert_eq!(
        classify_section("__DATA", "__thread_vars", S_THREAD_LOCAL_VARIABLES),
        SectionKind::ThreadLocalVariables
    );
}

#[test]
fn classify_got_and_stubs() {
    assert_eq!(
        classify_section("__DATA_CONST", "__got", S_NON_LAZY_SYMBOL_POINTERS),
        SectionKind::NonLazySymbolPointers
    );
    assert_eq!(
        classify_section("__TEXT", "__stubs", S_SYMBOL_STUBS),
        SectionKind::SymbolStubs
    );
    assert_eq!(
        classify_section("__DATA", "__la_symbol_ptr", S_LAZY_SYMBOL_POINTERS),
        SectionKind::LazySymbolPointers
    );
}

#[test]
fn unknown_type_nibble_preserved() {
    let weird = 0xFFu32;
    assert_eq!(
        classify_section("__WEIRD", "__weird", weird),
        SectionKind::Unknown(0xFF)
    );
}
