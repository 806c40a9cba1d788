use afs_ld::options::LinkOptions;
use afs_ld::symbol_visibility::SymbolVisibilityPolicy;

#[test]
fn exported_allowlist_and_unexported_denylist_compose() {
    let policy = SymbolVisibilityPolicy {
        exported: vec!["_keep*".into(), "_blocked".into()],
        unexported: vec!["*_blocked".into()],
    };

    assert!(!policy.hides("_keeper"));
    assert!(policy.hides("_other"));
    assert!(policy.hides("_blocked"));
}

#[test]
fn lists_stand_behind_the_patterns_of_the_options() {
    let mut opts = LinkOptions::default();
    opts.exported_symbols = vec!["_a".into()];
    let policy = SymbolVisibilityPolicy::from_opts(
        &opts,
        &vec!["_b\n\n _c \n".to_string(), "_d".to_string()],
        &vec!["_e*".to_string()],
    );
    assert_eq!(policy.exported, vec!["_a", "_b", "_c", "_d"]);
    assert_eq!(policy.unexported, vec!["_e*"]);
    assert!(!policy.hides("_c"));
    assert!(policy.hides("_x"));
}
