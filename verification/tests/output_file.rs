use afs_ld::output::{
    comparison_path, make_temporary_name, output_directory, output_mode, paths_alias,
    PermissionMode,
};
use afs_ld::path::{
    find_file_name, find_last_step, join, normalize_lexically, same_path, take_apart,
};

#[test]
fn each_permission_policy_gives_its_mode() {
    let old = Some(0o100640);
    assert_eq!(output_mode(PermissionMode::Preserve, old, 0o644), Some(0o640));
    assert_eq!(output_mode(PermissionMode::AddExecute, old, 0o644), Some(0o750));
    assert_eq!(output_mode(PermissionMode::Exact(0o755), old, 0o644), Some(0o755));
    assert_eq!(output_mode(PermissionMode::Preserve, None, 0o644), None);
    assert_eq!(output_mode(PermissionMode::AddExecute, None, 0o100644), Some(0o755));
}

#[test]
fn adding_execute_twice_is_adding_it_once() {
    for mode in [0, 0o400, 0o640, 0o222, 0o777] {
        let once = output_mode(PermissionMode::AddExecute, Some(mode), 0);
        assert_eq!(output_mode(PermissionMode::AddExecute, once, 0), once);
    }
}

#[test]
fn temporary_names_tell_processes_and_attempts_apart() {
    assert_eq!(make_temporary_name(123, 0x1f), ".afs-ld-tmp-123-000000000000001f");
}

#[test]
fn outputs_stand_in_directories() {
    assert_eq!(output_directory("out"), ".");
    assert_eq!(output_directory("a/b/out"), "a/b");
    assert_eq!(output_directory("/out"), "/");
    assert_eq!(output_directory("a//./out/"), "a");
    assert_eq!(output_directory(""), ".");
}

#[test]
fn paths_lead_to_one_file_or_not() {
    assert!(paths_alias(Some((1, 2)), Some((1, 2)), "/a", "/b"));
    assert!(!paths_alias(Some((1, 2)), Some((1, 3)), "/a", "/b"));
    assert!(!paths_alias(None, None, "/a", "/b"));
    assert!(paths_alias(None, Some((1, 2)), "/a/b", "/a//b"));
}

#[test]
fn missing_leaves_are_compared_behind_their_directory() {
    let missing = vec!["file".to_string(), "..".to_string(), "dir".to_string()];
    assert_eq!(comparison_path("/real", &missing), "/real/file");
    assert_eq!(comparison_path("/", &vec!["x".to_string()]), "/x");
}

#[test]
fn paths_are_normalized_in_the_text() {
    assert_eq!(normalize_lexically("/a/./b/../c//d"), "/a/c/d");
    assert_eq!(normalize_lexically("../a/.."), "");
    assert_eq!(normalize_lexically("/.."), "/");
    let once = normalize_lexically("/x/../y/./z");
    assert_eq!(normalize_lexically(&once), once);
}

#[test]
fn paths_are_taken_apart() {
    let parts = take_apart("./a//b/.");
    assert!(!parts.rooted && parts.dotted);
    assert_eq!(parts.names, vec!["a", "b"]);
    assert!(same_path("a/b", "a//b/"));
    assert!(!same_path("a", "./a"));
    assert!(!same_path("a", "/a"));
    assert_eq!(join("", "b"), "b");
    assert_eq!(join("a", "b"), "a/b");
    assert_eq!(join("a/", "b"), "a/b");
    assert_eq!(join("a", "/b"), "/b");
}

#[test]
fn the_last_step_of_a_path() {
    let step = find_last_step("/a/b//c/./").unwrap();
    assert_eq!((step.parent.as_str(), step.name.as_str()), ("/a/b", "c"));
    let step = find_last_step("./a").unwrap();
    assert_eq!((step.parent.as_str(), step.name.as_str()), (".", "a"));
    let step = find_last_step("a").unwrap();
    assert_eq!((step.parent.as_str(), step.name.as_str()), ("", "a"));
    let step = find_last_step(".").unwrap();
    assert_eq!((step.parent.as_str(), step.name.as_str()), ("", "."));
    let step = find_last_step("/a").unwrap();
    assert_eq!((step.parent.as_str(), step.name.as_str()), ("/", "a"));
    assert!(find_last_step("/").is_none());
    assert!(find_last_step("").is_none());
}

#[test]
fn file_names_of_paths() {
    assert_eq!(find_file_name("a/libz.dylib").as_deref(), Some("libz.dylib"));
    assert_eq!(find_file_name("a/b/").as_deref(), Some("b"));
    assert_eq!(find_file_name("a/..").as_deref(), None);
    assert_eq!(find_file_name("/").as_deref(), None);
}

#[test]
fn path_rules_agree_with_the_standard_library() {
    for text in [
        "", "/", ".", "..", "a", "a/b", "a//b", "/a", "//a", "./a", "a/.", "a/./b", "a/../b", "./", "/./a",
        "././a", "a/b/", ".a", "..a/b",
    ] {
        let path = std::path::Path::new(text);
        let step = find_last_step(text);
        assert_eq!(
            step.map(|s| s.parent),
            path.parent().map(|p| p.to_str().unwrap().to_string()),
            "parent of {text:?}"
        );
        assert_eq!(
            find_file_name(text),
            path.file_name().map(|n| n.to_str().unwrap().to_string()),
            "file name of {text:?}"
        );
        for other in ["a", "./a", "a/b", "/a", "a/../b", ""] {
            assert_eq!(
                same_path(text, other),
                path == std::path::Path::new(other),
                "{text:?} and {other:?}"
            );
            assert_eq!(
                join(text, other),
                path.join(other).to_str().unwrap(),
                "{text:?} joined with {other:?}"
            );
        }
    }
}
