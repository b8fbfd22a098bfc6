use rust_bash::error::VfsError;
use rust_bash::vfs::{vfs_append, vfs_join, vfs_normalize, vfs_normalize_checked, vfs_path_is_absolute, vfs_resolve};

#[test]
fn absolute_is_a_leading_slash() {
    assert!(vfs_path_is_absolute("/a"));
    assert!(vfs_path_is_absolute("/"));
    assert!(!vfs_path_is_absolute("a/b"));
    assert!(!vfs_path_is_absolute(""));
    assert!(!vfs_path_is_absolute("C:\\x"));
}

#[test]
fn join_adds_exactly_one_separator() {
    assert_eq!(vfs_join("/", "a"), "/a");
    assert_eq!(vfs_join("/a", "b"), "/a/b");
    assert_eq!(vfs_join("/a/", "b"), "/a/b");
    assert_eq!(vfs_join("/a", "b\\c"), "/a/b\\c");
}

#[test]
fn append_drops_leading_slashes() {
    assert_eq!(vfs_append("/a", "b/c"), "/a/b/c");
    assert_eq!(vfs_append("/a/", "//b"), "/a/b");
    assert_eq!(vfs_append("/a", ""), "/a");
    assert_eq!(vfs_append("/a", "///"), "/a");
}

#[test]
fn normalize_checked_resolves_dots() {
    assert_eq!(vfs_normalize_checked("/a/./b/../c//").unwrap(), "/a/c");
    assert_eq!(vfs_normalize_checked("/..").unwrap(), "/");
    assert_eq!(vfs_normalize_checked("/../a/..").unwrap(), "/");
    assert_eq!(vfs_normalize_checked("/a\\b/c").unwrap(), "/a\\b/c");
    match vfs_normalize_checked("") {
        Err(VfsError::InvalidPath(m)) => assert_eq!(m, "empty path"),
        other => panic!("unexpected {:?}", other),
    }
    match vfs_normalize_checked("a/b") {
        Err(VfsError::InvalidPath(m)) => assert_eq!(m, "path must be absolute: a/b"),
        other => panic!("unexpected {:?}", other),
    }
}

#[test]
fn normalize_idempotent_on_examples() {
    for p in ["/a/./b/../c", "/x//y/", "/../../z", "/"] {
        let once = vfs_normalize_checked(p).unwrap();
        let twice = vfs_normalize_checked(&once).unwrap();
        assert_eq!(once, twice);
    }
}

#[test]
fn resolve_against_cwd() {
    assert_eq!(vfs_resolve("/home", "f"), "/home/f");
    assert_eq!(vfs_resolve("/home/", "f"), "/home/f");
    assert_eq!(vfs_resolve("/home", "/etc/x"), "/etc/x");
}

#[test]
fn normalize_keeps_relative_paths_relative() {
    assert_eq!(vfs_normalize("a/./b/../c"), "a/c");
    assert_eq!(vfs_normalize("../a"), "a");
    assert_eq!(vfs_normalize("/a/b/.."), "/a");
    assert_eq!(vfs_normalize(""), "");
}
