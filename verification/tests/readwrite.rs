use rust_bash::error::VfsError;
use rust_bash::vfs::readwrite::{confine, logical_normalize, within_root, ReadWriteFs};

#[test]
fn logical_normalize_resolves_dots() {
    assert_eq!(logical_normalize("/a/b/../c/./d"), "/a/c/d");
    assert_eq!(logical_normalize("/a/../../b"), "/b");
    assert_eq!(logical_normalize("a\\b\\..\\c"), "a/c");
    assert_eq!(logical_normalize("C:\\x\\..\\y"), "C:\\/y");
    assert_eq!(logical_normalize("C:/x/./y"), "C:/x/y");
    assert_eq!(logical_normalize("//server/share/../x"), "//server/x");
    assert_eq!(logical_normalize("/"), "/");
    assert_eq!(logical_normalize(""), "");
}

#[test]
fn roots() {
    assert_eq!(ReadWriteFs::new().root(), None);
    assert_eq!(ReadWriteFs::default().root(), None);
    assert_eq!(ReadWriteFs::with_root("/tmp/sandbox".to_string()).root(), Some("/tmp/sandbox"));
}

#[test]
fn confine_keeps_paths_below_the_root() {
    assert!(matches!(confine("/tmp/sandbox", "/"), Ok(None)));
    assert!(matches!(confine("/tmp/sandbox", "/a/./b"), Ok(Some((p, n))) if p == "/tmp/sandbox/a" && n == "b"));
    assert!(matches!(confine("/tmp/sandbox", "/a/../c.txt"), Ok(Some((p, n))) if p == "/tmp/sandbox" && n == "c.txt"));
    assert!(matches!(confine("/tmp/sandbox", "/x/../.."), Err(VfsError::PermissionDenied(p)) if p == "/x/../.."));
    assert!(matches!(confine("/tmp/sandbox", "/../sandbox2/f"), Err(VfsError::PermissionDenied(p)) if p == "/../sandbox2/f"));
    assert!(within_root("/tmp/sandbox", "/tmp/sandbox/a/b"));
    assert!(within_root("/tmp/sandbox", "/tmp/sandbox"));
    assert!(!within_root("/tmp/sandbox", "/tmp/sandbox2"));
    assert!(!within_root("/tmp/sandbox", "/tmp"));
}
