use std::time::SystemTime;

use rust_bash::error::VfsError;
use rust_bash::vfs::overlay_resolve::resolve_path_depth;
use rust_bash::vfs::overlay_tree::{OverlayTree, UpperNode};

fn file(content: &[u8]) -> UpperNode {
    UpperNode::File { content: content.to_vec(), mode: 0o644, mtime: SystemTime::now() }
}

fn link(target: &str) -> UpperNode {
    UpperNode::Symlink { target: target.to_string(), mtime: SystemTime::now() }
}

fn no_mode(_: &str) -> Option<u32> {
    None
}

fn no_listing(_: &str) -> Option<Vec<String>> {
    None
}

fn never_link(_: &str) -> bool {
    false
}

fn no_target(p: &str) -> Result<String, VfsError> {
    Err(VfsError::NotFound(p.to_string()))
}

fn tree() -> OverlayTree {
    let mut t = OverlayTree::new();
    t.ensure_dirs("/d/sub", &no_listing, &no_mode).unwrap();
    t.attach("/d/f", file(b"x")).unwrap();
    t.attach("/abs", link("/d/sub")).unwrap();
    t.attach("/d/rel", link("sub/../f")).unwrap();
    t.attach("/loop", link("/loop")).unwrap();
    t.put_whiteout("/gone", &no_mode);
    t
}

#[test]
fn resolves_plain_and_missing_components() {
    let t = tree();
    assert_eq!(resolve_path_depth(&t, "/d/./sub/../f", true, 40, &never_link, &no_target).unwrap(), "/d/f");
    assert_eq!(resolve_path_depth(&t, "/nowhere/x", true, 40, &never_link, &no_target).unwrap(), "/nowhere/x");
    assert_eq!(resolve_path_depth(&t, "/", true, 40, &never_link, &no_target).unwrap(), "/");
}

#[test]
fn follows_upper_links() {
    let t = tree();
    assert_eq!(resolve_path_depth(&t, "/abs/x", true, 40, &never_link, &no_target).unwrap(), "/d/sub/x");
    assert_eq!(resolve_path_depth(&t, "/d/rel", true, 40, &never_link, &no_target).unwrap(), "/d/f");
    assert_eq!(resolve_path_depth(&t, "/abs", false, 40, &never_link, &no_target).unwrap(), "/abs");
    assert_eq!(resolve_path_depth(&t, "/abs", true, 40, &never_link, &no_target).unwrap(), "/d/sub");
}

#[test]
fn whiteouts_and_files_refuse() {
    let t = tree();
    assert!(matches!(
        resolve_path_depth(&t, "/gone/x", true, 40, &never_link, &no_target),
        Err(VfsError::NotFound(p)) if p == "/gone/x"
    ));
    assert!(matches!(
        resolve_path_depth(&t, "/d/f/x", true, 40, &never_link, &no_target),
        Err(VfsError::NotADirectory(p)) if p == "/d/f/x"
    ));
}

#[test]
fn loops_and_relative_paths_refuse() {
    let t = tree();
    assert!(matches!(
        resolve_path_depth(&t, "/loop", true, 40, &never_link, &no_target),
        Err(VfsError::SymlinkLoop(_))
    ));
    assert!(matches!(
        resolve_path_depth(&t, "/d/f", true, 0, &never_link, &no_target),
        Err(VfsError::SymlinkLoop(p)) if p == "/d/f"
    ));
    assert!(matches!(
        resolve_path_depth(&t, "rel", true, 40, &never_link, &no_target),
        Err(VfsError::InvalidPath(_))
    ));
}

#[test]
fn lower_links_are_asked_only_where_upper_is_silent() {
    let t = tree();
    let lower_link = |p: &str| p == "/lower" || p == "/d";
    let lower_target = |p: &str| {
        if p == "/lower" {
            Ok("d/sub".to_string())
        } else {
            Err(VfsError::IoError(p.to_string()))
        }
    };
    // `/d` is an upper directory, so the lower answer for it is never used.
    assert_eq!(resolve_path_depth(&t, "/d/f", true, 40, &lower_link, &lower_target).unwrap(), "/d/f");
    assert_eq!(resolve_path_depth(&t, "/lower/y", true, 40, &lower_link, &lower_target).unwrap(), "/d/sub/y");
    assert_eq!(resolve_path_depth(&t, "/lower", false, 40, &lower_link, &lower_target).unwrap(), "/lower");
    let broken = |p: &str| p == "/bad";
    assert!(matches!(
        resolve_path_depth(&t, "/bad/z", true, 40, &broken, &lower_target),
        Err(VfsError::IoError(p)) if p == "/bad"
    ));
}
