use std::time::SystemTime;

use rust_bash::error::VfsError;
use rust_bash::vfs::overlay::{
    diff, lstat_overlay, merge_listing, normalize, normalize_segments, path_components, path_less, resolve_layer,
    resolve_write_target, subtree_has_content, sync_apply, LayerResult, OverlayWrite,
};
use rust_bash::vfs::overlay_tree::{Descend, OverlayTree, UpperNode};
use rust_bash::vfs::{DirEntry, Metadata, NodeType};

fn file(content: &[u8]) -> UpperNode {
    UpperNode::File {
        content: content.to_vec(),
        mode: 0o644,
        mtime: SystemTime::now(),
    }
}

fn link(target: &str) -> UpperNode {
    UpperNode::Symlink {
        target: target.to_string(),
        mtime: SystemTime::now(),
    }
}

fn no_listing(_: &str) -> Option<Vec<String>> {
    None
}

fn no_mode(_: &str) -> Option<u32> {
    None
}

fn strings(v: &[&str]) -> Vec<String> {
    v.iter().map(|s| s.to_string()).collect()
}

#[test]
fn segments_normalize_like_paths() {
    let mut v = strings(&["a", ".", "", "b", "..", "c", "..", "..", "..", "d"]);
    normalize_segments(&mut v);
    assert_eq!(v, strings(&["..", "d"]));
    let mut v = strings(&["a", ".", "", "b", "..", "c"]);
    normalize_segments(&mut v);
    assert_eq!(v, strings(&["a", "c"]));
    let mut v = strings(&["..", "x"]);
    normalize_segments(&mut v);
    assert_eq!(v, strings(&["..", "x"]));
    let mut v = strings(&["..", "..", "y", ".."]);
    normalize_segments(&mut v);
    assert_eq!(v, strings(&["..", ".."]));
}

#[test]
fn components_and_normalize() {
    assert_eq!(path_components("/a//b/"), strings(&["a", "b"]));
    assert!(path_components("/").is_empty());
    assert_eq!(normalize("/a/../b").unwrap(), "/b");
    assert!(matches!(normalize("rel"), Err(VfsError::InvalidPath(_))));
}

#[test]
fn content_below_directories() {
    let mut t = OverlayTree::new();
    t.put_whiteout("/s/w", &no_mode);
    t.ensure_dirs("/c/d", &no_listing, &no_mode).unwrap();
    t.attach("/c/d/f", file(b"x")).unwrap();
    match t.descend("/s") {
        Descend::Found(UpperNode::Dir { children, .. }) => assert!(!subtree_has_content(children)),
        _ => panic!("scaffold dir expected"),
    }
    match t.descend("/c") {
        Descend::Found(UpperNode::Dir { children, .. }) => assert!(subtree_has_content(children)),
        _ => panic!("dir expected"),
    }
    assert!(!subtree_has_content(&Vec::new()));
}

#[test]
fn path_order_is_by_components() {
    assert!(path_less("/a/b", "/a-c"));
    assert!(!path_less("/a-c", "/a/b"));
    assert!(path_less("/a", "/a/b"));
    assert!(!path_less("/a", "/a"));
    assert!(!path_less("/a/", "/a"));
    assert!(path_less("/B", "/a"));
}

#[test]
fn write_targets_follow_upper_symlinks() {
    let mut t = OverlayTree::new();
    t.ensure_dirs("/real", &no_listing, &no_mode).unwrap();
    t.attach("/l", link("/real")).unwrap();
    t.attach("/rel", link("real/sub/..")).unwrap();
    t.attach("/f", link("/real/file")).unwrap();
    assert_eq!(resolve_write_target(&t, "/l/x", true).unwrap(), "/real/x");
    assert_eq!(resolve_write_target(&t, "/rel/y", true).unwrap(), "/real/y");
    assert_eq!(resolve_write_target(&t, "/f", true).unwrap(), "/real/file");
    assert_eq!(resolve_write_target(&t, "/f", false).unwrap(), "/f");
    assert_eq!(resolve_write_target(&t, "/a/../l/./z", true).unwrap(), "/real/z");
    assert_eq!(resolve_write_target(&t, "/", true).unwrap(), "/");
    assert!(matches!(resolve_write_target(&t, "x", true), Err(VfsError::InvalidPath(_))));
}

#[test]
fn write_target_loops_are_refused() {
    let mut t = OverlayTree::new();
    t.attach("/a", link("/b")).unwrap();
    t.attach("/b", link("/a")).unwrap();
    match resolve_write_target(&t, "/a/x", true) {
        Err(VfsError::SymlinkLoop(p)) => assert_eq!(p, "/a/x"),
        other => panic!("unexpected {:?}", other),
    }
}

#[test]
fn diff_lists_writes_and_live_deletions() {
    let mut t = OverlayTree::new();
    t.ensure_dirs("/d", &no_listing, &no_mode).unwrap();
    t.attach("/d/f", file(b"hi")).unwrap();
    t.attach("/ln", link("/d/f")).unwrap();
    t.ensure_dirs("/empty", &no_listing, &no_mode).unwrap();
    t.put_whiteout("/gone", &no_mode);
    t.put_whiteout("/scaf/old", &no_mode);
    t.put_whiteout("/stale", &no_mode);
    let d = diff(&t, &|p: &str| p != "/stale");
    let paths: Vec<&str> = d.writes.iter().map(|w| w.path.as_str()).collect();
    assert_eq!(paths, vec!["/d", "/d/f", "/empty", "/ln"]);
    assert_eq!(
        d.writes[1],
        OverlayWrite {
            path: "/d/f".to_string(),
            node_type: NodeType::File,
            content: b"hi".to_vec(),
            mode: 0o644,
        }
    );
    assert_eq!(d.writes[3].content, b"/d/f".to_vec());
    assert_eq!(d.writes[3].mode, 0o777);
    assert_eq!(d.writes[0].node_type, NodeType::Directory);
    assert!(d.writes[0].content.is_empty());
    assert_eq!(d.deletions, strings(&["/gone", "/scaf/old"]));
}

#[test]
fn diff_sorts_by_components() {
    let mut t = OverlayTree::new();
    t.attach("/a-c", file(b"1")).unwrap();
    t.ensure_dirs("/a", &no_listing, &no_mode).unwrap();
    t.attach("/a/b", file(b"2")).unwrap();
    let d = diff(&t, &|_: &str| true);
    let paths: Vec<&str> = d.writes.iter().map(|w| w.path.as_str()).collect();
    assert_eq!(paths, vec!["/a", "/a/b", "/a-c"]);
}

#[test]
fn sync_drops_matching_entries_children_first() {
    let mut t = OverlayTree::new();
    t.ensure_dirs("/d", &no_listing, &no_mode).unwrap();
    t.attach("/d/same", file(b"x")).unwrap();
    t.attach("/d/changed", file(b"y")).unwrap();
    t.attach("/top", file(b"z")).unwrap();
    let entries = vec![
        ("/d/changed".to_string(), false, false),
        ("/d/same".to_string(), false, true),
        ("/d".to_string(), true, true),
        ("/top".to_string(), false, true),
    ];
    sync_apply(&mut t, &entries);
    let paths: Vec<String> = t.walk().iter().map(|(p, _)| p.clone()).collect();
    assert_eq!(paths, vec!["/d", "/d/changed"]);
    let entries = vec![("/d/changed".to_string(), false, true), ("/d".to_string(), true, true)];
    sync_apply(&mut t, &entries);
    assert!(t.walk().is_empty());
}

#[test]
fn layers_resolve_upper_first() {
    let mut t = OverlayTree::new();
    t.attach("/u", file(b"x")).unwrap();
    t.put_whiteout("/w", &no_mode);
    let lower = |p: &str| p == "/l" || p == "/w" || p == "/u/x";
    assert_eq!(resolve_layer(&t, "/u", &lower), LayerResult::Upper);
    assert_eq!(resolve_layer(&t, "/w", &lower), LayerResult::Whiteout);
    assert_eq!(resolve_layer(&t, "/w/deeper", &lower), LayerResult::Whiteout);
    assert_eq!(resolve_layer(&t, "/u/x", &lower), LayerResult::NotFound);
    assert_eq!(resolve_layer(&t, "/l", &lower), LayerResult::Lower);
    assert_eq!(resolve_layer(&t, "/none", &lower), LayerResult::NotFound);
}

#[test]
fn lstat_through_the_overlay() {
    let mut t = OverlayTree::new();
    t.attach("/u", file(b"abc")).unwrap();
    t.put_whiteout("/w", &no_mode);
    let lower = |p: &str| p == "/l";
    let lstat_lower = |_: &str| -> Result<Metadata, VfsError> {
        Ok(Metadata {
            node_type: NodeType::Symlink,
            size: 9,
            mode: 0o777,
            mtime: SystemTime::UNIX_EPOCH,
            file_id: 0,
        })
    };
    let m = lstat_overlay(&t, "/u", "/u", &lower, &lstat_lower).unwrap();
    assert_eq!((m.node_type, m.size), (NodeType::File, 3));
    let m = lstat_overlay(&t, "/l", "/l", &lower, &lstat_lower).unwrap();
    assert_eq!((m.node_type, m.size), (NodeType::Symlink, 9));
    assert!(matches!(lstat_overlay(&t, "/w", "orig", &lower, &lstat_lower), Err(VfsError::NotFound(p)) if p == "orig"));
    assert!(matches!(lstat_overlay(&t, "/u/x", "o", &lower, &lstat_lower), Err(VfsError::NotADirectory(_))));
    assert!(matches!(lstat_overlay(&t, "/none", "n", &lower, &lstat_lower), Err(VfsError::NotFound(_))));
}

#[test]
fn merged_listings_hide_whiteouts_and_prefer_upper() {
    let mut t = OverlayTree::new();
    t.ensure_dirs("/d", &no_listing, &no_mode).unwrap();
    t.attach("/d/b", file(b"new")).unwrap();
    t.put_whiteout("/d/c", &no_mode);
    t.attach("/d/z", link("/x")).unwrap();
    let lower = vec![
        DirEntry { name: "c".to_string(), node_type: NodeType::File },
        DirEntry { name: "b".to_string(), node_type: NodeType::Directory },
        DirEntry { name: "a".to_string(), node_type: NodeType::File },
    ];
    let merged = merge_listing(&t, "/d", Some(lower));
    let got: Vec<(String, NodeType)> = merged.iter().map(|e| (e.name.clone(), e.node_type)).collect();
    assert_eq!(
        got,
        vec![
            ("a".to_string(), NodeType::File),
            ("b".to_string(), NodeType::File),
            ("z".to_string(), NodeType::Symlink),
        ]
    );
    assert!(merge_listing(&t, "/nowhere", None).is_empty());
    t.put_whiteout("/gone", &no_mode);
    let lower = vec![DirEntry { name: "k".to_string(), node_type: NodeType::File }];
    assert!(merge_listing(&t, "/gone", Some(lower)).is_empty());
}
