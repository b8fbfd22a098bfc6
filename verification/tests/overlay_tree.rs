use std::time::SystemTime;

use rust_bash::error::VfsError;
use rust_bash::vfs::overlay_tree::{Descend, OverlayTree, UpperNode};
use rust_bash::vfs::NodeType;

fn file() -> UpperNode {
    UpperNode::File {
        content: b"x".to_vec(),
        mode: 0o644,
        mtime: SystemTime::now(),
    }
}

fn no_listing(_: &str) -> Option<Vec<String>> {
    None
}

fn no_mode(_: &str) -> Option<u32> {
    None
}

#[test]
fn descend_contract() {
    let mut t = OverlayTree::new();
    t.ensure_dirs("/a/b", &no_listing, &no_mode).unwrap();
    t.attach("/a/b/f", file()).unwrap();
    t.attach("/a/g", file()).unwrap();
    assert!(matches!(t.descend("/a/b/f"), Descend::Found(UpperNode::File { .. })));
    assert!(matches!(t.descend("/a/missing"), Descend::Missing));
    // File blocks descent
    assert!(matches!(t.descend("/a/g/deeper"), Descend::NotDir));
    // Whiteout blocks descendants
    t.put_whiteout("/a/b", &no_mode);
    assert!(matches!(t.descend("/a/b"), Descend::Found(UpperNode::Whiteout)));
    assert!(matches!(t.descend("/a/b/f"), Descend::Blocked));
    assert!(t.descend("/a/b/f").is_blocked_or_whiteout());
}

#[test]
fn attach_type_rules() {
    let mut t = OverlayTree::new();
    t.ensure_dirs("/d", &no_listing, &no_mode).unwrap();
    // file over directory → EISDIR
    let err = t.attach("/d", file()).unwrap_err();
    assert!(matches!(err, VfsError::IsADirectory(_)));
    // directory over anything → EEXIST (resurrection via ensure_dirs)
    let err = t
        .attach(
            "/d",
            UpperNode::Dir {
                children: Vec::new(),
                mode: 0o755,
                mtime: SystemTime::now(),
            },
        )
        .unwrap_err();
    assert!(matches!(err, VfsError::AlreadyExists(_)));
    // file over file → replace
    t.attach("/d/f", file()).unwrap();
    t.attach("/d/f", file()).unwrap();
}

#[test]
fn whiteout_collapse_and_resurrection() {
    let mut t = OverlayTree::new();
    t.ensure_dirs("/a/b", &no_listing, &no_mode).unwrap();
    t.attach("/a/b/f", file()).unwrap();
    // put_whiteout collapses the subtree to one leaf
    t.put_whiteout("/a", &no_mode);
    let walked = t.walk();
    let paths: Vec<&str> = walked.iter().map(|(p, _)| p.as_str()).collect();
    assert_eq!(paths, vec!["/a"]);
    // Resurrect /a with two deleted lower children
    t.ensure_dirs(
        "/a/b",
        &|p: &str| {
            if p == "/a" {
                Some(vec!["old1".to_string(), "old2".to_string()])
            } else {
                None
            }
        },
        &no_mode,
    )
    .unwrap();
    assert!(t.descend("/a/old1").is_blocked_or_whiteout());
    assert!(t.descend("/a/old2").is_blocked_or_whiteout());
    assert!(matches!(t.descend("/a/b"), Descend::Found(UpperNode::Dir { .. })));
    // Fresh writes under the resurrected dir work
    t.attach("/a/b/new", file()).unwrap();
    assert!(matches!(t.descend("/a/b/new"), Descend::Found(UpperNode::File { .. })));
}

#[test]
fn walk_orders() {
    let mut t = OverlayTree::new();
    t.ensure_dirs("/a/b", &no_listing, &no_mode).unwrap();
    t.attach("/a/b/f", file()).unwrap();
    t.put_whiteout("/a/w", &no_mode);
    let pre: Vec<String> = t.walk().iter().map(|(p, _)| p.clone()).collect();
    assert_eq!(pre, vec!["/a", "/a/b", "/a/b/f", "/a/w"]);
    let post: Vec<String> = t.walk_post().iter().map(|(p, _)| p.clone()).collect();
    assert_eq!(post, vec!["/a/b/f", "/a/b", "/a/w", "/a"]);
}

#[test]
fn walk_puts_siblings_in_name_order_and_dirs_first() {
    let mut t = OverlayTree::new();
    t.ensure_dirs("/b", &no_listing, &no_mode).unwrap();
    t.ensure_dirs("/a/z", &no_listing, &no_mode).unwrap();
    t.attach("/a/c", file()).unwrap();
    t.attach("/a/z/y", file()).unwrap();
    let pre: Vec<String> = t.walk().iter().map(|(p, _)| p.clone()).collect();
    assert_eq!(pre, vec!["/a", "/a/c", "/a/z", "/a/z/y", "/b"]);
}

#[test]
fn scaffold_dirs_take_lower_mode() {
    let mut t = OverlayTree::new();
    t.put_whiteout("/x/y/z", &|p: &str| if p == "/x" { Some(0o700) } else { None });
    assert_eq!(t.meta("/x").unwrap().mode, 0o700);
    assert_eq!(t.meta("/x/y").unwrap().mode, 0o755);
    assert!(matches!(t.descend("/x/y/z"), Descend::Found(UpperNode::Whiteout)));
    assert!(t.meta("/x/y/z").is_none());
    // A whiteout under a file is a no-op.
    t.attach("/x/f", file()).unwrap();
    t.put_whiteout("/x/f/g", &no_mode);
    assert!(matches!(t.descend("/x/f"), Descend::Found(UpperNode::File { .. })));
    // The root is never whited out.
    t.put_whiteout("/", &no_mode);
    assert_eq!(t.walk().len(), 4);
}

#[test]
fn ensure_dirs_reports_the_blocking_file() {
    let mut t = OverlayTree::new();
    t.ensure_dirs("/a", &no_listing, &no_mode).unwrap();
    t.attach("/a/f", file()).unwrap();
    match t.ensure_dirs("/a/f/g/h", &no_listing, &no_mode) {
        Err(VfsError::NotADirectory(p)) => assert_eq!(p, "/a/f"),
        other => panic!("unexpected {:?}", other),
    }
    assert_eq!(t.walk().len(), 2);
}

#[test]
fn ensure_dirs_resurrection_dedups_lower_names() {
    let mut t = OverlayTree::new();
    t.put_whiteout("/d", &no_mode);
    t.ensure_dirs(
        "/d",
        &|_: &str| Some(vec!["b".to_string(), "a".to_string(), "b".to_string()]),
        &|_: &str| Some(0o711),
    )
    .unwrap();
    let entries = t.dir_entries("/d").unwrap();
    let names: Vec<String> = entries.iter().map(|e| e.name.clone()).collect();
    assert_eq!(names, vec!["a", "b"]);
    assert_eq!(t.meta("/d").unwrap().mode, 0o711);
}

#[test]
fn dir_entries_root_and_kinds() {
    let mut t = OverlayTree::new();
    assert_eq!(t.dir_entries("/").unwrap().len(), 0);
    t.ensure_dirs("/z", &no_listing, &no_mode).unwrap();
    t.attach("/m", file()).unwrap();
    t.attach(
        "/l",
        UpperNode::Symlink {
            target: "/m".to_string(),
            mtime: SystemTime::now(),
        },
    )
    .unwrap();
    let entries = t.dir_entries("/").unwrap();
    let got: Vec<(String, NodeType)> = entries.iter().map(|e| (e.name.clone(), e.node_type)).collect();
    assert_eq!(
        got,
        vec![
            ("l".to_string(), NodeType::Symlink),
            ("m".to_string(), NodeType::File),
            ("z".to_string(), NodeType::Directory),
        ]
    );
    assert!(t.dir_entries("/m").is_none());
    assert!(t.dir_entries("/nope").is_none());
}

#[test]
fn meta_sizes() {
    let mut t = OverlayTree::new();
    t.attach("/f", file()).unwrap();
    t.attach(
        "/l",
        UpperNode::Symlink {
            target: "/héllo".to_string(),
            mtime: SystemTime::now(),
        },
    )
    .unwrap();
    t.ensure_dirs("/d", &no_listing, &no_mode).unwrap();
    let f = t.meta("/f").unwrap();
    assert_eq!((f.node_type, f.size, f.mode), (NodeType::File, 1, 0o644));
    let l = t.meta("/l").unwrap();
    assert_eq!((l.node_type, l.size, l.mode), (NodeType::Symlink, 7, 0o777));
    let d = t.meta("/d").unwrap();
    assert_eq!((d.node_type, d.size, d.mode), (NodeType::Directory, 0, 0o755));
    assert!(t.meta("/").is_none());
}

#[test]
fn append_and_mode_errors() {
    let mut t = OverlayTree::new();
    t.ensure_dirs("/d", &no_listing, &no_mode).unwrap();
    t.attach("/d/f", file()).unwrap();
    t.append_file("/d/f", b"yz").unwrap();
    assert_eq!(t.meta("/d/f").unwrap().size, 3);
    assert!(matches!(t.append_file("/d", b"q"), Err(VfsError::IsADirectory(_))));
    assert!(matches!(t.append_file("/d/none", b"q"), Err(VfsError::NotFound(_))));
    assert!(matches!(t.append_file("/", b"q"), Err(VfsError::NotFound(_))));
    assert!(matches!(t.append_file("/d/f/x", b"q"), Err(VfsError::NotFound(_))));

    t.set_mode("/d/f", 0o600).unwrap();
    assert_eq!(t.meta("/d/f").unwrap().mode, 0o600);
    t.set_mode("/d", 0o700).unwrap();
    assert_eq!(t.meta("/d").unwrap().mode, 0o700);
    match t.set_mode("/", 0o700) {
        Err(VfsError::InvalidPath(m)) => assert_eq!(m, "root"),
        other => panic!("unexpected {:?}", other),
    }
    assert!(matches!(t.set_mode("/d/f/x", 0o1), Err(VfsError::NotADirectory(_))));
    assert!(matches!(t.set_mode("/nope/x", 0o1), Err(VfsError::NotFound(_))));
    t.attach(
        "/d/l",
        UpperNode::Symlink {
            target: "f".to_string(),
            mtime: SystemTime::now(),
        },
    )
    .unwrap();
    match t.set_mode("/d/l", 0o1) {
        Err(VfsError::InvalidPath(p)) => assert_eq!(p, "/d/l"),
        other => panic!("unexpected {:?}", other),
    }
    let when = SystemTime::UNIX_EPOCH;
    t.set_mtime("/d/l", when).unwrap();
    assert_eq!(t.meta("/d/l").unwrap().mtime, when);
    t.put_whiteout("/d/w", &no_mode);
    assert!(matches!(t.set_mtime("/d/w", when), Err(VfsError::InvalidPath(_))));
}

#[test]
fn detach_and_clear() {
    let mut t = OverlayTree::new();
    t.ensure_dirs("/a/b", &no_listing, &no_mode).unwrap();
    t.attach("/a/b/f", file()).unwrap();
    t.detach("/a/b");
    assert!(matches!(t.descend("/a/b"), Descend::Missing));
    assert!(matches!(t.descend("/a"), Descend::Found(UpperNode::Dir { .. })));
    t.detach("/nope/x");
    t.clear();
    assert!(t.walk().is_empty());
    assert!(matches!(t.descend("/"), Descend::Missing));
}

#[test]
fn descend_content_filters_whiteouts() {
    let mut t = OverlayTree::new();
    t.attach("/f", file()).unwrap();
    t.put_whiteout("/w", &no_mode);
    assert!(t.descend("/f").content().is_some());
    assert!(t.descend("/w").content().is_none());
    assert!(t.descend("/w").is_blocked_or_whiteout());
    assert!(!t.descend("/f").is_blocked_or_whiteout());
    assert!(file().is_content());
    assert!(!UpperNode::Whiteout.is_content());
    assert_eq!(UpperNode::Whiteout.node_type(), NodeType::File);
}
