use std::time::SystemTime;

use rust_bash::error::VfsError;
use rust_bash::vfs::overlay_ops::remove_file;
use rust_bash::vfs::overlay_tree::{Descend, OverlayTree, UpperNode};
use rust_bash::vfs::NodeType;

fn file(content: &[u8]) -> UpperNode {
    UpperNode::File { content: content.to_vec(), mode: 0o644, mtime: SystemTime::now() }
}

fn no_mode(_: &str) -> Option<u32> {
    None
}

fn no_listing(_: &str) -> Option<Vec<String>> {
    None
}

fn never_link(_: &str) -> bool {
    false
}

fn no_target(p: &str) -> Result<String, VfsError> {
    Err(VfsError::NotFound(p.to_string()))
}

fn tree() -> OverlayTree {
    let mut t = OverlayTree::new();
    t.ensure_dirs("/d/sub", &no_listing, &no_mode).unwrap();
    t.attach("/d/f", file(b"x")).unwrap();
    t.attach("/d/g", file(b"y")).unwrap();
    t.put_whiteout("/gone", &no_mode);
    t
}

fn lower_has(p: &str) -> bool {
    p == "/d/g" || p == "/low" || p == "/lowdir"
}

fn lower_kind(p: &str) -> Option<NodeType> {
    match p {
        "/d/g" | "/low" => Some(NodeType::File),
        "/lowdir" => Some(NodeType::Directory),
        _ => None,
    }
}

fn rm(t: &mut OverlayTree, p: &str) -> Result<(), VfsError> {
    remove_file(t, p, &never_link, &no_target, &lower_has, &lower_kind, &no_mode)
}

#[test]
fn removing_upper_only_file_detaches_it() {
    let mut t = tree();
    rm(&mut t, "/d/./f").unwrap();
    assert!(matches!(t.descend("/d/f"), Descend::Missing));
}

#[test]
fn removing_file_that_lower_also_has_leaves_whiteout() {
    let mut t = tree();
    rm(&mut t, "/d/g").unwrap();
    assert!(matches!(t.descend("/d/g"), Descend::Found(UpperNode::Whiteout)));
}

#[test]
fn removing_lower_only_file_leaves_whiteout() {
    let mut t = tree();
    rm(&mut t, "/low").unwrap();
    assert!(matches!(t.descend("/low"), Descend::Found(UpperNode::Whiteout)));
}

#[test]
fn remove_refusals_leave_tree_alone() {
    let mut t = tree();
    assert!(matches!(rm(&mut t, "/d"), Err(VfsError::IsADirectory(p)) if p == "/d"));
    assert!(matches!(rm(&mut t, "/lowdir"), Err(VfsError::IsADirectory(p)) if p == "/lowdir"));
    assert!(matches!(rm(&mut t, "/nothing"), Err(VfsError::NotFound(p)) if p == "/nothing"));
    assert!(matches!(rm(&mut t, "/gone"), Err(VfsError::NotFound(p)) if p == "/gone"));
    assert!(matches!(rm(&mut t, "/gone/x"), Err(VfsError::NotFound(p)) if p == "/gone/x"));
    assert!(matches!(rm(&mut t, "/d/f/x"), Err(VfsError::NotADirectory(_))));
    assert!(matches!(rm(&mut t, "rel"), Err(VfsError::InvalidPath(_))));
    assert!(matches!(t.descend("/d/f"), Descend::Found(UpperNode::File { .. })));
    assert!(matches!(t.descend("/d"), Descend::Found(UpperNode::Dir { .. })));
}

#[test]
fn remove_follows_lower_links_mid_path() {
    let mut t = tree();
    let link = |p: &str| p == "/alias";
    let target = |_: &str| Ok("/d".to_string());
    remove_file(&mut t, "/alias/f", &link, &target, &lower_has, &lower_kind, &no_mode).unwrap();
    assert!(matches!(t.descend("/d/f"), Descend::Missing));
}

fn no_lower_read(p: &str) -> Result<Vec<u8>, VfsError> {
    Err(VfsError::NotFound(p.to_string()))
}

fn lower_bytes(p: &str) -> Result<Vec<u8>, VfsError> {
    match p {
        "/d/g" => Ok(b"lower g".to_vec()),
        "/low" => Ok(b"low".to_vec()),
        _ => Err(VfsError::NotFound(p.to_string())),
    }
}

fn read(t: &OverlayTree, p: &str) -> Result<Vec<u8>, VfsError> {
    rust_bash::vfs::overlay_ops::read_file(t, p, &never_link, &no_target, &lower_has, &lower_bytes)
}

#[test]
fn read_prefers_upper_content() {
    let t = tree();
    assert_eq!(read(&t, "/d/g").unwrap(), b"y".to_vec());
    assert_eq!(read(&t, "/d/../d/f").unwrap(), b"x".to_vec());
    assert_eq!(read(&t, "/low").unwrap(), b"low".to_vec());
}

#[test]
fn read_refusals() {
    let t = tree();
    assert!(matches!(read(&t, "/d"), Err(VfsError::IsADirectory(p)) if p == "/d"));
    assert!(matches!(read(&t, "/gone"), Err(VfsError::NotFound(p)) if p == "/gone"));
    assert!(matches!(read(&t, "/nothing"), Err(VfsError::NotFound(p)) if p == "/nothing"));
    assert!(matches!(read(&t, "rel"), Err(VfsError::InvalidPath(_))));
    assert!(matches!(
        rust_bash::vfs::overlay_ops::read_file(&t, "/x", &never_link, &no_target, &|_: &str| true, &no_lower_read),
        Err(VfsError::NotFound(p)) if p == "/x"
    ));
}

#[test]
fn read_after_write_and_remove() {
    let mut t = tree();
    t.ensure_dirs("/new/dir", &no_listing, &no_mode).unwrap();
    t.attach("/new/dir/f", file(b"fresh")).unwrap();
    assert_eq!(read(&t, "/new/dir/f").unwrap(), b"fresh".to_vec());
    rm(&mut t, "/d/g").unwrap();
    assert!(matches!(read(&t, "/d/g"), Err(VfsError::NotFound(_))));
    rm(&mut t, "/low").unwrap();
    assert!(matches!(read(&t, "/low"), Err(VfsError::NotFound(_))));
}

fn lower_meta(p: &str) -> Result<rust_bash::vfs::Metadata, VfsError> {
    let node_type = match lower_kind(p) {
        Some(k) => k,
        None => return Err(VfsError::NotFound(p.to_string())),
    };
    Ok(rust_bash::vfs::Metadata { node_type, size: 3, mode: 0o600, mtime: SystemTime::UNIX_EPOCH, file_id: 9 })
}

#[test]
fn stat_reports_both_layers() {
    let t = tree();
    let st = |p: &str| rust_bash::vfs::overlay_ops::stat(&t, p, &never_link, &no_target, &lower_has, &lower_meta);
    let m = st("/d/f").unwrap();
    assert_eq!((m.node_type, m.size, m.mode), (NodeType::File, 1, 0o644));
    assert_eq!(st("/d").unwrap().node_type, NodeType::Directory);
    let m = st("/low").unwrap();
    assert_eq!((m.node_type, m.mode, m.file_id), (NodeType::File, 0o600, 9));
    assert!(matches!(st("/gone"), Err(VfsError::NotFound(p)) if p == "/gone"));
    assert!(matches!(st("/nothing"), Err(VfsError::NotFound(p)) if p == "/nothing"));
}

#[test]
fn remove_dir_all_hides_or_detaches() {
    let mut t = tree();
    let mut rmrf = |t: &mut OverlayTree, p: &str| {
        rust_bash::vfs::overlay_ops::remove_dir_all(t, p, &never_link, &no_target, &lower_has, &lower_meta, &no_mode)
    };
    assert!(matches!(rmrf(&mut t, "/"), Err(VfsError::InvalidPath(m)) if m == "cannot remove root"));
    assert!(matches!(rmrf(&mut t, "/d/f"), Err(VfsError::NotADirectory(p)) if p == "/d/f"));
    assert!(matches!(rmrf(&mut t, "/gone"), Err(VfsError::NotFound(p)) if p == "/gone"));
    rmrf(&mut t, "/d").unwrap();
    assert!(matches!(t.descend("/d"), Descend::Missing));
    rmrf(&mut t, "/lowdir").unwrap();
    assert!(matches!(t.descend("/lowdir"), Descend::Found(UpperNode::Whiteout)));
}

#[test]
fn mkdir_refuses_existing_names_and_resurrects_whiteouts() {
    let mut t = tree();
    let mut mk = |t: &mut OverlayTree, p: &str| {
        rust_bash::vfs::overlay_ops::mkdir(t, p, &lower_has, &no_listing, &no_mode)
    };
    assert!(matches!(mk(&mut t, "/d"), Err(VfsError::AlreadyExists(p)) if p == "/d"));
    assert!(matches!(mk(&mut t, "/low"), Err(VfsError::AlreadyExists(p)) if p == "/low"));
    assert!(matches!(mk(&mut t, "/d/f/x"), Err(VfsError::NotADirectory(p)) if p == "/d/f"));
    mk(&mut t, "/gone").unwrap();
    assert!(matches!(t.descend("/gone"), Descend::Found(UpperNode::Dir { .. })));
    mk(&mut t, "/a/b/c").unwrap();
    assert!(matches!(t.descend("/a/b"), Descend::Found(UpperNode::Dir { .. })));
    assert!(matches!(t.descend("/a/b/c"), Descend::Found(UpperNode::Dir { .. })));
}

fn link(target: &str) -> UpperNode {
    UpperNode::Symlink { target: target.to_string(), mtime: SystemTime::now() }
}

fn lower_link_target(p: &str) -> Result<String, VfsError> {
    if p == "/low" {
        Err(VfsError::InvalidPath(p.to_string()))
    } else {
        Err(VfsError::NotFound(p.to_string()))
    }
}

#[test]
fn readlink_and_lstat() {
    let mut t = tree();
    t.attach("/ln", link("d/f")).unwrap();
    let rl = |t: &OverlayTree, p: &str| rust_bash::vfs::overlay_ops::readlink(t, p, &lower_has, &lower_link_target);
    assert_eq!(rl(&t, "/ln").unwrap(), "d/f");
    assert!(matches!(rl(&t, "/d/f"), Err(VfsError::InvalidPath(p)) if p == "/d/f"));
    assert!(matches!(rl(&t, "/gone"), Err(VfsError::NotFound(p)) if p == "/gone"));
    assert!(matches!(rl(&t, "/low"), Err(VfsError::InvalidPath(p)) if p == "/low"));
    assert!(matches!(rl(&t, "/none"), Err(VfsError::NotFound(p)) if p == "/none"));
    let ls = |p: &str| rust_bash::vfs::overlay_ops::lstat(&t, p, &lower_has, &lower_meta);
    assert_eq!(ls("/ln").unwrap().node_type, NodeType::Symlink);
    assert_eq!(ls("/ln").unwrap().size, 3);
    assert_eq!(ls("/lowdir").unwrap().node_type, NodeType::Directory);
    assert!(matches!(ls("/d/f/x"), Err(VfsError::NotADirectory(p)) if p == "/d/f/x"));
}

#[test]
fn canonicalize_and_exists() {
    let mut t = tree();
    t.attach("/ln", link("d/f")).unwrap();
    let can = |p: &str| rust_bash::vfs::overlay_ops::canonicalize(&t, p, &never_link, &no_target, &lower_has);
    assert_eq!(can("/ln").unwrap(), "/d/f");
    assert_eq!(can("/d/./sub/..").unwrap(), "/d");
    assert_eq!(can("/low").unwrap(), "/low");
    assert!(matches!(can("/gone"), Err(VfsError::NotFound(p)) if p == "/gone"));
    assert!(matches!(can("/none"), Err(VfsError::NotFound(p)) if p == "/none"));
    let ex = |p: &str| rust_bash::vfs::overlay_ops::path_exists(&t, p, &never_link, &no_target, &lower_has);
    assert!(ex("/ln") && ex("/d") && ex("/low"));
    assert!(!ex("/gone") && !ex("/none") && !ex("rel") && !ex("/d/f/x"));
}

// The lower layer of the overlay tests: a directory holding
// `src/main.rs`, `README.md` and `data/config.toml`.
fn sample_kind(p: &str) -> Option<NodeType> {
    match p {
        "/" | "/src" | "/data" => Some(NodeType::Directory),
        "/src/main.rs" | "/README.md" | "/data/config.toml" => Some(NodeType::File),
        _ => None,
    }
}

fn sample_exists(p: &str) -> bool {
    sample_kind(p).is_some()
}

fn sample_read(p: &str) -> Result<Vec<u8>, VfsError> {
    match p {
        "/src/main.rs" => Ok(b"fn main() {}".to_vec()),
        "/README.md" => Ok(b"# Hello".to_vec()),
        "/data/config.toml" => Ok(b"key = \"value\"".to_vec()),
        _ => Err(VfsError::NotFound(p.to_string())),
    }
}

fn sample_stat(p: &str) -> Result<rust_bash::vfs::Metadata, VfsError> {
    match sample_kind(p) {
        Some(node_type) => Ok(rust_bash::vfs::Metadata {
            node_type,
            size: 0,
            mode: if node_type == NodeType::Directory { 0o755 } else { 0o644 },
            mtime: SystemTime::UNIX_EPOCH,
            file_id: 0,
        }),
        None => Err(VfsError::NotFound(p.to_string())),
    }
}

fn sample_entries(p: &str) -> Option<Vec<String>> {
    match p {
        "/" => Some(vec!["src".to_string(), "README.md".to_string(), "data".to_string()]),
        "/src" => Some(vec!["main.rs".to_string()]),
        "/data" => Some(vec!["config.toml".to_string()]),
        _ => None,
    }
}

fn sample_mode(p: &str) -> Option<u32> {
    sample_stat(p).ok().map(|m| m.mode)
}

fn sample_append(t: &mut OverlayTree, p: &str, data: &[u8]) -> Result<(), VfsError> {
    rust_bash::vfs::overlay_ops::append_file(
        t,
        p,
        data,
        &never_link,
        &no_target,
        &sample_exists,
        &sample_read,
        &sample_stat,
        &sample_entries,
        &sample_mode,
    )
}

#[test]
fn exists_root() {
    let t = OverlayTree::new();
    assert!(rust_bash::vfs::overlay_ops::path_exists(&t, "/", &never_link, &no_target, &sample_exists));
}

#[test]
fn append_file_nonexistent_returns_not_found() {
    let mut t = OverlayTree::new();
    let result = sample_append(&mut t, "/no_such_file.txt", b"data");
    assert!(result.is_err());
}

#[test]
fn append_to_lower_file_copies_it_up() {
    let mut t = OverlayTree::new();
    sample_append(&mut t, "/README.md", b"\nAppended").unwrap();
    let read = rust_bash::vfs::overlay_ops::read_file(&t, "/README.md", &never_link, &no_target, &sample_exists, &sample_read);
    assert_eq!(read.unwrap(), b"# Hello\nAppended".to_vec());
    sample_append(&mut t, "/README.md", b"!").unwrap();
    let read = rust_bash::vfs::overlay_ops::read_file(&t, "/README.md", &never_link, &no_target, &sample_exists, &sample_read);
    assert_eq!(read.unwrap(), b"# Hello\nAppended!".to_vec());
}

#[test]
fn append_to_deleted_file_recreates_it_fresh() {
    let mut t = OverlayTree::new();
    rust_bash::vfs::overlay_ops::remove_file(&mut t, "/data/config.toml", &never_link, &no_target, &sample_exists, &sample_kind, &sample_mode)
        .unwrap();
    sample_append(&mut t, "/data/config.toml", b"new").unwrap();
    let read = rust_bash::vfs::overlay_ops::read_file(&t, "/data/config.toml", &never_link, &no_target, &sample_exists, &sample_read);
    assert_eq!(read.unwrap(), b"new".to_vec());
}

fn sample_chmod(t: &mut OverlayTree, p: &str, mode: u32) -> Result<(), VfsError> {
    rust_bash::vfs::overlay_ops::chmod(
        t,
        p,
        mode,
        &never_link,
        &no_target,
        &sample_exists,
        &sample_stat,
        &sample_read,
        &sample_stat,
        &sample_entries,
        &sample_mode,
    )
}

#[test]
fn chmod_copies_lower_nodes_up() {
    let mut t = OverlayTree::new();
    sample_chmod(&mut t, "/README.md", 0o600).unwrap();
    let m = rust_bash::vfs::overlay_ops::stat(&t, "/README.md", &never_link, &no_target, &sample_exists, &sample_stat).unwrap();
    assert_eq!(m.mode, 0o600);
    let read = rust_bash::vfs::overlay_ops::read_file(&t, "/README.md", &never_link, &no_target, &sample_exists, &sample_read);
    assert_eq!(read.unwrap(), b"# Hello".to_vec());
    sample_chmod(&mut t, "/src", 0o700).unwrap();
    assert!(matches!(t.descend("/src"), Descend::Found(UpperNode::Dir { mode: 0o700, .. })));
    assert!(matches!(sample_chmod(&mut t, "/nope", 0o600), Err(VfsError::NotFound(p)) if p == "/nope"));
}

#[test]
fn utimes_sets_the_time() {
    let mut t = OverlayTree::new();
    let when = SystemTime::UNIX_EPOCH + std::time::Duration::from_secs(1000);
    rust_bash::vfs::overlay_ops::utimes(
        &mut t,
        "/data/config.toml",
        when,
        &never_link,
        &no_target,
        &sample_exists,
        &sample_stat,
        &sample_read,
        &sample_stat,
        &sample_entries,
        &sample_mode,
    )
    .unwrap();
    let m = rust_bash::vfs::overlay_ops::stat(&t, "/data/config.toml", &never_link, &no_target, &sample_exists, &sample_stat).unwrap();
    assert_eq!(m.mtime, when);
}

#[test]
fn symlink_then_readlink() {
    let mut t = OverlayTree::new();
    let mk = |t: &mut OverlayTree, target: &str, link: &str| {
        rust_bash::vfs::overlay_ops::symlink(t, target, link, &sample_exists, &sample_entries, &sample_mode)
    };
    mk(&mut t, "../README.md", "/src/readme").unwrap();
    let rl = rust_bash::vfs::overlay_ops::readlink(&t, "/src/readme", &sample_exists, &no_target).unwrap();
    assert_eq!(rl, "../README.md");
    let read = rust_bash::vfs::overlay_ops::read_file(&t, "/src/readme", &never_link, &no_target, &sample_exists, &sample_read);
    assert_eq!(read.unwrap(), b"# Hello".to_vec());
    assert!(matches!(mk(&mut t, "x", "/README.md"), Err(VfsError::AlreadyExists(p)) if p == "/README.md"));
    assert!(matches!(mk(&mut t, "x", "/src/readme"), Err(VfsError::AlreadyExists(p)) if p == "/src/readme"));
}

#[test]
fn hardlink_copies_content() {
    let mut t = OverlayTree::new();
    let hl = |t: &mut OverlayTree, s: &str, d: &str| {
        rust_bash::vfs::overlay_ops::hardlink(
            t,
            s,
            d,
            &never_link,
            &no_target,
            &sample_exists,
            &sample_read,
            &sample_stat,
            &sample_entries,
            &sample_mode,
        )
    };
    hl(&mut t, "/README.md", "/data/copy.md").unwrap();
    let read = rust_bash::vfs::overlay_ops::read_file(&t, "/data/copy.md", &never_link, &no_target, &sample_exists, &sample_read);
    assert_eq!(read.unwrap(), b"# Hello".to_vec());
    assert!(matches!(hl(&mut t, "/README.md", "/data/config.toml"), Err(VfsError::AlreadyExists(_))));
    assert!(matches!(hl(&mut t, "/missing", "/data/other"), Err(VfsError::NotFound(_))));
}

fn sample_write(t: &mut OverlayTree, p: &str, data: &[u8]) -> Result<(), VfsError> {
    rust_bash::vfs::overlay_ops::write_file(t, p, data, &sample_stat, &sample_entries, &sample_mode)
}

fn sample_read_file(t: &OverlayTree, p: &str) -> Result<Vec<u8>, VfsError> {
    rust_bash::vfs::overlay_ops::read_file(t, p, &never_link, &no_target, &sample_exists, &sample_read)
}

#[test]
fn write_then_read_gives_back_content() {
    let mut t = OverlayTree::new();
    sample_write(&mut t, "/new/deep/file.txt", b"hello").unwrap();
    assert_eq!(sample_read_file(&t, "/new/deep/file.txt").unwrap(), b"hello".to_vec());
    sample_write(&mut t, "/README.md", b"replaced").unwrap();
    assert_eq!(sample_read_file(&t, "/README.md").unwrap(), b"replaced".to_vec());
    sample_write(&mut t, "/README.md", b"").unwrap();
    assert_eq!(sample_read_file(&t, "/README.md").unwrap(), Vec::<u8>::new());
}

#[test]
fn write_keeps_mode_and_refuses_directories() {
    let mut t = OverlayTree::new();
    sample_chmod(&mut t, "/README.md", 0o755).unwrap();
    sample_write(&mut t, "/README.md", b"x").unwrap();
    assert!(matches!(t.descend("/README.md"), Descend::Found(UpperNode::File { mode: 0o755, .. })));
    assert!(matches!(sample_write(&mut t, "/src", b"x"), Err(VfsError::IsADirectory(p)) if p == "/src"));
    assert!(matches!(sample_write(&mut t, "/", b"x"), Err(VfsError::IsADirectory(_))));
    assert!(matches!(sample_write(&mut t, "rel", b"x"), Err(VfsError::InvalidPath(_))));
}

#[test]
fn write_follows_upper_symlinks() {
    let mut t = OverlayTree::new();
    rust_bash::vfs::overlay_ops::symlink(&mut t, "/data/config.toml", "/cfg", &sample_exists, &sample_entries, &sample_mode)
        .unwrap();
    sample_write(&mut t, "/cfg", b"via link").unwrap();
    assert_eq!(sample_read_file(&t, "/data/config.toml").unwrap(), b"via link".to_vec());
    assert!(matches!(t.descend("/cfg"), Descend::Found(UpperNode::Symlink { .. })));
}

fn sample_listing(p: &str) -> Result<Vec<rust_bash::vfs::DirEntry>, VfsError> {
    match sample_entries(p) {
        Some(names) => Ok(names
            .into_iter()
            .map(|name| {
                let kind = sample_kind(&format!("{}/{}", p.trim_end_matches('/'), name)).unwrap();
                rust_bash::vfs::DirEntry { name, node_type: kind }
            })
            .collect()),
        None => Err(VfsError::NotFound(p.to_string())),
    }
}

fn names_of(t: &OverlayTree, p: &str) -> Result<Vec<String>, VfsError> {
    rust_bash::vfs::overlay_ops::readdir(t, p, &never_link, &no_target, &sample_exists, &sample_stat, &sample_listing)
        .map(|v| v.into_iter().map(|e| e.name).collect())
}

#[test]
fn readdir_merges_layers_sorted() {
    let mut t = OverlayTree::new();
    sample_write(&mut t, "/upper_only.txt", b"hi").unwrap();
    rust_bash::vfs::overlay_ops::remove_file(&mut t, "/README.md", &never_link, &no_target, &sample_exists, &sample_kind, &sample_mode)
        .unwrap();
    assert_eq!(names_of(&t, "/").unwrap(), vec!["data", "src", "upper_only.txt"]);
    assert_eq!(names_of(&t, "/src").unwrap(), vec!["main.rs"]);
    assert!(matches!(names_of(&t, "/README.md"), Err(VfsError::NotFound(_))));
    assert!(matches!(names_of(&t, "/upper_only.txt"), Err(VfsError::NotADirectory(p)) if p == "/upper_only.txt"));
    assert!(matches!(names_of(&t, "/nowhere"), Err(VfsError::NotFound(p)) if p == "/nowhere"));
}

#[test]
fn remove_dir_only_when_empty() {
    let mut t = OverlayTree::new();
    let mut rmdir = |t: &mut OverlayTree, p: &str| {
        rust_bash::vfs::overlay_ops::remove_dir(t, p, &never_link, &no_target, &sample_exists, &sample_stat, &sample_listing, &sample_mode)
    };
    assert!(matches!(rmdir(&mut t, "/src"), Err(VfsError::DirectoryNotEmpty(p)) if p == "/src"));
    rust_bash::vfs::overlay_ops::remove_file(&mut t, "/src/main.rs", &never_link, &no_target, &sample_exists, &sample_kind, &sample_mode)
        .unwrap();
    rmdir(&mut t, "/src").unwrap();
    assert!(matches!(names_of(&t, "/src"), Err(VfsError::NotFound(_))));
    assert!(matches!(rmdir(&mut t, "/"), Err(VfsError::InvalidPath(_))));
}

#[test]
fn mkdir_p_creates_missing_components() {
    let mut t = OverlayTree::new();
    let mut mkp = |t: &mut OverlayTree, p: &str| {
        rust_bash::vfs::overlay_ops::mkdir_p(t, p, &sample_exists, &sample_stat, &sample_entries, &sample_mode)
    };
    mkp(&mut t, "/src/a/b").unwrap();
    assert!(matches!(t.descend("/src/a/b"), Descend::Found(UpperNode::Dir { .. })));
    mkp(&mut t, "/data").unwrap();
    assert!(matches!(mkp(&mut t, "/README.md/x"), Err(VfsError::NotADirectory(p)) if p == "/README.md/x"));
    assert_eq!(names_of(&t, "/src").unwrap(), vec!["a", "main.rs"]);
}
