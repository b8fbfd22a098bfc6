use std::time::{Duration, SystemTime};

use rust_bash::error::VfsError;
use rust_bash::vfs::overlay::{diff, OverlayDiff, OverlayWrite};
use rust_bash::vfs::overlay_move::{copy, rename};
use rust_bash::vfs::overlay_ops::{
    append_file, canonicalize, chmod, hardlink, lstat, mkdir, mkdir_p, path_exists, read_file, readdir, readlink, remove_dir,
    readdir_merged, remove_dir_all, remove_file, stat, symlink, utimes, write_file,
};
use rust_bash::vfs::glob::glob;
use rust_bash::vfs::overlay_tree::OverlayTree;
use rust_bash::vfs::{DirEntry, Metadata, NodeType};

// The lower layer: a directory holding `src/main.rs`, `README.md` and
// `data/config.toml`, as plain functions of the path.

fn lower_content(p: &str) -> Option<&'static [u8]> {
    match p {
        "/src/main.rs" => Some(b"fn main() {}"),
        "/README.md" => Some(b"# Hello"),
        "/data/config.toml" => Some(b"key = \"value\""),
        _ => None,
    }
}

fn lower_kind(p: &str) -> Option<NodeType> {
    match p {
        "/" | "/src" | "/data" => Some(NodeType::Directory),
        _ => lower_content(p).map(|_| NodeType::File),
    }
}

fn lower_exists(p: &str) -> bool {
    lower_kind(p).is_some()
}

fn lower_read(p: &str) -> Result<Vec<u8>, VfsError> {
    match lower_kind(p) {
        Some(NodeType::Directory) => Err(VfsError::IsADirectory(p.to_string())),
        _ => lower_content(p).map(|c| c.to_vec()).ok_or_else(|| VfsError::NotFound(p.to_string())),
    }
}

fn lower_time() -> SystemTime {
    SystemTime::UNIX_EPOCH + Duration::from_secs(1_000_000)
}

fn lower_stat(p: &str) -> Result<Metadata, VfsError> {
    match lower_kind(p) {
        Some(node_type) => Ok(Metadata {
            node_type,
            size: lower_content(p).map_or(0, |c| c.len() as u64),
            mode: if node_type == NodeType::Directory { 0o755 } else { 0o644 },
            mtime: lower_time(),
            file_id: 0,
        }),
        None => Err(VfsError::NotFound(p.to_string())),
    }
}

fn lower_names(p: &str) -> Option<Vec<String>> {
    match p {
        "/" => Some(vec!["README.md".to_string(), "data".to_string(), "src".to_string()]),
        "/src" => Some(vec!["main.rs".to_string()]),
        "/data" => Some(vec!["config.toml".to_string()]),
        _ => None,
    }
}

fn lower_listing(p: &str) -> Result<Vec<DirEntry>, VfsError> {
    match lower_names(p) {
        Some(names) => Ok(names
            .into_iter()
            .map(|name| {
                let node_type = lower_kind(&format!("{}/{}", p.trim_end_matches('/'), name)).unwrap();
                DirEntry { name, node_type }
            })
            .collect()),
        None => Err(VfsError::NotFound(p.to_string())),
    }
}

fn lower_mode(p: &str) -> Option<u32> {
    lower_stat(p).ok().map(|m| m.mode)
}

fn no_link(_: &str) -> bool {
    false
}

fn no_target(p: &str) -> Result<String, VfsError> {
    Err(VfsError::InvalidPath(p.to_string()))
}

/// The overlay over that lower layer: the upper tree, with every
/// operation asking the lower layer through the functions above.
struct Ov {
    tree: OverlayTree,
}

impl Ov {
    fn new() -> Ov {
        Ov { tree: OverlayTree::new() }
    }

    fn deep_clone(&self) -> Ov {
        Ov { tree: self.tree.deep_clone() }
    }

    fn read_file(&self, p: &str) -> Result<Vec<u8>, VfsError> {
        read_file(&self.tree, p, &no_link, &no_target, &lower_exists, &lower_read)
    }

    fn write_file(&mut self, p: &str, data: &[u8]) -> Result<(), VfsError> {
        write_file(&mut self.tree, p, data, &lower_stat, &lower_names, &lower_mode)
    }

    fn append_file(&mut self, p: &str, data: &[u8]) -> Result<(), VfsError> {
        append_file(&mut self.tree, p, data, &no_link, &no_target, &lower_exists, &lower_read, &lower_stat, &lower_names, &lower_mode)
    }

    fn remove_file(&mut self, p: &str) -> Result<(), VfsError> {
        remove_file(&mut self.tree, p, &no_link, &no_target, &lower_exists, &lower_kind, &lower_mode)
    }

    fn mkdir(&mut self, p: &str) -> Result<(), VfsError> {
        mkdir(&mut self.tree, p, &lower_exists, &lower_names, &lower_mode)
    }

    fn mkdir_p(&mut self, p: &str) -> Result<(), VfsError> {
        mkdir_p(&mut self.tree, p, &lower_exists, &lower_stat, &lower_names, &lower_mode)
    }

    fn glob(&self, pattern: &str, cwd: &str) -> Vec<String> {
        let list = |d: &str| -> Option<Vec<(String, bool)>> {
            let entries = readdir_merged(&self.tree, d, &no_link, &no_target, &lower_exists, &lower_listing);
            Some(
                entries
                    .into_iter()
                    .map(|e| {
                        let enter = e.node_type == NodeType::Directory || e.node_type == NodeType::Symlink;
                        (e.name, enter)
                    })
                    .collect(),
            )
        };
        glob(pattern, cwd, &list, &star_match)
    }

    fn readdir(&self, p: &str) -> Result<Vec<DirEntry>, VfsError> {
        readdir(&self.tree, p, &no_link, &no_target, &lower_exists, &lower_stat, &lower_listing)
    }

    fn remove_dir(&mut self, p: &str) -> Result<(), VfsError> {
        remove_dir(&mut self.tree, p, &no_link, &no_target, &lower_exists, &lower_stat, &lower_listing, &lower_mode)
    }

    fn remove_dir_all(&mut self, p: &str) -> Result<(), VfsError> {
        remove_dir_all(&mut self.tree, p, &no_link, &no_target, &lower_exists, &lower_stat, &lower_mode)
    }

    fn path_exists(&self, p: &str) -> bool {
        path_exists(&self.tree, p, &no_link, &no_target, &lower_exists)
    }

    fn stat(&self, p: &str) -> Result<Metadata, VfsError> {
        stat(&self.tree, p, &no_link, &no_target, &lower_exists, &lower_stat)
    }

    fn lstat(&self, p: &str) -> Result<Metadata, VfsError> {
        lstat(&self.tree, p, &lower_exists, &lower_stat)
    }

    fn chmod(&mut self, p: &str, mode: u32) -> Result<(), VfsError> {
        chmod(
            &mut self.tree,
            p,
            mode,
            &no_link,
            &no_target,
            &lower_exists,
            &lower_stat,
            &lower_read,
            &lower_stat,
            &lower_names,
            &lower_mode,
        )
    }

    fn utimes(&mut self, p: &str, t: SystemTime) -> Result<(), VfsError> {
        utimes(&mut self.tree, p, t, &no_link, &no_target, &lower_exists, &lower_stat, &lower_read, &lower_stat, &lower_names, &lower_mode)
    }

    fn symlink(&mut self, target: &str, link: &str) -> Result<(), VfsError> {
        symlink(&mut self.tree, target, link, &lower_exists, &lower_names, &lower_mode)
    }

    fn hardlink(&mut self, src: &str, dst: &str) -> Result<(), VfsError> {
        hardlink(&mut self.tree, src, dst, &no_link, &no_target, &lower_exists, &lower_read, &lower_stat, &lower_names, &lower_mode)
    }

    fn readlink(&self, p: &str) -> Result<String, VfsError> {
        readlink(&self.tree, p, &lower_exists, &no_target)
    }

    fn canonicalize(&self, p: &str) -> Result<String, VfsError> {
        canonicalize(&self.tree, p, &no_link, &no_target, &lower_exists)
    }

    fn copy(&mut self, src: &str, dst: &str) -> Result<(), VfsError> {
        copy(
            &mut self.tree,
            src,
            dst,
            &no_link,
            &no_target,
            &lower_exists,
            &lower_read,
            &lower_stat,
            &lower_stat,
            &lower_names,
            &lower_mode,
        )
    }

    fn rename(&mut self, src: &str, dst: &str) -> Result<(), VfsError> {
        rename(
            &mut self.tree,
            src,
            dst,
            &no_link,
            &no_target,
            &lower_exists,
            &lower_read,
            &lower_stat,
            &lower_listing,
            &lower_names,
            &lower_mode,
        )
    }

    fn diff(&self) -> OverlayDiff {
        diff(&self.tree, &lower_exists)
    }

    fn reset(&mut self) {
        self.tree.clear();
    }
}

fn names(entries: &[DirEntry]) -> Vec<&str> {
    entries.iter().map(|e| e.name.as_str()).collect()
}

#[test]
fn read_through_from_lower() {
    let ov = Ov::new();
    assert_eq!(ov.read_file("/src/main.rs").unwrap(), b"fn main() {}");
    assert_eq!(ov.read_file("/README.md").unwrap(), b"# Hello");
}

#[test]
fn write_isolation() {
    let mut ov = Ov::new();
    ov.write_file("/new_file.txt", b"overlay data").unwrap();
    assert_eq!(ov.read_file("/new_file.txt").unwrap(), b"overlay data");
    assert!(!lower_exists("/new_file.txt"));
}

#[test]
fn overwrite_lower_file_does_not_touch_disk() {
    let mut ov = Ov::new();
    ov.write_file("/README.md", b"overwritten").unwrap();
    assert_eq!(ov.read_file("/README.md").unwrap(), b"overwritten");
    assert_eq!(lower_read("/README.md").unwrap(), b"# Hello");
}

#[test]
fn whiteout_hides_lower_file() {
    let mut ov = Ov::new();
    assert!(ov.path_exists("/README.md"));
    ov.remove_file("/README.md").unwrap();
    assert!(!ov.path_exists("/README.md"));
    assert!(lower_exists("/README.md"));
}

#[test]
fn copy_up_on_append() {
    let mut ov = Ov::new();
    ov.append_file("/README.md", b"\nAppended").unwrap();
    assert_eq!(ov.read_file("/README.md").unwrap(), b"# Hello\nAppended");
    assert_eq!(lower_read("/README.md").unwrap(), b"# Hello");
}

#[test]
fn merged_readdir() {
    let mut ov = Ov::new();
    ov.write_file("/data/extra.txt", b"extra").unwrap();
    let mut entries = ov.readdir("/data").unwrap();
    entries.sort_by(|a, b| a.name.cmp(&b.name));
    assert_eq!(names(&entries), vec!["config.toml", "extra.txt"]);
}

#[test]
fn readdir_excludes_whiteouts() {
    let mut ov = Ov::new();
    ov.remove_file("/data/config.toml").unwrap();
    let entries = ov.readdir("/data").unwrap();
    assert!(!names(&entries).contains(&"config.toml"));
}

#[test]
fn rename_lower_only_file() {
    let mut ov = Ov::new();
    ov.rename("/README.md", "/RENAMED.md").unwrap();
    assert_eq!(ov.read_file("/RENAMED.md").unwrap(), b"# Hello");
    assert!(!ov.path_exists("/README.md"));
    assert!(lower_exists("/README.md"));
}

#[test]
fn deep_clone_isolation() {
    let mut ov = Ov::new();
    ov.write_file("/cloneable.txt", b"original").unwrap();
    let mut clone = ov.deep_clone();
    clone.write_file("/cloneable.txt", b"mutated").unwrap();
    clone.write_file("/clone_only.txt", b"only in clone").unwrap();
    assert_eq!(ov.read_file("/cloneable.txt").unwrap(), b"original");
    assert!(!ov.path_exists("/clone_only.txt"));
    assert_eq!(clone.read_file("/cloneable.txt").unwrap(), b"mutated");
    assert_eq!(clone.read_file("/README.md").unwrap(), b"# Hello");
}

#[test]
fn ancestor_whiteout_hides_descendants() {
    let mut ov = Ov::new();
    ov.remove_dir_all("/src").unwrap();
    assert!(!ov.path_exists("/src/main.rs"));
    assert!(!ov.path_exists("/src"));
    assert!(ov.read_file("/src/main.rs").is_err());
}

#[test]
fn mkdir_p_through_lower_dirs() {
    let mut ov = Ov::new();
    ov.mkdir_p("/src/build/release").unwrap();
    assert!(ov.path_exists("/src/build/release"));
    let entries = ov.readdir("/src").unwrap();
    assert!(names(&entries).contains(&"main.rs"));
    assert!(names(&entries).contains(&"build"));
}

#[test]
fn stat_follows_through_layers() {
    let ov = Ov::new();
    let meta = ov.stat("/README.md").unwrap();
    assert_eq!(meta.node_type, NodeType::File);
    assert_eq!(meta.size, 7);
}

#[test]
fn lstat_on_lower_file() {
    let ov = Ov::new();
    assert_eq!(ov.lstat("/README.md").unwrap().node_type, NodeType::File);
}

#[test]
fn chmod_lower_file_copies_up() {
    let mut ov = Ov::new();
    ov.chmod("/README.md", 0o755).unwrap();
    assert_eq!(ov.stat("/README.md").unwrap().mode, 0o755);
    assert_eq!(ov.read_file("/README.md").unwrap(), b"# Hello");
    assert_ne!(lower_stat("/README.md").unwrap().mode & 0o777, 0o755, "lower should not be modified");
}

#[test]
fn utimes_lower_file_copies_up() {
    let mut ov = Ov::new();
    let new_time = SystemTime::UNIX_EPOCH;
    ov.utimes("/README.md", new_time).unwrap();
    assert_eq!(ov.stat("/README.md").unwrap().mtime, new_time);
}

#[test]
fn readdir_root_merges_both_layers() {
    let mut ov = Ov::new();
    ov.write_file("/upper_only.txt", b"hi").unwrap();
    let entries = ov.readdir("/").unwrap();
    assert!(names(&entries).contains(&"README.md"));
    assert!(names(&entries).contains(&"src"));
    assert!(names(&entries).contains(&"upper_only.txt"));
}

#[test]
fn copy_from_lower_to_upper() {
    let mut ov = Ov::new();
    ov.copy("/README.md", "/README_copy.md").unwrap();
    assert_eq!(ov.read_file("/README_copy.md").unwrap(), b"# Hello");
    assert!(!lower_exists("/README_copy.md"));
}

#[test]
fn remove_file_then_recreate() {
    let mut ov = Ov::new();
    ov.remove_file("/README.md").unwrap();
    assert!(!ov.path_exists("/README.md"));
    ov.write_file("/README.md", b"new content").unwrap();
    assert_eq!(ov.read_file("/README.md").unwrap(), b"new content");
}

#[test]
fn hardlink_from_lower() {
    let mut ov = Ov::new();
    ov.hardlink("/README.md", "/link.md").unwrap();
    assert_eq!(ov.read_file("/link.md").unwrap(), b"# Hello");
    ov.write_file("/link.md", b"changed").unwrap();
    assert_eq!(ov.read_file("/README.md").unwrap(), b"# Hello");
}

#[test]
fn symlink_in_upper() {
    let mut ov = Ov::new();
    ov.symlink("/README.md", "/link_to_readme").unwrap();
    assert_eq!(ov.readlink("/link_to_readme").unwrap(), "/README.md");
    assert_eq!(ov.read_file("/link_to_readme").unwrap(), b"# Hello");
}

#[test]
fn deep_clone_whiteout_isolation() {
    let ov = Ov::new();
    let mut clone = ov.deep_clone();
    clone.remove_file("/README.md").unwrap();
    assert!(ov.path_exists("/README.md"));
    assert!(!clone.path_exists("/README.md"));
}

#[test]
fn chmod_lower_preserves_original_permissions() {
    let mut ov = Ov::new();
    ov.chmod("/README.md", 0o700).unwrap();
    assert_eq!(ov.stat("/README.md").unwrap().mode, 0o700);
    assert_eq!(lower_stat("/README.md").unwrap().mode & 0o777, 0o644);
}

#[test]
fn remove_dir_empty_upper_dir() {
    let mut ov = Ov::new();
    ov.mkdir("/empty_dir").unwrap();
    assert!(ov.path_exists("/empty_dir"));
    ov.remove_dir("/empty_dir").unwrap();
    assert!(!ov.path_exists("/empty_dir"));
}

#[test]
fn mkdir_after_rmdir() {
    let mut ov = Ov::new();
    ov.remove_file("/data/config.toml").unwrap();
    ov.remove_dir("/data").unwrap();
    assert!(!ov.path_exists("/data"));
    ov.mkdir("/data").unwrap();
    assert!(ov.path_exists("/data"));
}

#[test]
fn canonicalize_lower_path() {
    let ov = Ov::new();
    assert_eq!(ov.canonicalize("/src/main.rs").unwrap(), "/src/main.rs");
}

#[test]
fn canonicalize_upper_path() {
    let mut ov = Ov::new();
    ov.write_file("/upper.txt", b"hi").unwrap();
    assert_eq!(ov.canonicalize("/upper.txt").unwrap(), "/upper.txt");
}

#[test]
fn canonicalize_nonexistent_fails() {
    let ov = Ov::new();
    assert!(ov.canonicalize("/no/such/path").is_err());
}

#[test]
fn stat_directory_from_lower() {
    let ov = Ov::new();
    assert_eq!(ov.stat("/src").unwrap().node_type, NodeType::Directory);
}

#[test]
fn write_to_nested_new_dir() {
    let mut ov = Ov::new();
    ov.mkdir_p("/a/b/c").unwrap();
    ov.write_file("/a/b/c/file.txt", b"deep").unwrap();
    assert_eq!(ov.read_file("/a/b/c/file.txt").unwrap(), b"deep");
}

#[test]
fn mkdir_p_after_remove_dir_all_does_not_resurrect_siblings() {
    let mut ov = Ov::new();
    assert!(ov.path_exists("/data/config.toml"));
    ov.remove_dir_all("/data").unwrap();
    assert!(!ov.path_exists("/data"));
    assert!(!ov.path_exists("/data/config.toml"));
    ov.mkdir_p("/data/sub").unwrap();
    assert!(ov.path_exists("/data/sub"));
    assert!(!ov.path_exists("/data/config.toml"));
    let entries = ov.readdir("/data").unwrap();
    assert_eq!(names(&entries), vec!["sub"]);
}

#[test]
fn remove_dir_nonempty_merged_directory() {
    let mut ov = Ov::new();
    assert!(ov.remove_dir("/data").is_err());
}

#[test]
fn rename_directory_with_mixed_layer_children() {
    let mut ov = Ov::new();
    ov.write_file("/src/upper_file.rs", b"upper").unwrap();
    ov.rename("/src", "/source").unwrap();
    assert_eq!(ov.read_file("/source/main.rs").unwrap(), b"fn main() {}");
    assert_eq!(ov.read_file("/source/upper_file.rs").unwrap(), b"upper");
    assert!(!ov.path_exists("/src"));
    assert!(!ov.path_exists("/src/main.rs"));
}

#[test]
fn write_file_under_removed_dir_all_is_visible() {
    let mut ov = Ov::new();
    assert!(ov.path_exists("/data/config.toml"));
    ov.remove_dir_all("/data").unwrap();
    assert!(!ov.path_exists("/data"));
    ov.write_file("/data/new.txt", b"hello").unwrap();
    assert!(ov.path_exists("/data"));
    assert!(ov.path_exists("/data/new.txt"));
    assert_eq!(ov.read_file("/data/new.txt").unwrap(), b"hello");
    assert!(!ov.path_exists("/data/config.toml"));
}

#[test]
fn mkdir_under_whiteout_ancestor() {
    let mut ov = Ov::new();
    ov.remove_dir_all("/data").unwrap();
    assert!(!ov.path_exists("/data"));
    ov.mkdir_p("/data").unwrap();
    ov.mkdir("/data/sub").unwrap();
    assert!(ov.path_exists("/data/sub"));
    assert!(!ov.path_exists("/data/config.toml"));
}

#[test]
fn append_through_symlink_to_lower_file() {
    let mut ov = Ov::new();
    ov.symlink("/README.md", "/link_to_readme").unwrap();
    ov.append_file("/link_to_readme", b" world").unwrap();
    assert_eq!(ov.read_file("/README.md").unwrap(), b"# Hello world");
    assert_eq!(ov.read_file("/link_to_readme").unwrap(), b"# Hello world");
}

#[test]
fn chmod_through_symlink() {
    let mut ov = Ov::new();
    ov.symlink("/README.md", "/link_readme").unwrap();
    ov.chmod("/link_readme", 0o700).unwrap();
    assert_eq!(ov.stat("/README.md").unwrap().mode, 0o700);
}

#[test]
fn utimes_through_symlink() {
    let mut ov = Ov::new();
    ov.symlink("/README.md", "/link_readme").unwrap();
    let new_time = SystemTime::UNIX_EPOCH;
    ov.utimes("/link_readme", new_time).unwrap();
    assert_eq!(ov.stat("/README.md").unwrap().mtime, new_time);
}

#[test]
fn diff_empty_when_nothing_written() {
    let ov = Ov::new();
    let _ = ov.read_file("/README.md").unwrap();
    let d = ov.diff();
    assert!(d.writes.is_empty());
    assert!(d.deletions.is_empty());
}

#[test]
fn diff_reports_modified_and_created_files() {
    let mut ov = Ov::new();
    ov.write_file("/README.md", b"changed").unwrap();
    ov.write_file("/src/new.rs", b"new").unwrap();
    ov.mkdir("/build").unwrap();
    let d = ov.diff();
    assert_eq!(d.deletions, Vec::<String>::new());
    let paths: Vec<&str> = d.writes.iter().map(|w| w.path.as_str()).collect();
    assert!(paths.contains(&"/README.md"));
    assert!(paths.contains(&"/src/new.rs"));
    assert!(paths.contains(&"/build"));
    let readme = d.writes.iter().find(|w| w.path == "/README.md").unwrap();
    assert_eq!(readme.content, b"changed");
    assert_eq!(readme.node_type, NodeType::File);
    let build = d.writes.iter().find(|w| w.path == "/build").unwrap();
    assert_eq!(build.node_type, NodeType::Directory);
    assert!(build.content.is_empty());
}

#[test]
fn diff_reports_deletion_of_lower_file() {
    let mut ov = Ov::new();
    ov.remove_file("/README.md").unwrap();
    let d = ov.diff();
    assert!(d.writes.is_empty());
    assert_eq!(d.deletions, vec!["/README.md".to_string()]);
}

#[test]
fn diff_remove_dir_all_yields_top_most_deletion_only() {
    let mut ov = Ov::new();
    ov.remove_dir_all("/data").unwrap();
    assert_eq!(ov.diff().deletions, vec!["/data".to_string()]);
}

#[test]
fn diff_recreated_path_is_write_not_deletion() {
    let mut ov = Ov::new();
    ov.remove_file("/README.md").unwrap();
    ov.write_file("/README.md", b"reborn").unwrap();
    let d = ov.diff();
    assert!(d.deletions.is_empty());
    assert_eq!(
        d.writes,
        vec![OverlayWrite { path: "/README.md".to_string(), node_type: NodeType::File, content: b"reborn".to_vec(), mode: 0o644 }]
    );
}

#[test]
fn diff_upper_only_delete_is_not_a_deletion() {
    let mut ov = Ov::new();
    ov.write_file("/scratch.txt", b"temp").unwrap();
    ov.remove_file("/scratch.txt").unwrap();
    let d = ov.diff();
    assert!(d.writes.is_empty());
    assert!(d.deletions.is_empty());
}

#[test]
fn diff_reports_symlink_target() {
    let mut ov = Ov::new();
    ov.symlink("/README.md", "/link.md").unwrap();
    let d = ov.diff();
    let link = d.writes.iter().find(|w| w.path == "/link.md").unwrap();
    assert_eq!(link.node_type, NodeType::Symlink);
    assert_eq!(link.content, b"/README.md");
}

#[test]
fn stat_resolves_dotdot_segments() {
    let ov = Ov::new();
    assert_eq!(ov.stat("/data/../README.md").unwrap().node_type, NodeType::File);
    assert_eq!(ov.read_file("/./data/../README.md").unwrap(), b"# Hello");
}

#[test]
fn reset_clears_pending_writes_and_deletions() {
    let mut ov = Ov::new();
    ov.write_file("/README.md", b"changed").unwrap();
    ov.write_file("/scratch.txt", b"new").unwrap();
    ov.remove_file("/data/config.toml").unwrap();
    ov.reset();
    let d = ov.diff();
    assert!(d.writes.is_empty());
    assert!(d.deletions.is_empty());
    assert_eq!(ov.read_file("/README.md").unwrap(), b"# Hello");
    assert!(ov.path_exists("/data/config.toml"));
    ov.write_file("/again.txt", b"x").unwrap();
    assert!(ov.diff().writes.iter().any(|w| w.path == "/again.txt"));
}

// Moving and copying beyond the cases above.

#[test]
fn rename_onto_itself_changes_nothing() {
    let mut ov = Ov::new();
    ov.rename("/README.md", "/./README.md").unwrap();
    assert_eq!(ov.read_file("/README.md").unwrap(), b"# Hello");
    assert!(ov.diff().writes.is_empty());
}

#[test]
fn rename_refusals() {
    let mut ov = Ov::new();
    assert!(matches!(ov.rename("rel", "/x"), Err(VfsError::InvalidPath(_))));
    assert!(matches!(ov.rename("/README.md", "rel"), Err(VfsError::InvalidPath(_))));
    assert!(matches!(ov.rename("/missing", "/x"), Err(VfsError::NotFound(p)) if p == "/missing"));
    ov.remove_file("/README.md").unwrap();
    assert!(matches!(ov.rename("/README.md", "/x"), Err(VfsError::NotFound(p)) if p == "/README.md"));
    assert!(matches!(ov.rename("/data/config.toml", "/src"), Err(VfsError::IsADirectory(p)) if p == "/src"));
    assert!(ov.path_exists("/data/config.toml"));
}

#[test]
fn rename_upper_file_keeps_mode_and_time() {
    let mut ov = Ov::new();
    ov.write_file("/a.txt", b"bytes").unwrap();
    ov.chmod("/a.txt", 0o600).unwrap();
    let t = SystemTime::UNIX_EPOCH + Duration::from_secs(42);
    ov.utimes("/a.txt", t).unwrap();
    ov.rename("/a.txt", "/dir/b.txt").unwrap();
    let meta = ov.stat("/dir/b.txt").unwrap();
    assert_eq!(meta.mode, 0o600);
    assert_eq!(meta.mtime, t);
    assert_eq!(ov.read_file("/dir/b.txt").unwrap(), b"bytes");
    assert!(!ov.path_exists("/a.txt"));
    assert!(!ov.diff().writes.iter().any(|w| w.path == "/a.txt"));
}

#[test]
fn rename_moves_a_symlink_as_a_link() {
    let mut ov = Ov::new();
    ov.symlink("/README.md", "/link").unwrap();
    ov.rename("/link", "/moved").unwrap();
    assert_eq!(ov.readlink("/moved").unwrap(), "/README.md");
    assert_eq!(ov.read_file("/moved").unwrap(), b"# Hello");
    assert!(!ov.path_exists("/link"));
    assert_eq!(ov.read_file("/README.md").unwrap(), b"# Hello");
}

#[test]
fn rename_replaces_an_existing_file() {
    let mut ov = Ov::new();
    ov.write_file("/new.md", b"new").unwrap();
    ov.rename("/new.md", "/README.md").unwrap();
    assert_eq!(ov.read_file("/README.md").unwrap(), b"new");
    assert!(!ov.path_exists("/new.md"));
}

#[test]
fn copy_keeps_source_and_mode() {
    let mut ov = Ov::new();
    ov.write_file("/a.sh", b"echo hi").unwrap();
    ov.chmod("/a.sh", 0o755).unwrap();
    ov.copy("/a.sh", "/b.sh").unwrap();
    assert_eq!(ov.read_file("/b.sh").unwrap(), b"echo hi");
    assert_eq!(ov.stat("/b.sh").unwrap().mode, 0o755);
    assert_eq!(ov.read_file("/a.sh").unwrap(), b"echo hi");
}

#[test]
fn copy_through_a_symlink_lands_bytes_and_mode_at_its_target() {
    let mut ov = Ov::new();
    ov.write_file("/tool.sh", b"run").unwrap();
    ov.chmod("/tool.sh", 0o700).unwrap();
    ov.write_file("/real.sh", b"old").unwrap();
    ov.chmod("/real.sh", 0o644).unwrap();
    ov.symlink("/real.sh", "/alias.sh").unwrap();
    ov.copy("/tool.sh", "/alias.sh").unwrap();
    assert_eq!(ov.read_file("/real.sh").unwrap(), b"run");
    assert_eq!(ov.stat("/real.sh").unwrap().mode, 0o700);
    assert_eq!(ov.readlink("/alias.sh").unwrap(), "/real.sh");
}

#[test]
fn copy_refusals() {
    let mut ov = Ov::new();
    assert!(matches!(ov.copy("/src", "/x"), Err(VfsError::IsADirectory(p)) if p == "/src"));
    assert!(matches!(ov.copy("/missing", "/x"), Err(VfsError::NotFound(p)) if p == "/missing"));
    assert!(matches!(ov.copy("rel", "/x"), Err(VfsError::InvalidPath(_))));
    assert!(matches!(ov.copy("/README.md", "rel"), Err(VfsError::InvalidPath(_))));
    assert!(!ov.path_exists("/x"));
}

#[test]
fn symlink_lands_where_upper_links_lead() {
    let mut ov = Ov::new();
    ov.symlink("/data", "/d").unwrap();
    ov.symlink("/README.md", "/d/readme_link").unwrap();
    assert_eq!(ov.readlink("/data/readme_link").unwrap(), "/README.md");
    assert_eq!(ov.read_file("/d/readme_link").unwrap(), b"# Hello");
    assert!(matches!(ov.symlink("/x", "/README.md"), Err(VfsError::AlreadyExists(p)) if p == "/README.md"));
    assert!(matches!(ov.symlink("/x", "/d/readme_link"), Err(VfsError::AlreadyExists(_))));
}

#[test]
fn hardlink_lands_where_upper_links_lead() {
    let mut ov = Ov::new();
    ov.symlink("/data", "/d").unwrap();
    ov.hardlink("/README.md", "/d/copy.md").unwrap();
    assert_eq!(ov.read_file("/data/copy.md").unwrap(), b"# Hello");
    assert_eq!(ov.stat("/data/copy.md").unwrap().mtime, lower_time());
    assert!(matches!(ov.hardlink("/README.md", "/data/config.toml"), Err(VfsError::AlreadyExists(p)) if p == "/data/config.toml"));
    assert!(matches!(ov.hardlink("/missing", "/data/other"), Err(VfsError::NotFound(_))));
}

#[test]
fn append_to_upper_file_extends_it() {
    let mut ov = Ov::new();
    ov.write_file("/notes", b"a").unwrap();
    ov.append_file("/notes", b"bc").unwrap();
    assert_eq!(ov.read_file("/notes").unwrap(), b"abc");
}

// A stand-in for the shell's pattern matcher in these tests: `*` matches
// any run of characters, everything else itself.
fn star_match(pattern: &str, name: &str) -> bool {
    let p: Vec<char> = pattern.chars().collect();
    let n: Vec<char> = name.chars().collect();
    star_match_chars(&p, &n)
}

fn star_match_chars(p: &[char], n: &[char]) -> bool {
    match p.first() {
        None => n.is_empty(),
        Some('*') => (0..=n.len()).any(|k| star_match_chars(&p[1..], &n[k..])),
        Some(c) => n.first() == Some(c) && star_match_chars(&p[1..], &n[1..]),
    }
}

#[test]
fn glob_absolute_pattern() {
    let ov = Ov::new();
    let mut matches = ov.glob("/data/*", "/");
    matches.sort();
    assert_eq!(matches, vec!["/data/config.toml".to_string()]);
}

#[test]
fn glob_globstar_and_hidden_names() {
    let mut ov = Ov::new();
    ov.write_file("/src/.hidden.rs", b"h").unwrap();
    ov.write_file("/src/deep/lib.rs", b"l").unwrap();
    assert_eq!(ov.glob("/src/*.rs", "/"), vec!["/src/main.rs".to_string()]);
    assert_eq!(ov.glob("/src/.*", "/"), vec!["/src/.hidden.rs".to_string()]);
    assert_eq!(ov.glob("/**/lib.rs", "/"), vec!["/src/deep/lib.rs".to_string()]);
    assert_eq!(ov.glob("/nothing/*", "/"), Vec::<String>::new());
    assert_eq!(ov.glob("*.rs", "/src"), vec!["main.rs".to_string()]);
    assert_eq!(ov.glob("*/*.rs", "/src/"), vec!["deep/lib.rs".to_string()]);
    assert_eq!(ov.glob("**/*.rs", "/src"), vec!["deep/lib.rs".to_string(), "main.rs".to_string()]);
}
