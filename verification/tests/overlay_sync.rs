use std::collections::BTreeMap;
use std::time::SystemTime;

use rust_bash::error::VfsError;
use rust_bash::vfs::overlay::{diff, OverlayDiff};
use rust_bash::vfs::overlay_ops::{mkdir, read_file, remove_dir_all, remove_file, symlink, sync, write_file};
use rust_bash::vfs::overlay_tree::OverlayTree;
use rust_bash::vfs::{Metadata, NodeType};

/// An in-memory stand-in for the lower directory, which a harness may
/// change between runs (as when it applies a diff to disk).
#[derive(Clone)]
enum Entry {
    File(Vec<u8>),
    Dir,
    Link(String),
}

struct Disk {
    entries: BTreeMap<String, Entry>,
}

impl Disk {
    fn sample() -> Disk {
        let mut entries = BTreeMap::new();
        entries.insert("/".to_string(), Entry::Dir);
        entries.insert("/src".to_string(), Entry::Dir);
        entries.insert("/src/main.rs".to_string(), Entry::File(b"fn main() {}".to_vec()));
        entries.insert("/README.md".to_string(), Entry::File(b"# Hello".to_vec()));
        entries.insert("/data".to_string(), Entry::Dir);
        entries.insert("/data/config.toml".to_string(), Entry::File(b"key = \"value\"".to_vec()));
        Disk { entries }
    }

    fn has(&self, p: &str) -> bool {
        self.entries.contains_key(p)
    }

    fn is_link(&self, p: &str) -> bool {
        matches!(self.entries.get(p), Some(Entry::Link(_)))
    }

    fn lstat(&self, p: &str) -> Result<Metadata, VfsError> {
        let (node_type, size, mode) = match self.entries.get(p) {
            Some(Entry::File(c)) => (NodeType::File, c.len() as u64, 0o644),
            Some(Entry::Dir) => (NodeType::Directory, 0, 0o755),
            Some(Entry::Link(t)) => (NodeType::Symlink, t.len() as u64, 0o777),
            None => return Err(VfsError::NotFound(p.to_string())),
        };
        Ok(Metadata { node_type, size, mode, mtime: SystemTime::UNIX_EPOCH, file_id: 0 })
    }

    fn read(&self, p: &str) -> Result<Vec<u8>, VfsError> {
        match self.entries.get(p) {
            Some(Entry::File(c)) => Ok(c.clone()),
            Some(Entry::Dir) => Err(VfsError::IsADirectory(p.to_string())),
            _ => Err(VfsError::NotFound(p.to_string())),
        }
    }

    fn readlink(&self, p: &str) -> Result<String, VfsError> {
        match self.entries.get(p) {
            Some(Entry::Link(t)) => Ok(t.clone()),
            _ => Err(VfsError::InvalidPath(p.to_string())),
        }
    }

    fn names(&self, p: &str) -> Option<Vec<String>> {
        if !matches!(self.entries.get(p), Some(Entry::Dir)) {
            return None;
        }
        let base = if p == "/" { "/".to_string() } else { format!("{p}/") };
        Some(
            self.entries
                .keys()
                .filter(|k| k.starts_with(&base) && k.len() > base.len() && !k[base.len()..].contains('/'))
                .map(|k| k[base.len()..].to_string())
                .collect(),
        )
    }

    fn mode(&self, p: &str) -> Option<u32> {
        self.lstat(p).ok().map(|m| m.mode)
    }

    fn put(&mut self, p: &str, e: Entry) {
        self.entries.insert(p.to_string(), e);
    }

    fn remove_tree(&mut self, p: &str) {
        let below = format!("{p}/");
        self.entries.retain(|k, _| k != p && !k.starts_with(&below));
    }
}

struct Ov {
    tree: OverlayTree,
    disk: Disk,
}

impl Ov {
    fn new() -> Ov {
        Ov { tree: OverlayTree::new(), disk: Disk::sample() }
    }

    fn write_file(&mut self, p: &str, data: &[u8]) -> Result<(), VfsError> {
        let disk = &self.disk;
        write_file(&mut self.tree, p, data, &|q: &str| disk.lstat(q), &|q: &str| disk.names(q), &|q: &str| disk.mode(q))
    }

    fn read_file(&self, p: &str) -> Result<Vec<u8>, VfsError> {
        let disk = &self.disk;
        read_file(&self.tree, p, &|q: &str| disk.is_link(q), &|q: &str| disk.readlink(q), &|q: &str| disk.has(q), &|q: &str| {
            disk.read(q)
        })
    }

    fn remove_file(&mut self, p: &str) -> Result<(), VfsError> {
        let disk = &self.disk;
        remove_file(
            &mut self.tree,
            p,
            &|q: &str| disk.is_link(q),
            &|q: &str| disk.readlink(q),
            &|q: &str| disk.has(q),
            &|q: &str| disk.lstat(q).ok().map(|m| m.node_type),
            &|q: &str| disk.mode(q),
        )
    }

    fn mkdir(&mut self, p: &str) -> Result<(), VfsError> {
        let disk = &self.disk;
        mkdir(&mut self.tree, p, &|q: &str| disk.has(q), &|q: &str| disk.names(q), &|q: &str| disk.mode(q))
    }

    fn remove_dir_all(&mut self, p: &str) -> Result<(), VfsError> {
        let disk = &self.disk;
        remove_dir_all(
            &mut self.tree,
            p,
            &|q: &str| disk.is_link(q),
            &|q: &str| disk.readlink(q),
            &|q: &str| disk.has(q),
            &|q: &str| disk.lstat(q),
            &|q: &str| disk.mode(q),
        )
    }

    fn symlink(&mut self, target: &str, link: &str) -> Result<(), VfsError> {
        let disk = &self.disk;
        symlink(&mut self.tree, target, link, &|q: &str| disk.has(q), &|q: &str| disk.names(q), &|q: &str| disk.mode(q))
    }

    fn diff(&self) -> OverlayDiff {
        let disk = &self.disk;
        diff(&self.tree, &|q: &str| disk.has(q))
    }

    fn sync(&mut self) {
        let disk = &self.disk;
        sync(&mut self.tree, &|q: &str| disk.lstat(q), &|q: &str| disk.read(q), &|q: &str| disk.readlink(q), &|q: &str| {
            disk.has(q)
        })
    }
}

fn write_paths(d: &OverlayDiff) -> Vec<&str> {
    d.writes.iter().map(|w| w.path.as_str()).collect()
}

#[test]
fn sync_drops_applied_writes_and_keeps_unapplied() {
    let mut ov = Ov::new();
    ov.write_file("/README.md", b"applied").unwrap();
    ov.write_file("/src/main.rs", b"still pending").unwrap();
    ov.disk.put("/README.md", Entry::File(b"applied".to_vec()));
    ov.sync();
    let d = ov.diff();
    assert!(!write_paths(&d).contains(&"/README.md"));
    assert!(write_paths(&d).contains(&"/src/main.rs"));
    assert_eq!(ov.read_file("/README.md").unwrap(), b"applied");
}

#[test]
fn sync_keeps_write_when_disk_differs() {
    let mut ov = Ov::new();
    ov.write_file("/README.md", b"sandbox version").unwrap();
    ov.disk.put("/README.md", Entry::File(b"native version".to_vec()));
    ov.sync();
    let d = ov.diff();
    let w = d.writes.iter().find(|w| w.path == "/README.md").unwrap();
    assert_eq!(w.content, b"sandbox version");
}

#[test]
fn sync_drops_byte_identical_disk_rewrite() {
    let mut ov = Ov::new();
    ov.write_file("/README.md", b"same content").unwrap();
    ov.disk.put("/README.md", Entry::File(b"same content".to_vec()));
    ov.sync();
    assert!(ov.diff().writes.is_empty());
}

#[test]
fn sync_clears_applied_deletion_and_keeps_pending_one() {
    let mut ov = Ov::new();
    ov.remove_file("/README.md").unwrap();
    ov.remove_file("/src/main.rs").unwrap();
    ov.disk.remove_tree("/README.md");
    ov.sync();
    assert_eq!(ov.diff().deletions, vec!["/src/main.rs".to_string()]);
}

#[test]
fn sync_drops_fully_applied_directory_tree() {
    let mut ov = Ov::new();
    ov.mkdir("/out").unwrap();
    ov.write_file("/out/a.txt", b"a").unwrap();
    ov.write_file("/out/b.txt", b"b").unwrap();
    ov.disk.put("/out", Entry::Dir);
    ov.disk.put("/out/a.txt", Entry::File(b"a".to_vec()));
    ov.disk.put("/out/b.txt", Entry::File(b"b".to_vec()));
    ov.sync();
    let d = ov.diff();
    assert!(d.writes.iter().all(|w| w.path != "/out"), "got {:?}", d.writes);
    assert!(d.writes.iter().all(|w| w.path != "/out/a.txt"));
}

#[test]
fn sync_keeps_directory_when_a_child_is_still_pending() {
    let mut ov = Ov::new();
    ov.mkdir("/out").unwrap();
    ov.write_file("/out/a.txt", b"applied").unwrap();
    ov.write_file("/out/b.txt", b"pending").unwrap();
    ov.disk.put("/out", Entry::Dir);
    ov.disk.put("/out/a.txt", Entry::File(b"applied".to_vec()));
    ov.sync();
    let d = ov.diff();
    assert!(!write_paths(&d).contains(&"/out/a.txt"));
    assert!(write_paths(&d).contains(&"/out/b.txt"));
    assert!(write_paths(&d).contains(&"/out"));
}

#[test]
fn sync_clears_whiteout_tree_when_disk_directory_removed() {
    let mut ov = Ov::new();
    ov.remove_dir_all("/data").unwrap();
    ov.disk.remove_tree("/data");
    ov.sync();
    assert!(ov.diff().deletions.is_empty());
}

#[test]
fn sync_keeps_unapplied_symlink() {
    let mut ov = Ov::new();
    ov.symlink("/README.md", "/link.md").unwrap();
    ov.sync();
    assert!(ov.diff().writes.iter().any(|w| w.path == "/link.md"));
}

#[test]
fn sync_drops_applied_symlink_and_keeps_retargeted_one() {
    let mut ov = Ov::new();
    ov.symlink("/README.md", "/same.md").unwrap();
    ov.symlink("/README.md", "/other.md").unwrap();
    ov.disk.put("/same.md", Entry::Link("/README.md".to_string()));
    ov.disk.put("/other.md", Entry::Link("/data".to_string()));
    ov.sync();
    let d = ov.diff();
    assert!(!write_paths(&d).contains(&"/same.md"));
    assert!(write_paths(&d).contains(&"/other.md"));
}
