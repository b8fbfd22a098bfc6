//! Plain data types shared by the filesystem backends.
use std::collections::BTreeMap;
use std::time::SystemTime;

use vstd::prelude::*;

use crate::error::VfsError;

verus! {

/// Timestamps are carried through unchanged; nothing here reads them.
#[verifier::external_type_specification]
#[verifier::external_body]
pub struct ExSystemTime(SystemTime);

/// `std::time::SystemTime::now`. Nothing is claimed of the value: it is
/// the wall clock.
#[verifier::external_body]
pub fn system_time_now() -> SystemTime {
    SystemTime::now()
}

/// The type of a filesystem node (without content).
#[derive(Debug, Clone, Copy, PartialEq, Eq, Structural)]
pub enum NodeType {
    File,
    Directory,
    Symlink,
}

/// An entry returned by `readdir`.
#[derive(Debug)]
pub struct DirEntry {
    pub name: String,
    pub node_type: NodeType,
}

/// Metadata for a filesystem node.
#[derive(Debug, Clone, Copy)]
pub struct Metadata {
    pub node_type: NodeType,
    pub size: u64,
    pub mode: u32,
    pub mtime: SystemTime,
    pub file_id: u64,
}

/// In-memory representation of a filesystem node.
#[derive(Debug)]
pub enum FsNode {
    File { content: Vec<u8>, mode: u32, mtime: SystemTime, file_id: u64 },
    Directory { children: BTreeMap<String, FsNode>, mode: u32, mtime: SystemTime },
    Symlink { target: String, mtime: SystemTime },
}

/// Options that modify glob expansion behavior.
#[derive(Debug, Clone, Copy)]
pub struct GlobOptions {
    /// Include dot-files even when the pattern doesn't start with `.`.
    pub dotglob: bool,
    /// Use case-insensitive matching for filenames.
    pub nocaseglob: bool,
    /// Treat `**` as recursive directory match (globstar); when false,
    /// `**` is treated as `*`.
    pub globstar: bool,
    /// Enable extended glob patterns: `@(...)`, `+(...)`, `*(...)`, `?(...)`, `!(...)`.
    pub extglob: bool,
    /// When true (default), `.` and `..` are excluded from glob results.
    pub globskipdots: bool,
}

impl Default for GlobOptions {
    fn default() -> (o: Self)
        ensures
            !o.dotglob && !o.nocaseglob && !o.globstar && !o.extglob && o.globskipdots,
    {
        GlobOptions {
            dotglob: false,
            nocaseglob: false,
            globstar: false,
            extglob: false,
            globskipdots: true,
        }
    }
}

/// Filesystem operations of a backend. All paths are absolute VFS paths;
/// implementations use interior mutability, so every method takes `&self`.
pub trait VirtualFs {
    fn read_file(&self, path: &str) -> Result<Vec<u8>, VfsError>;

    fn write_file(&self, path: &str, content: &[u8]) -> Result<(), VfsError>;

    fn append_file(&self, path: &str, content: &[u8]) -> Result<(), VfsError>;

    fn remove_file(&self, path: &str) -> Result<(), VfsError>;

    fn mkdir(&self, path: &str) -> Result<(), VfsError>;

    fn mkdir_p(&self, path: &str) -> Result<(), VfsError>;

    fn readdir(&self, path: &str) -> Result<Vec<DirEntry>, VfsError>;

    fn remove_dir(&self, path: &str) -> Result<(), VfsError>;

    fn remove_dir_all(&self, path: &str) -> Result<(), VfsError>;

    /// Whether `path` names an entry (called `exists` in the shell API).
    fn path_exists(&self, path: &str) -> bool;

    fn stat(&self, path: &str) -> Result<Metadata, VfsError>;

    fn lstat(&self, path: &str) -> Result<Metadata, VfsError>;

    fn chmod(&self, path: &str, mode: u32) -> Result<(), VfsError>;

    fn utimes(&self, path: &str, mtime: SystemTime) -> Result<(), VfsError>;

    fn symlink(&self, target: &str, link: &str) -> Result<(), VfsError>;

    fn hardlink(&self, src: &str, dst: &str) -> Result<(), VfsError>;

    fn readlink(&self, path: &str) -> Result<String, VfsError>;

    fn canonicalize(&self, path: &str) -> Result<String, VfsError>;

    fn copy(&self, src: &str, dst: &str) -> Result<(), VfsError>;

    fn rename(&self, src: &str, dst: &str) -> Result<(), VfsError>;

    fn glob(&self, pattern: &str, cwd: &str) -> Result<Vec<String>, VfsError>;

    /// Glob expansion with shell options; backends that cannot honor them
    /// fall back to `glob`.
    fn glob_with_opts(&self, pattern: &str, cwd: &str, _opts: &GlobOptions) -> (r: Result<Vec<String>, VfsError>)
        ensures
            call_ensures(Self::glob, (self, pattern, cwd), r),
    {
        self.glob(pattern, cwd)
    }
}

} // verus!
