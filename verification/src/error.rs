//! Error type of the virtual filesystem.
use vstd::prelude::*;

verus! {

/// Errors returned by filesystem operations. Path-carrying variants hold
/// the VFS path the operation was asked about.
#[derive(Debug)]
pub enum VfsError {
    NotFound(String),
    AlreadyExists(String),
    NotADirectory(String),
    NotAFile(String),
    IsADirectory(String),
    PermissionDenied(String),
    DirectoryNotEmpty(String),
    SymlinkLoop(String),
    InvalidPath(String),
    IoError(String),
}

/// Errors of the shell interpreter's helpers: an execution error carries
/// the message the shell prints.
#[derive(Debug)]
pub enum RustBashError {
    Execution(String),
}

/// The kinds of host I/O failure the filesystem reports distinctly.
#[derive(Debug, Clone, Copy, PartialEq, Eq, Structural)]
pub enum IoErrorKind {
    NotFound,
    AlreadyExists,
    PermissionDenied,
    DirectoryNotEmpty,
    NotADirectory,
    IsADirectory,
    Other,
}

/// Maps a host I/O failure at `path` to a filesystem error: the listed
/// kinds carry the path, any other failure carries its message.
pub fn map_io_error(kind: IoErrorKind, message: String, path: &str) -> (e: VfsError)
    ensures
        match kind {
            IoErrorKind::NotFound => e matches VfsError::NotFound(p) && p@ == path@,
            IoErrorKind::AlreadyExists => e matches VfsError::AlreadyExists(p) && p@ == path@,
            IoErrorKind::PermissionDenied => e matches VfsError::PermissionDenied(p) && p@ == path@,
            IoErrorKind::DirectoryNotEmpty => e matches VfsError::DirectoryNotEmpty(p) && p@ == path@,
            IoErrorKind::NotADirectory => e matches VfsError::NotADirectory(p) && p@ == path@,
            IoErrorKind::IsADirectory => e matches VfsError::IsADirectory(p) && p@ == path@,
            IoErrorKind::Other => e matches VfsError::IoError(m) && m@ == message@,
        },
{
    let p = path.to_owned();
    match kind {
        IoErrorKind::NotFound => VfsError::NotFound(p),
        IoErrorKind::AlreadyExists => VfsError::AlreadyExists(p),
        IoErrorKind::PermissionDenied => VfsError::PermissionDenied(p),
        IoErrorKind::DirectoryNotEmpty => VfsError::DirectoryNotEmpty(p),
        IoErrorKind::NotADirectory => VfsError::NotADirectory(p),
        IoErrorKind::IsADirectory => VfsError::IsADirectory(p),
        IoErrorKind::Other => VfsError::IoError(message),
    }
}

} // verus!
