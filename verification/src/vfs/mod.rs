//! Virtual filesystem types and Unix-style VFS path handling.
pub mod overlay;
pub mod overlay_move;
pub mod overlay_ops;
pub mod overlay_resolve;
pub mod overlay_tree;
pub mod glob;
pub mod paths;
pub mod readwrite;
pub mod types;

pub use paths::{
    vfs_append, vfs_join, vfs_normalize, vfs_normalize_checked, vfs_path_is_absolute,
    vfs_resolve,
};
pub use types::{DirEntry, FsNode, GlobOptions, Metadata, NodeType, VirtualFs};
