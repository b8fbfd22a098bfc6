//! A sandboxed shell's virtual filesystem core: VFS path handling, the
//! overlay upper-layer tree, and the arithmetic scanner helpers.
pub mod error;
pub mod interpreter;
pub mod python;
pub mod text;
pub mod vfs;
