//! A reader for EROFS (Enhanced Read-Only File System) images.
//!
//! Every function here states in its contract what it returns for the bytes of an
//! image, and it never panics on a corrupted one. All are verified but a few thin
//! wrappers around functions of other crates; the comment above each of those says
//! what is claimed of the function.

pub mod backend;
pub mod block;
pub mod cursor;
pub mod decomp;
pub mod dirent;
pub mod error;
pub mod filesystem;
pub mod inspect;
pub mod laws;
pub mod le;
pub mod lookup;
pub mod names;
pub mod path;
pub mod reader;
pub mod scan;
pub mod sync;
pub mod text;
pub mod types;
pub mod walk;
pub mod xattr;

pub use error::Error;
pub use sync::EroFS;
