//! What the library does, said in the bytes of an image and in plain numbers.
//!
//! The laws here take the contracts of the functions together: each says what comes out
//! for given bytes, without the functions that the contracts are written with.

pub mod attributes;
pub mod directories;
pub mod disk;
pub mod files;
pub mod paths;
pub mod trees;
pub mod writing;
