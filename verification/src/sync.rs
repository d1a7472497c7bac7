//! Reading from an image that can be read at once.

pub mod dirent;
pub mod file;
pub mod filesystem;
pub mod walkdir;

pub use dirent::ReadDir;
pub use file::File;
pub use filesystem::EroFS;
pub use walkdir::WalkDir;
