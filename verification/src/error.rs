//! The errors that reading an image can give.

use vstd::prelude::*;

verus! {

/// Why an image, or something in it, could not be read.
#[derive(Debug)]
pub enum Error {
    /// The image holds values that contradict each other.
    CorruptedData(String),
    /// Something lies outside of the image.
    OutOfBounds(String),
    /// The super block is not that of an EROFS image.
    InvalidSuperblock(String),
    /// No file has this path.
    PathNotFound(String),
    /// A regular file was expected.
    NotAFile(String),
    /// A directory was expected.
    NotADirectory(String),
    /// The image uses a feature that this library does not read.
    NotSupported(String),
    /// The bytes end inside an on-disk structure.
    UnexpectedEof,
    /// A directory entry has a file type code that does not exist.
    InvalidFileType(u8),
    /// The address of an image is not a URL.
    InvalidUrl(String),
    /// A file is too large for what is to be done with it.
    FileTooLarge(String),
}

/// An [`Error`] with its text as a sequence of characters.
pub enum ErrorView {
    CorruptedData(Seq<char>),
    OutOfBounds(Seq<char>),
    InvalidSuperblock(Seq<char>),
    PathNotFound(Seq<char>),
    NotAFile(Seq<char>),
    NotADirectory(Seq<char>),
    NotSupported(Seq<char>),
    UnexpectedEof,
    InvalidFileType(u8),
    InvalidUrl(Seq<char>),
    FileTooLarge(Seq<char>),
}

impl View for Error {
    type V = ErrorView;

    open spec fn view(&self) -> ErrorView {
        match *self {
            Error::CorruptedData(s) => ErrorView::CorruptedData(s@),
            Error::OutOfBounds(s) => ErrorView::OutOfBounds(s@),
            Error::InvalidSuperblock(s) => ErrorView::InvalidSuperblock(s@),
            Error::PathNotFound(s) => ErrorView::PathNotFound(s@),
            Error::NotAFile(s) => ErrorView::NotAFile(s@),
            Error::NotADirectory(s) => ErrorView::NotADirectory(s@),
            Error::NotSupported(s) => ErrorView::NotSupported(s@),
            Error::UnexpectedEof => ErrorView::UnexpectedEof,
            Error::InvalidFileType(b) => ErrorView::InvalidFileType(b),
            Error::InvalidUrl(s) => ErrorView::InvalidUrl(s@),
            Error::FileTooLarge(s) => ErrorView::FileTooLarge(s@),
        }
    }
}

/// A result with its value and its error taken by their views.
pub open spec fn outcome<T: View>(r: Result<T, Error>) -> Result<T::V, ErrorView> {
    match r {
        Ok(v) => Ok(v@),
        Err(e) => Err(e@),
    }
}

pub(crate) fn corrupted(text: &str) -> (e: Error)
    ensures
        e@ == ErrorView::CorruptedData(text@),
{
    Error::CorruptedData(text.to_string())
}

pub(crate) fn out_of_bounds(text: &str) -> (e: Error)
    ensures
        e@ == ErrorView::OutOfBounds(text@),
{
    Error::OutOfBounds(text.to_string())
}

pub(crate) fn not_supported(text: &str) -> (e: Error)
    ensures
        e@ == ErrorView::NotSupported(text@),
{
    Error::NotSupported(text.to_string())
}

} // verus!
