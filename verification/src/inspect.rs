//! What looking into an image from a command line decides: where the image is,
//! and how what was found is written.

use crate::error::Error;
use crate::types::Inode;
use url::{Position, Url};
use vstd::prelude::*;
use vstd::string::{StrSliceExecFns, StringExecFns};

#[allow(unused_imports)]
use crate::error::{outcome, ErrorView};

verus! {

/// What is to be done, and with which image.
#[derive(Debug)]
pub struct InspectArgs {
    /// The path or the address of the image.
    pub image: String,
    /// What is to be done.
    pub operation: InspectSubcommands,
}

/// What can be done with an image.
#[derive(Debug)]
pub enum InspectSubcommands {
    /// Lists a directory.
    Ls { path: String },
    /// Writes out a file.
    Cat { path: String },
}

/// Where an image is.
#[derive(Debug)]
pub enum ImageSource {
    /// In a local file.
    Local { path: String },
    /// On a server.
    Remote { endpoint: String, path: String },
}

/// An [`ImageSource`] with its texts as sequences.
pub enum SourceView {
    Local { path: Seq<char> },
    Remote { endpoint: Seq<char>, path: Seq<char> },
}

impl View for ImageSource {
    type V = SourceView;

    open spec fn view(&self) -> SourceView {
        match *self {
            ImageSource::Local { path } => SourceView::Local { path: path@ },
            ImageSource::Remote { endpoint, path } => SourceView::Remote {
                endpoint: endpoint@,
                path: path@,
            },
        }
    }
}

/// What `Url::parse` makes of a text: the part of the URL before its path and its
/// path, or why the text is no URL.
pub uninterp spec fn url_parts(text: Seq<char>) -> Result<(Seq<char>, Seq<char>), Seq<char>>;

/// The parts of a URL, or why there are none, with their texts as sequences.
pub open spec fn parts_view(parts: Result<(String, String), String>) -> Result<
    (Seq<char>, Seq<char>),
    Seq<char>,
> {
    match parts {
        Ok((endpoint, path)) => Ok((endpoint@, path@)),
        Err(text) => Err(text@),
    }
}

/// `url::Url::parse`: the part of the URL up to `Position::BeforePath` and its
/// `path()`, or the text of the error.
#[verifier::external_body]
fn split_url(text: &str) -> (parts: Result<(String, String), String>)
    ensures
        parts_view(parts) == url_parts(text@),
{
    match Url::parse(text) {
        Ok(u) => Ok((u[..Position::BeforePath].to_string(), u.path().to_string())),
        Err(e) => Err(e.to_string()),
    }
}

/// Whether a text is the address of an image: it starts with `http`.
pub open spec fn is_address(text: Seq<char>) -> bool {
    &&& text.len() >= 4
    &&& text[0] == 'h'
    &&& text[1] == 't'
    &&& text[2] == 't'
    &&& text[3] == 'p'
}

fn has_address(text: &str) -> (b: bool)
    ensures
        b == is_address(text@),
{
    text.unicode_len() >= 4 && text.get_char(0) == 'h' && text.get_char(1) == 't' && text.get_char(2)
        == 't' && text.get_char(3) == 'p'
}

/// The image that the parts of a URL lead to.
pub open spec fn remote(parts: Result<(Seq<char>, Seq<char>), Seq<char>>) -> Result<
    SourceView,
    ErrorView,
> {
    match parts {
        Ok((endpoint, path)) => Ok(SourceView::Remote { endpoint, path }),
        Err(text) => Err(ErrorView::InvalidUrl(text)),
    }
}

/// Takes the image that the parts of a URL lead to.
pub fn remote_source(parts: Result<(String, String), String>) -> (r: Result<ImageSource, Error>)
    ensures
        outcome(r) == remote(parts_view(parts)),
{
    match parts {
        Ok((endpoint, path)) => Ok(ImageSource::Remote { endpoint, path }),
        Err(text) => Err(Error::InvalidUrl(text)),
    }
}

/// Tells where an image is: what starts with `http` is the address of a remote
/// image, anything else is the path of a local file.
pub fn image_source(image: &str) -> (r: Result<ImageSource, Error>)
    ensures
        outcome(r) == (if is_address(image@) {
            remote(url_parts(image@))
        } else {
            Ok(SourceView::Local { path: image@ })
        }),
{
    if has_address(image) {
        remote_source(split_url(image))
    } else {
        Ok(ImageSource::Local { path: image.to_string() })
    }
}

/// The letter of a permission, or `-` where it is not given.
pub open spec fn permission_char(mode: u16, bit: int, letter: char) -> char {
    if (mode >> bit) % 2 == 1 {
        letter
    } else {
        '-'
    }
}

/// The mode of a file as ten characters: `d` for a directory, and `r`, `w` and `x`
/// for the user, the group and the others.
pub open spec fn mode_text(inode: Inode) -> Seq<char> {
    let mode = inode.mode_spec();
    seq![
        if inode.dir_spec() {
            'd'
        } else {
            '-'
        },
        permission_char(mode, 8, 'r'),
        permission_char(mode, 7, 'w'),
        permission_char(mode, 6, 'x'),
        permission_char(mode, 5, 'r'),
        permission_char(mode, 4, 'w'),
        permission_char(mode, 3, 'x'),
        permission_char(mode, 2, 'r'),
        permission_char(mode, 1, 'w'),
        permission_char(mode, 0, 'x'),
    ]
}

/// Writes the mode of a file as ten characters.
pub fn format_mode(inode: &Inode) -> (s: String)
    ensures
        s@ == mode_text(*inode),
{
    let mode = inode.permissions();
    let ghost full = inode.mode_spec();
    proof {
        reveal_strlit("d");
        reveal_strlit("-");
        reveal_strlit("r");
        reveal_strlit("w");
        reveal_strlit("x");
        assert(((full & 0x1ff) & 0x100 != 0) == ((full >> 8) % 2 == 1)) by (bit_vector);
        assert(((full & 0x1ff) & 0x80 != 0) == ((full >> 7) % 2 == 1)) by (bit_vector);
        assert(((full & 0x1ff) & 0x40 != 0) == ((full >> 6) % 2 == 1)) by (bit_vector);
        assert(((full & 0x1ff) & 0x20 != 0) == ((full >> 5) % 2 == 1)) by (bit_vector);
        assert(((full & 0x1ff) & 0x10 != 0) == ((full >> 4) % 2 == 1)) by (bit_vector);
        assert(((full & 0x1ff) & 0x8 != 0) == ((full >> 3) % 2 == 1)) by (bit_vector);
        assert(((full & 0x1ff) & 0x4 != 0) == ((full >> 2) % 2 == 1)) by (bit_vector);
        assert(((full & 0x1ff) & 0x2 != 0) == ((full >> 1) % 2 == 1)) by (bit_vector);
        assert(((full & 0x1ff) & 0x1 != 0) == ((full >> 0) % 2 == 1)) by (bit_vector);
    }
    let mut s = String::new();
    s.append(if inode.is_dir() { "d" } else { "-" });
    s.append(if mode & 0x100 != 0 { "r" } else { "-" });
    s.append(if mode & 0x80 != 0 { "w" } else { "-" });
    s.append(if mode & 0x40 != 0 { "x" } else { "-" });
    s.append(if mode & 0x20 != 0 { "r" } else { "-" });
    s.append(if mode & 0x10 != 0 { "w" } else { "-" });
    s.append(if mode & 0x8 != 0 { "x" } else { "-" });
    s.append(if mode & 0x4 != 0 { "r" } else { "-" });
    s.append(if mode & 0x2 != 0 { "w" } else { "-" });
    s.append(if mode & 0x1 != 0 { "x" } else { "-" });
    assert(s@ =~= mode_text(*inode));
    s
}

/// The unit that a size is written in.
#[derive(Debug, Clone, Copy, PartialEq, Eq, Structural)]
pub enum SizeUnit {
    Byte,
    Kibibyte,
    Mebibyte,
    Gibibyte,
}

/// The unit that a size is written in: the largest that it reaches.
pub open spec fn unit_of(size: int) -> SizeUnit {
    if size < 0x400 {
        SizeUnit::Byte
    } else if size < 0x10_0000 {
        SizeUnit::Kibibyte
    } else if size < 0x4000_0000 {
        SizeUnit::Mebibyte
    } else {
        SizeUnit::Gibibyte
    }
}

/// Tells which unit a size is written in: the largest that it reaches.
pub fn size_unit(size: usize) -> (u: SizeUnit)
    ensures
        u == unit_of(size as int),
{
    if size < 1024 {
        SizeUnit::Byte
    } else if size < 1024 * 1024 {
        SizeUnit::Kibibyte
    } else if size < 1024 * 1024 * 1024 {
        SizeUnit::Mebibyte
    } else {
        SizeUnit::Gibibyte
    }
}

/// Tells how a time is written: with the time of day in the current year, and with
/// the year otherwise.
pub fn time_format(year: i32, current_year: i32) -> (f: &'static str)
    ensures
        f@ == (if year == current_year {
            "%b %e %H:%M"@
        } else {
            "%b %e  %Y"@
        }),
{
    if year == current_year {
        "%b %e %H:%M"
    } else {
        "%b %e  %Y"
    }
}

/// A text with blanks before it, so that it has at least `width` characters.
pub open spec fn padded(text: Seq<char>, width: nat) -> Seq<char> {
    if text.len() < width {
        Seq::new((width - text.len()) as nat, |i: int| ' ') + text
    } else {
        text
    }
}

/// The line that lists a file.
pub open spec fn listing_line(
    mode: Seq<char>,
    size: Seq<char>,
    time: Seq<char>,
    name: Seq<char>,
) -> Seq<char> {
    mode + seq![' '] + padded(size, 8) + seq![' '] + time + seq![' '] + name
}

/// Writes the line that lists a file: its mode, its size with at least eight
/// characters, its time and its name.
pub fn format_line(mode: &str, size: &str, time: &str, name: &str) -> (s: String)
    ensures
        s@ == listing_line(mode@, size@, time@, name@),
{
    proof {
        reveal_strlit(" ");
        assert(" "@ =~= seq![' ']);
    }
    let mut s = mode.to_string();
    s.append(" ");
    let len = size.unicode_len();
    let mut i: usize = len;
    let ghost start = s@;
    while i < 8
        invariant
            len <= i,
            i <= 8 || i == len,
            " "@ == seq![' '],
            s@ == start + Seq::new((i - len) as nat, |k: int| ' '),
        decreases 8 - i,
    {
        s.append(" ");
        assert(Seq::new((i + 1 - len) as nat, |k: int| ' ') =~= Seq::new(
            (i - len) as nat,
            |k: int| ' ',
        ) + seq![' ']);
        i = i + 1;
    }
    s.append(size);
    s.append(" ");
    s.append(time);
    s.append(" ");
    s.append(name);
    assert(s@ =~= listing_line(mode@, size@, time@, name@));
    s
}

/// Checks that a file is small enough to be written out: it has no more than 1 MiB.
pub fn check_output_size(size: usize) -> (r: Result<(), Error>)
    ensures
        r is Ok <==> size <= 0x10_0000,
        r is Err ==> r->Err_0@ == ErrorView::FileTooLarge("file too large to output (>1 MiB)"@),
{
    if size > 1024 * 1024 {
        return Err(Error::FileTooLarge("file too large to output (>1 MiB)".to_string()));
    }
    Ok(())
}

} // verus!
