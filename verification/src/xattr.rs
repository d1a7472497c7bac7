//! Extended attributes that are stored behind an inode.
//!
//! A header comes first, followed by the numbers of the shared attributes and
//! then by the attributes themselves. The header has a bloom filter, which tells
//! for most names that the inode has no attribute of that name.

use crate::error::{corrupted, out_of_bounds, Error};
use crate::le::{read_u16, read_u32};
use crate::text::{from_utf8, from_utf8_lossy, to_hex, trim_end_nul};
use core::hash::Hasher;
use twox_hash::XxHash32;
use vstd::prelude::*;
use vstd::string::StringExecFns;

#[allow(unused_imports)]
use crate::error::{outcome, ErrorView};
#[allow(unused_imports)]
use crate::filesystem::min_int;
#[allow(unused_imports)]
use crate::le::{le16, le32};
#[allow(unused_imports)]
use crate::text::{hex, lossy_text, trim_nul};
#[allow(unused_imports)]
use vstd::utf8::{decode_utf8, valid_utf8};

verus! {

/// What the hash `XxHash32` with this seed makes of some bytes.
pub uninterp spec fn xxh32_of(seed: u32, bytes: Seq<u8>) -> u32;

/// `twox_hash::XxHash32`, made by `with_seed`, given the bytes by `write` and
/// asked by `finish`: the hash of the bytes. It has 32 bits, though `finish` hands
/// it out as a 64-bit number.
#[verifier::external_body]
pub(crate) fn xxh32(seed: u32, bytes: &[u8]) -> (h: u32)
    ensures
        h == xxh32_of(seed, bytes@),
{
    let mut hasher = XxHash32::with_seed(seed);
    hasher.write(bytes);
    hasher.finish() as u32
}

/// Whether a bloom filter lets a hash pass: the bit that the hash chooses is set.
/// A filter with all bits set is switched off and lets everything pass.
pub open spec fn filter_admits(name_filter: u32, hash: u32) -> bool {
    name_filter == u32::MAX || (name_filter >> (hash % 32)) % 2 == 1
}

/// Tells whether a bloom filter lets a hash pass.
pub fn bloom_filter_admits(name_filter: u32, hash: u32) -> (b: bool)
    ensures
        b == filter_admits(name_filter, hash),
{
    if name_filter == u32::MAX {
        return true;
    }
    assert(((name_filter & (1u32 << (hash & 31))) != 0) == ((name_filter >> (hash % 32)) % 2 == 1))
        by (bit_vector);
    assert((hash & 31) < 32) by (bit_vector);
    (name_filter & (1u32 << (hash & 31))) != 0
}

/// Tells whether a bloom filter lets a name pass: `false` means that the inode has
/// no attribute with the prefix number `name_index` and this name.
pub fn bloom_filter_check(name_filter: u32, name_index: u8, name: &[u8]) -> (b: bool)
    ensures
        b == filter_admits(name_filter, xxh32_of(name_index as u32, name@)),
{
    bloom_filter_admits(name_filter, xxh32(name_index as u32, name))
}

/// A filter to which the bit of a hash was added lets that hash pass, and every
/// hash that it let pass before.
pub proof fn filter_admits_what_was_added(name_filter: u32, added: u32, hash: u32)
    ensures
        filter_admits(name_filter | (1u32 << (added % 32)), added),
        filter_admits(name_filter, hash) ==> filter_admits(
            name_filter | (1u32 << (added % 32)),
            hash,
        ),
{
    let bit = added % 32;
    let other = hash % 32;
    assert(((name_filter | (1u32 << bit)) >> bit) % 2 == 1) by (bit_vector)
        requires
            bit < 32,
    ;
    assert((name_filter >> other) % 2 == 1 ==> ((name_filter | (1u32 << bit)) >> other) % 2 == 1)
        by (bit_vector)
        requires
            bit < 32,
            other < 32,
    ;
    assert(u32::MAX | (1u32 << bit) == u32::MAX) by (bit_vector);
}

/// The prefix that a prefix number stands for. Its first bit tells of a long
/// prefix and is left out.
pub open spec fn prefix_of(index: u8) -> Seq<char> {
    let number = index % 128;
    if number == 0 {
        ""@
    } else if number == 1 {
        "user."@
    } else if number == 2 {
        "trusted."@
    } else if number == 3 {
        "security."@
    } else if number == 4 {
        "system."@
    } else if number == 5 {
        "system.posix_acl_access"@
    } else if number == 6 {
        "system.posix_acl_default"@
    } else {
        "unknown."@
    }
}

/// The prefix that a prefix number stands for.
pub fn short_prefix(index: u8) -> (s: &'static str)
    ensures
        s@ == prefix_of(index),
{
    assert(index & 0x7f == index % 128) by (bit_vector);
    match index & 0x7f {
        0 => "",
        1 => "user.",
        2 => "trusted.",
        3 => "security.",
        4 => "system.",
        5 => "system.posix_acl_access",
        6 => "system.posix_acl_default",
        _ => "unknown.",
    }
}

/// `n` rounded up to a multiple of 4.
pub open spec fn aligned(n: int) -> int {
    (n + 3) / 4 * 4
}

/// Rounds `n` up to a multiple of 4.
pub fn align4(n: usize) -> (r: usize)
    requires
        n <= usize::MAX - 3,
    ensures
        r == aligned(n as int),
{
    let m = n + 3;
    assert(m & !3usize == m / 4 * 4) by (bit_vector);
    m & !3
}

/// What both forms of an inode start with.
#[derive(Debug, Clone, Copy, PartialEq, Eq, Structural)]
pub struct InodeHeader {
    pub format: u16,
    pub xattr_count: u16,
}

/// What the extended attributes behind an inode start with.
#[derive(Debug, Clone, Copy, PartialEq, Eq, Structural)]
pub struct XattrBodyHeader {
    /// The bloom filter.
    pub name_filter: u32,
    /// How many shared attributes there are.
    pub shared_count: u8,
}

/// What an attribute starts with. Its name and its value follow.
#[derive(Debug, Clone, Copy, PartialEq, Eq, Structural)]
pub struct XattrEntry {
    pub name_len: u8,
    /// The number of the prefix.
    pub name_index: u8,
    pub value_len: u16,
}

/// The inode header at `o`.
pub open spec fn inode_header_at(s: Seq<u8>, o: int) -> InodeHeader {
    InodeHeader { format: le16(s, o), xattr_count: le16(s, o + 2) }
}

/// The attribute header at `o`.
pub open spec fn body_header_at(s: Seq<u8>, o: int) -> XattrBodyHeader {
    XattrBodyHeader { name_filter: le32(s, o), shared_count: s[o + 4] }
}

/// The start of an attribute at `o`.
pub open spec fn entry_at(s: Seq<u8>, o: int) -> XattrEntry {
    XattrEntry { name_len: s[o], name_index: s[o + 1], value_len: le16(s, o + 2) }
}

/// Why `size` bytes at `o` cannot be read, where they cannot.
pub open spec fn missing(s: Seq<u8>, o: int, size: int) -> Option<ErrorView> {
    if o > s.len() {
        Some(ErrorView::OutOfBounds("offset behind the end of the image"@))
    } else if o + size > s.len() {
        Some(ErrorView::UnexpectedEof)
    } else {
        None
    }
}

fn check_present(data: &[u8], o: usize, size: usize) -> (r: Result<(), Error>)
    ensures
        match missing(data@, o as int, size as int) {
            None => r is Ok,
            Some(e) => r is Err && r->Err_0@ == e,
        },
{
    if o > data.len() {
        Err(out_of_bounds("offset behind the end of the image"))
    } else if size > data.len() - o {
        Err(Error::UnexpectedEof)
    } else {
        Ok(())
    }
}

impl InodeHeader {
    /// The size of an inode header on disk.
    pub fn size() -> (n: usize)
        ensures
            n == 4,
    {
        4
    }

    /// Reads the inode header at `o`.
    pub fn read_at(data: &[u8], o: usize) -> (r: Result<InodeHeader, Error>)
        ensures
            match missing(data@, o as int, 4) {
                None => r == Ok::<InodeHeader, Error>(inode_header_at(data@, o as int)),
                Some(e) => r is Err && r->Err_0@ == e,
            },
    {
        check_present(data, o, Self::size())?;
        assert(data.len() == data@.len());
        Ok(InodeHeader { format: read_u16(data, o), xattr_count: read_u16(data, o + 2) })
    }
}

impl XattrBodyHeader {
    /// The size of an attribute header on disk.
    pub fn size() -> (n: usize)
        ensures
            n == 12,
    {
        12
    }

    /// Reads the attribute header at `o`.
    pub fn read_at(data: &[u8], o: usize) -> (r: Result<XattrBodyHeader, Error>)
        ensures
            match missing(data@, o as int, 12) {
                None => r == Ok::<XattrBodyHeader, Error>(body_header_at(data@, o as int)),
                Some(e) => r is Err && r->Err_0@ == e,
            },
    {
        check_present(data, o, Self::size())?;
        assert(data.len() == data@.len());
        Ok(XattrBodyHeader { name_filter: read_u32(data, o), shared_count: data[o + 4] })
    }
}

impl XattrEntry {
    /// The size of the start of an attribute on disk.
    pub fn size() -> (n: usize)
        ensures
            n == 4,
    {
        4
    }

    /// Reads the start of an attribute at `o`.
    pub fn read_at(data: &[u8], o: usize) -> (r: Result<XattrEntry, Error>)
        ensures
            match missing(data@, o as int, 4) {
                None => r == Ok::<XattrEntry, Error>(entry_at(data@, o as int)),
                Some(e) => r is Err && r->Err_0@ == e,
            },
    {
        check_present(data, o, Self::size())?;
        assert(data.len() == data@.len());
        Ok(
            XattrEntry {
                name_len: data[o],
                name_index: data[o + 1],
                value_len: read_u16(data, o + 2),
            },
        )
    }
}

/// A value as text: UTF-8 without the NUL characters at its end, and other bytes
/// in hexadecimal.
pub open spec fn value_text(value: Seq<u8>) -> Seq<char> {
    if valid_utf8(value) {
        trim_nul(decode_utf8(value))
    } else {
        hex(value)
    }
}

/// Writes a value as text.
pub fn format_value(value: &[u8]) -> (s: String)
    ensures
        s@ == value_text(value@),
{
    match from_utf8(value) {
        Some(text) => trim_end_nul(text).to_string(),
        None => to_hex(value),
    }
}

/// How far the attributes of an inode have been handed out.
pub struct XattrView {
    /// The image.
    pub data: Seq<u8>,
    /// Where the next attribute starts.
    pub cursor: int,
    /// How many attributes are left.
    pub remaining: int,
}

/// The attributes of an inode before any was handed out: `start` is where their
/// header lies, and there are `count` of them with the shared ones, which are
/// passed over.
pub open spec fn xattr_start(data: Seq<u8>, start: int, count: int) -> Result<
    XattrView,
    ErrorView,
> {
    let shared = body_header_at(data, start).shared_count;
    match missing(data, start, 12) {
        Some(e) => Err(e),
        None => if shared > count {
            Err(ErrorView::CorruptedData("corrupted inode: shared_count > xattr_count"@))
        } else {
            Ok(
                XattrView {
                    data,
                    cursor: min_int(start + 12 + 4 * shared, usize::MAX as int),
                    remaining: count - shared,
                },
            )
        },
    }
}

/// What handing out the next attribute gives: the attributes after it, and its name
/// with the prefix and its value, both as text. The next attribute starts at a
/// multiple of 4.
pub open spec fn xattr_next(v: XattrView) -> (
    XattrView,
    Result<Option<(Seq<char>, Seq<char>)>, ErrorView>,
) {
    if v.remaining == 0 {
        (v, Ok(None))
    } else {
        match missing(v.data, v.cursor, 4) {
            Some(e) => (v, Err(e)),
            None => {
                let entry = entry_at(v.data, v.cursor);
                let name = v.cursor + 4;
                let value = name + entry.name_len;
                let end = value + entry.value_len;
                if end > v.data.len() {
                    (
                        XattrView { cursor: name, ..v },
                        Err(
                            ErrorView::CorruptedData(
                                "xattr entry extends past image boundary - truncated or corrupt"@,
                            ),
                        ),
                    )
                } else {
                    (
                        XattrView {
                            cursor: min_int(aligned(end), usize::MAX as int),
                            remaining: v.remaining - 1,
                            ..v
                        },
                        Ok(
                            Some(
                                (
                                    prefix_of(entry.name_index) + lossy_text(
                                        v.data.subrange(name, value),
                                    ),
                                    value_text(v.data.subrange(value, end)),
                                ),
                            ),
                        ),
                    )
                }
            },
        }
    }
}

/// What handing out an attribute gives, by its view.
pub open spec fn xattr_outcome(r: Result<Option<(String, String)>, Error>) -> Result<
    Option<(Seq<char>, Seq<char>)>,
    ErrorView,
> {
    match r {
        Err(e) => Err(e@),
        Ok(None) => Ok(None),
        Ok(Some((key, value))) => Ok(Some((key@, value@))),
    }
}

/// The attributes of an inode, handed out one after the other.
#[derive(Debug)]
pub struct XattrIter<'a> {
    data: &'a [u8],
    cursor: usize,
    remaining: usize,
}

impl<'a> View for XattrIter<'a> {
    type V = XattrView;

    closed spec fn view(&self) -> XattrView {
        XattrView {
            data: self.data@,
            cursor: self.cursor as int,
            remaining: self.remaining as int,
        }
    }
}

impl<'a> XattrIter<'a> {
    /// Starts to hand out the attributes of an inode: `start` is where their header
    /// lies in the image, and `total_count` counts them with the shared ones, which
    /// are passed over.
    pub fn new(data: &'a [u8], start: usize, total_count: usize) -> (r: Result<Self, Error>)
        ensures
            outcome(r) == xattr_start(data@, start as int, total_count as int),
    {
        let header = XattrBodyHeader::read_at(data, start)?;
        let shared = header.shared_count as usize;
        if shared > total_count {
            return Err(corrupted("corrupted inode: shared_count > xattr_count"));
        }
        let cursor = start.saturating_add(XattrBodyHeader::size()).saturating_add(4 * shared);
        Ok(XattrIter { data, cursor, remaining: total_count - shared })
    }

    /// Hands out the next attribute: its name with the prefix, and its value.
    pub fn next_entry(&mut self) -> (r: Result<Option<(String, String)>, Error>)
        ensures
            (final(self)@, xattr_outcome(r)) == xattr_next(old(self)@),
    {
        if self.remaining == 0 {
            return Ok(None);
        }
        let entry = XattrEntry::read_at(self.data, self.cursor)?;
        assert(self.data.len() == self.data@.len());
        self.cursor = self.cursor + XattrEntry::size();
        let name_len = entry.name_len as usize;
        let value_len = entry.value_len as usize;
        if name_len + value_len > self.data.len() - self.cursor {
            return Err(
                corrupted("xattr entry extends past image boundary - truncated or corrupt"),
            );
        }
        let value_start = self.cursor + name_len;
        let end = value_start + value_len;
        let name = &self.data[self.cursor..value_start];
        let value = &self.data[value_start..end];
        self.cursor = if end <= usize::MAX - 3 {
            align4(end)
        } else {
            usize::MAX
        };
        self.remaining = self.remaining - 1;
        let mut key = short_prefix(entry.name_index).to_string();
        key.append(from_utf8_lossy(name).as_str());
        Ok(Some((key, format_value(value))))
    }
}

/// Behind an attribute the next one starts at a multiple of 4, not before the end
/// of the attribute and less than 4 bytes behind it, and one attribute less is
/// left.
pub proof fn next_attribute_is_aligned(v: XattrView)
    requires
        v.remaining > 0,
        v.data.len() <= usize::MAX - 3,
        missing(v.data, v.cursor, 4) is None,
    ensures
        ({
            let (after, r) = xattr_next(v);
            let entry = entry_at(v.data, v.cursor);
            let end = v.cursor + 4 + entry.name_len + entry.value_len;
            &&& r is Ok <==> end <= v.data.len()
            &&& r is Ok ==> {
                &&& r->Ok_0 is Some
                &&& after.cursor % 4 == 0
                &&& end <= after.cursor < end + 4
                &&& after.remaining == v.remaining - 1
            }
        }),
{
}

} // verus!
