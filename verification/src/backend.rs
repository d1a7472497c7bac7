//! Sources of image data.

use core::ops::Range;
use vstd::prelude::*;

verus! {

/// A source of the bytes of an image.
pub trait Image {
    /// The bytes of the image.
    spec fn content(&self) -> Seq<u8>;

    /// The bytes of a range, or `None` where it is not within the image.
    fn get(&self, range: Range<usize>) -> (s: Option<&[u8]>)
        ensures
            s is Some <==> range.start <= range.end <= self.content().len(),
            s is Some ==> s->0@ == self.content().subrange(range.start as int, range.end as int),
    ;

    /// The bytes from an offset to the end of the image, or `None` where the
    /// offset lies behind the end.
    fn get_cursor(&self, offset: usize) -> (s: Option<&[u8]>)
        ensures
            s is Some <==> offset <= self.content().len(),
            s is Some ==> s->0@ == self.content().skip(offset as int),
    ;

    /// The length of the image in bytes.
    fn len(&self) -> (n: u64)
        ensures
            n == self.content().len(),
    ;

    /// Whether the image has no bytes.
    fn is_empty(&self) -> (b: bool)
        ensures
            b == (self.content().len() == 0),
    {
        self.len() == 0
    }
}

/// An image that lies in memory.
#[derive(Debug, Clone, Copy)]
pub struct SliceImage<'a> {
    data: &'a [u8],
}

impl<'a> SliceImage<'a> {
    /// The image that `data` holds.
    pub fn new(data: &'a [u8]) -> (image: Self)
        ensures
            image.content() == data@,
    {
        SliceImage { data }
    }
}

impl<'a> Image for SliceImage<'a> {
    closed spec fn content(&self) -> Seq<u8> {
        self.data@
    }

    fn get(&self, range: Range<usize>) -> (s: Option<&[u8]>) {
        if range.start <= range.end && range.end <= self.data.len() {
            Some(&self.data[range.start..range.end])
        } else {
            None
        }
    }

    fn get_cursor(&self, offset: usize) -> (s: Option<&[u8]>) {
        if offset <= self.data.len() {
            let s = &self.data[offset..self.data.len()];
            assert(s@ =~= self.data@.skip(offset as int));
            Some(s)
        } else {
            None
        }
    }

    fn len(&self) -> (n: u64) {
        self.data.len() as u64
    }
}

} // verus!
