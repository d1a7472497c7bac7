//! Listing a directory.

use crate::backend::Image;
use crate::cursor::{DirCursor, DirStep};
use crate::dirent::{transpose, DirEntry};
use crate::error::Error;
use crate::sync::filesystem::EroFS;
use crate::types::Inode;
use vstd::prelude::*;

#[allow(unused_imports)]
use crate::cursor::{cursor_start, dir_next, CursorView};
#[allow(unused_imports)]
use crate::dirent::{entry_outcome, item_view};
#[allow(unused_imports)]
use crate::error::{outcome, ErrorView};
#[allow(unused_imports)]
use crate::lookup::Reads;

verus! {

/// What starting to list a directory gives.
pub open spec fn dir_start(r: Reads, inode: Inode, dir: Seq<u8>) -> Result<CursorView, ErrorView> {
    match (r.block)(inode, 0) {
        Err(e) => Err(e),
        Ok(data) => cursor_start(dir, inode, data),
    }
}

/// The entries of a directory, handed out one after the other.
#[derive(Debug)]
pub struct ReadDir<'a, I: Image> {
    erofs: &'a EroFS<I>,
    cursor: DirCursor<&'a [u8]>,
}

impl<'a, I: Image> View for ReadDir<'a, I> {
    type V = CursorView;

    closed spec fn view(&self) -> CursorView {
        self.cursor@
    }
}

pub(crate) fn open_dir<'a, I: Image>(erofs: &'a EroFS<I>, inode: Inode, dir: &[u8]) -> (r: Result<
    DirCursor<&'a [u8]>,
    Error,
>)
    requires
        erofs.wf(),
    ensures
        outcome(r) == dir_start(erofs.reads(), inode, dir@),
        r is Ok ==> r->Ok_0@.wf(),
{
    let block = erofs.get_inode_block(&inode, 0)?;
    DirCursor::new(vstd::slice::slice_to_vec(dir), inode, block)
}

impl<'a, I: Image> ReadDir<'a, I> {
    /// The filesystem of the directory.
    pub closed spec fn fs(&self) -> &'a EroFS<I> {
        self.erofs
    }

    /// Starts to list the directory with this inode and this path.
    pub fn new(erofs: &'a EroFS<I>, inode: Inode, dir: &[u8]) -> (r: Result<Self, Error>)
        requires
            erofs.wf(),
        ensures
            outcome(r) == dir_start(erofs.reads(), inode, dir@),
            r is Ok ==> r->Ok_0.fs() == erofs && r->Ok_0@.wf(),
    {
        let cursor = open_dir(erofs, inode, dir)?;
        Ok(ReadDir { erofs, cursor })
    }

    /// Hands out the next entry, or `None` behind the last one.
    pub fn next_entry(&mut self) -> (r: Result<Option<DirEntry>, Error>)
        requires
            old(self).fs().wf(),
            old(self)@.wf(),
        ensures
            final(self).fs() == old(self).fs(),
            (final(self)@, entry_outcome(r)) == dir_next(old(self).fs().reads(), old(self)@),
            final(self)@.wf(),
    {
        let ghost reads = self.erofs.reads();
        loop
            invariant
                self.fs() == old(self).fs(),
                self.fs().wf(),
                reads == self.fs().reads(),
                self@.wf(),
                dir_next(reads, self@) == dir_next(reads, old(self)@),
            decreases usize::MAX - self@.offset,
        {
            match self.cursor.step()? {
                DirStep::Entry(entry) => {
                    return Ok(Some(entry));
                },
                DirStep::End => {
                    return Ok(None);
                },
                DirStep::ReadBlock(offset) => {
                    let inode = self.cursor.inode();
                    let block = self.erofs.get_inode_block(&inode, offset)?;
                    self.cursor.block_read(block)?;
                },
            }
        }
    }

    /// Hands out the next entry, or an error where it cannot be read. Behind the
    /// last entry there is neither.
    pub fn next(&mut self) -> (x: Option<Result<DirEntry, Error>>)
        requires
            old(self).fs().wf(),
            old(self)@.wf(),
        ensures
            final(self).fs() == old(self).fs(),
            (final(self)@, item_view(x)) == dir_next(old(self).fs().reads(), old(self)@),
            final(self)@.wf(),
    {
        transpose(self.next_entry())
    }
}

} // verus!
