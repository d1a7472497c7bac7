//! Listing a directory, one block after the other.
//!
//! [`DirCursor`] hands out the entries of a directory and says which block it
//! needs next. It reads nothing itself.

use crate::block::Block;
use crate::dirent::{DirEntry, DirentBlock};
use crate::error::Error;
use crate::types::Inode;
use vstd::prelude::*;

#[allow(unused_imports)]
use crate::dirent::{
    block_hands_out_its_listing, block_next, block_start, listing, BlockView, DirEntryView,
};
#[allow(unused_imports)]
use crate::error::{outcome, ErrorView};
#[allow(unused_imports)]
use crate::filesystem::min_int;
#[allow(unused_imports)]
use crate::lookup::Reads;

verus! {

/// How far a directory has been listed.
pub struct CursorView {
    /// The path of the directory.
    pub dir: Seq<u8>,
    /// Its inode.
    pub inode: Inode,
    /// The block that is being listed.
    pub block: BlockView,
    /// Where that block starts in the directory.
    pub offset: usize,
}

/// What listing a directory comes to.
#[derive(Debug)]
pub enum DirStep {
    /// The next entry.
    Entry(DirEntry),
    /// The block that holds the byte at this offset is needed.
    ReadBlock(usize),
    /// There are no more entries.
    End,
}

/// A [`DirStep`] by its view.
pub enum DirStepView {
    Entry(DirEntryView),
    ReadBlock(usize),
    End,
}

impl View for DirStep {
    type V = DirStepView;

    open spec fn view(&self) -> DirStepView {
        match *self {
            DirStep::Entry(e) => DirStepView::Entry(e@),
            DirStep::ReadBlock(o) => DirStepView::ReadBlock(o),
            DirStep::End => DirStepView::End,
        }
    }
}

/// The directory after one step, and what the step comes to. Behind the last
/// entry of a block the next block is needed, where there is one.
pub open spec fn cursor_step(v: CursorView) -> (CursorView, Result<DirStepView, ErrorView>) {
    let size = v.inode.data_size_spec();
    if v.offset >= size {
        (v, Ok(DirStepView::End))
    } else {
        let (block, r) = block_next(v.block);
        match r {
            Err(e) => (CursorView { block, ..v }, Err(e)),
            Ok(Some(e)) => (CursorView { block, ..v }, Ok(DirStepView::Entry(e))),
            Ok(None) => {
                let offset = min_int(v.offset + v.block.data.len(), usize::MAX as int) as usize;
                let next = CursorView { block, offset, ..v };
                if offset < size {
                    (next, Ok(DirStepView::ReadBlock(offset)))
                } else {
                    (next, Ok(DirStepView::End))
                }
            },
        }
    }
}

/// The directory with the block that it needs.
pub open spec fn cursor_fed(v: CursorView, data: Seq<u8>) -> Result<CursorView, ErrorView> {
    match block_start(v.dir, data) {
        Err(e) => Err(e),
        Ok(block) => Ok(CursorView { block, ..v }),
    }
}

/// The directory with its first block, before any entry was handed out.
pub open spec fn cursor_start(dir: Seq<u8>, inode: Inode, data: Seq<u8>) -> Result<
    CursorView,
    ErrorView,
> {
    match block_start(dir, data) {
        Err(e) => Err(e),
        Ok(block) => Ok(CursorView { dir, inode, block, offset: 0 }),
    }
}

/// What handing out the next entry gives where the blocks are what `r` reads:
/// the directory after it, and the entry.
pub open spec fn dir_next(r: Reads, v: CursorView) -> (
    CursorView,
    Result<Option<DirEntryView>, ErrorView>,
)
    decreases usize::MAX - v.offset,
{
    let (next, step) = cursor_step(v);
    match step {
        Err(e) => (next, Err(e)),
        Ok(DirStepView::Entry(e)) => (next, Ok(Some(e))),
        Ok(DirStepView::End) => (next, Ok(None)),
        Ok(DirStepView::ReadBlock(offset)) => match (r.block)(v.inode, offset) {
            Err(e) => (next, Err(e)),
            Ok(data) => match cursor_fed(next, data) {
                Err(e) => (next, Err(e)),
                Ok(fed) => if fed.offset > v.offset {
                    dir_next(r, fed)
                } else {
                    (fed, Ok(None))
                },
            },
        },
    }
}

/// How many bytes a file has from `offset` on.
pub open spec fn bytes_left(inode: Inode, offset: int) -> nat {
    if offset < inode.data_size_spec() {
        (inode.data_size_spec() - offset) as nat
    } else {
        0
    }
}

/// The entries of a directory from the block at `offset` on, in order, without
/// `.` and `..`.
pub open spec fn dir_listing(r: Reads, dir: Seq<u8>, inode: Inode, offset: int) -> Seq<DirEntryView>
    decreases bytes_left(inode, offset),
{
    if offset >= inode.data_size_spec() {
        seq![]
    } else {
        let data = (r.block)(inode, offset as usize)->Ok_0;
        if data.len() == 0 {
            seq![]
        } else {
            listing(dir, data, 0) + dir_listing(r, dir, inode, offset + data.len())
        }
    }
}

/// Whether all blocks of a directory from the one at `offset` on, and all of
/// their entries, can be read.
pub open spec fn readable_dir(r: Reads, dir: Seq<u8>, inode: Inode, offset: int) -> bool
    decreases bytes_left(inode, offset),
{
    offset >= inode.data_size_spec() || {
        &&& (r.block)(inode, offset as usize) is Ok
        &&& block_start(dir, (r.block)(inode, offset as usize)->Ok_0) is Ok
        &&& block_start(dir, (r.block)(inode, offset as usize)->Ok_0)->Ok_0.intact()
        &&& readable_dir(
            r,
            dir,
            inode,
            offset + (r.block)(inode, offset as usize)->Ok_0.len(),
        )
    }
}

impl CursorView {
    pub open spec fn wf(self) -> bool {
        self.block.wf()
    }

    /// Whether the block that is being listed, and all that follow it, can be read.
    pub open spec fn intact(self, r: Reads) -> bool {
        self.offset < self.inode.data_size_spec() ==> {
            &&& self.block.intact()
            &&& self.block.root == self.dir
            &&& readable_dir(r, self.dir, self.inode, self.offset + self.block.data.len())
        }
    }

    /// The entries that have not been handed out yet.
    pub open spec fn remaining(self, r: Reads) -> Seq<DirEntryView> {
        if self.offset >= self.inode.data_size_spec() {
            seq![]
        } else {
            self.block.remaining() + dir_listing(
                r,
                self.dir,
                self.inode,
                self.offset + self.block.data.len(),
            )
        }
    }
}

proof fn lemma_block_next_keeps_the_block(b: BlockView)
    ensures
        block_next(b).0.data == b.data,
        block_next(b).0.root == b.root,
        block_next(b).0.n == b.n,
        block_next(b).0.i >= b.i,
        block_next(b).1 matches Ok(Some(e)) ==> e.dir == b.root,
    decreases b.n - b.i,
{
    if b.i < b.n {
        let following = if b.i < b.n - 1 {
            crate::dirent::nth_dirent(b.data, b.i + 1)
        } else {
            Ok(b.dirent)
        };
        if let Ok(next) = following {
            lemma_block_next_keeps_the_block(BlockView { dirent: next, i: b.i + 1, ..b });
        }
    }
}

/// Listing a directory keeps its path, and every entry is one of that path.
pub(crate) proof fn lemma_dir_next_keeps_the_path(r: Reads, v: CursorView)
    requires
        v.block.root == v.dir,
    ensures
        dir_next(r, v).0.dir == v.dir,
        dir_next(r, v).0.block.root == v.dir,
        dir_next(r, v).1 matches Ok(Some(e)) ==> e.dir == v.dir,
    decreases usize::MAX - v.offset,
{
    lemma_block_next_keeps_the_block(v.block);
    let (next, step) = cursor_step(v);
    if let Ok(DirStepView::ReadBlock(offset)) = step {
        if let Ok(data) = (r.block)(v.inode, offset) {
            if let Ok(fed) = cursor_fed(next, data) {
                if fed.offset > v.offset {
                    lemma_dir_next_keeps_the_path(r, fed);
                }
            }
        }
    }
}

/// A directory that can be read hands out all of its entries but `.` and `..`,
/// each once and in the order of its blocks, and then `None`.
pub proof fn directory_hands_out_its_listing(r: Reads, v: CursorView)
    requires
        v.wf(),
        v.intact(r),
    ensures
        ({
            let (after, x) = dir_next(r, v);
            &&& after.wf()
            &&& after.intact(r)
            &&& match x {
                Err(_) => false,
                Ok(None) => v.remaining(r).len() == 0 && after.remaining(r).len() == 0,
                Ok(Some(e)) => v.remaining(r) == seq![e] + after.remaining(r),
            }
        }),
    decreases usize::MAX - v.offset,
{
    let size = v.inode.data_size_spec();
    if v.offset < size {
        block_hands_out_its_listing(v.block);
        lemma_block_next_keeps_the_block(v.block);
        let (block, x) = block_next(v.block);
        let end = v.offset + v.block.data.len();
        match x {
            Ok(Some(e)) => {
                let after = CursorView { block, ..v };
                assert(v.remaining(r) =~= seq![e] + after.remaining(r));
            },
            Ok(None) => {
                if end < size {
                    let next = CursorView { block, offset: end as usize, ..v };
                    let data = (r.block)(v.inode, end as usize)->Ok_0;
                    let fed = cursor_fed(next, data)->Ok_0;
                    assert(fed.remaining(r) =~= dir_listing(r, v.dir, v.inode, end));
                    directory_hands_out_its_listing(r, fed);
                    assert(v.remaining(r) =~= fed.remaining(r));
                } else {
                    assert(v.remaining(r) =~= seq![]);
                }
            },
            Err(_) => {},
        }
    }
}

/// A directory that can be read has, with its first block, all of its entries
/// before it.
pub proof fn listing_starts_with_all_entries(r: Reads, dir: Seq<u8>, inode: Inode)
    requires
        inode.data_size_spec() > 0,
        readable_dir(r, dir, inode, 0),
    ensures
        ({
            let v = cursor_start(dir, inode, (r.block)(inode, 0)->Ok_0);
            &&& v is Ok
            &&& v->Ok_0.wf()
            &&& v->Ok_0.intact(r)
            &&& v->Ok_0.remaining(r) == dir_listing(r, dir, inode, 0)
        }),
{
    let data = (r.block)(inode, 0)->Ok_0;
    let v = cursor_start(dir, inode, data)->Ok_0;
    assert(v.remaining(r) =~= dir_listing(r, dir, inode, 0));
}

/// The listing of a directory.
#[derive(Debug)]
pub struct DirCursor<D: Block> {
    dir: Vec<u8>,
    inode: Inode,
    block: DirentBlock<D>,
    offset: usize,
}

impl<D: Block> View for DirCursor<D> {
    type V = CursorView;

    closed spec fn view(&self) -> CursorView {
        CursorView {
            dir: self.dir@,
            inode: self.inode,
            block: self.block@,
            offset: self.offset,
        }
    }
}

impl<D: Block> DirCursor<D> {
    /// Starts to list the directory with the path `dir`, whose first block is
    /// `data`.
    pub fn new(dir: Vec<u8>, inode: Inode, data: D) -> (r: Result<Self, Error>)
        ensures
            outcome(r) == cursor_start(dir@, inode, data.bytes()),
            r is Ok ==> r->Ok_0@.wf(),
    {
        let block = DirentBlock::new(dir.clone(), data)?;
        Ok(DirCursor { dir, inode, block, offset: 0 })
    }

    /// The inode of the directory.
    pub fn inode(&self) -> (inode: Inode)
        ensures
            inode == self@.inode,
    {
        self.inode
    }

    /// Hands out the next entry, or tells which block is needed for it.
    pub fn step(&mut self) -> (r: Result<DirStep, Error>)
        requires
            old(self)@.wf(),
        ensures
            (final(self)@, outcome(r)) == cursor_step(old(self)@),
            final(self)@.wf(),
            final(self)@.inode == old(self)@.inode,
            final(self)@.dir == old(self)@.dir,
            r matches Ok(DirStep::ReadBlock(o)) ==> o == final(self)@.offset && o > old(
                self,
            )@.offset,
    {
        if self.offset >= self.inode.data_size() {
            return Ok(DirStep::End);
        }
        proof {
            lemma_block_next_keeps_the_block(self.block@);
        }
        match self.block.next_entry()? {
            Some(entry) => Ok(DirStep::Entry(entry)),
            None => {
                self.offset = self.offset.saturating_add(self.block.block_size());
                if self.offset < self.inode.data_size() {
                    Ok(DirStep::ReadBlock(self.offset))
                } else {
                    Ok(DirStep::End)
                }
            },
        }
    }

    /// Takes the block that was needed.
    pub fn block_read(&mut self, data: D) -> (r: Result<(), Error>)
        requires
            old(self)@.wf(),
        ensures
            final(self)@.wf(),
            match cursor_fed(old(self)@, data.bytes()) {
                Ok(v) => r is Ok && final(self)@ == v,
                Err(e) => r is Err && r->Err_0@ == e && final(self)@ == old(self)@,
            },
    {
        self.block = DirentBlock::new(self.dir.clone(), data)?;
        Ok(())
    }
}

} // verus!
