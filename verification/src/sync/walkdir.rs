//! Walking a directory tree.

use crate::backend::Image;
use crate::dirent::DirEntry;
use crate::error::Error;
use crate::lookup::require_dir;
use crate::sync::dirent::open_dir;
use crate::sync::filesystem::EroFS;
use crate::walk::{TreeWalk, WalkDirEntry, WalkStep};
use vstd::prelude::*;

#[allow(unused_imports)]
use crate::cursor::{cursor_step, DirStepView};
#[allow(unused_imports)]
use crate::error::{outcome, ErrorView};
#[allow(unused_imports)]
use crate::filesystem::EroFSCore;
#[allow(unused_imports)]
use crate::lookup::{dir_at, path_target, Reads};
#[allow(unused_imports)]
use crate::sync::dirent::dir_start;
#[allow(unused_imports)]
use crate::walk::{
    lemma_walk_by_steps, visit, walk_next, walk_step, WalkEntryView, WalkStepView,
    WalkView,
};

verus! {

/// What starting to walk the directory with this path gives.
pub open spec fn walk_start(core: EroFSCore, r: Reads, root: Seq<u8>) -> Result<
    WalkView,
    ErrorView,
> {
    match path_target(core, r, root) {
        Err(e) => Err(e),
        Ok(found) => match dir_at(found, root) {
            Err(e) => Err(e),
            Ok(inode) => match dir_start(r, inode, root) {
                Err(e) => Err(e),
                Ok(dir) => Ok(WalkView { stack: seq![dir], max_depth: 0 }),
            },
        },
    }
}

/// The entries of a directory tree, handed out one after the other.
#[derive(Debug)]
pub struct WalkDir<'a, I: Image> {
    erofs: &'a EroFS<I>,
    walk: TreeWalk<&'a [u8]>,
}

impl<'a, I: Image> View for WalkDir<'a, I> {
    type V = WalkView;

    closed spec fn view(&self) -> WalkView {
        self.walk@
    }
}

/// What handing out the next entry of a walk gives, by its view.
pub open spec fn walk_outcome(x: Option<Result<WalkDirEntry, Error>>) -> Option<
    Result<WalkEntryView, ErrorView>,
> {
    match x {
        None => None,
        Some(r) => Some(outcome(r)),
    }
}

impl<'a, I: Image> WalkDir<'a, I> {
    /// The filesystem of the tree.
    pub closed spec fn fs(&self) -> &'a EroFS<I> {
        self.erofs
    }

    pub(crate) fn new(erofs: &'a EroFS<I>, root: &[u8]) -> (r: Result<Self, Error>)
        requires
            erofs.wf(),
        ensures
            outcome(r) == walk_start(erofs.meta(), erofs.reads(), root@),
            r is Ok ==> r->Ok_0.fs() == erofs && r->Ok_0@.wf() && r->Ok_0@.below(root@),
    {
        let inode = require_dir(erofs.get_path_inode(root)?, root)?;
        let dir = open_dir(erofs, inode, root)?;
        Ok(WalkDir { erofs, walk: TreeWalk::new(dir) })
    }

    /// Sets the maximum depth to descend into subdirectories.
    ///
    /// A depth of 1 means only immediate children are returned (like `read_dir`).
    /// A depth of 0 (the default) means unlimited depth.
    pub fn max_depth(self, depth: usize) -> (w: Self)
        ensures
            w.fs() == self.fs(),
            w@ == (WalkView { max_depth: depth, ..self@ }),
    {
        WalkDir { erofs: self.erofs, walk: self.walk.max_depth(depth) }
    }

    fn get_walk_dir_entry(&mut self, dir_entry: DirEntry) -> (r: Result<WalkDirEntry, Error>)
        requires
            old(self).fs().wf(),
            old(self)@.wf(),
        ensures
            final(self).fs() == old(self).fs(),
            final(self)@.wf(),
            (final(self)@, outcome(r)) == visit(
                old(self).fs().reads(),
                old(self)@,
                dir_entry@,
            ),
    {
        let depth = self.walk.depth();
        let inode = self.erofs.get_inode(dir_entry.nid())?;
        if self.walk.descends(&dir_entry) {
            let block = self.erofs.get_inode_block(&inode, 0)?;
            self.walk.enter(&dir_entry, inode, block)?;
        }
        Ok(WalkDirEntry { depth, dir_entry, inode })
    }

    /// Hands out the next entry, or `None` behind the last one.
    pub fn next_entry(&mut self) -> (x: Option<Result<WalkDirEntry, Error>>)
        requires
            old(self).fs().wf(),
            old(self)@.wf(),
        ensures
            final(self).fs() == old(self).fs(),
            final(self)@.wf(),
            (final(self)@, walk_outcome(x)) == walk_next(old(self).fs().reads(), old(self)@),
    {
        let ghost reads = self.erofs.reads();
        loop
            invariant
                self.fs() == old(self).fs(),
                self.fs().wf(),
                reads == self.fs().reads(),
                self@.wf(),
                walk_next(reads, self@) == walk_next(reads, old(self)@),
            decreases self@.stack.len(), usize::MAX - self@.stack.last().offset,
        {
            let ghost before = self@;
            proof {
                lemma_walk_step(reads, before);
            }
            match self.walk.step() {
                Err(e) => {
                    return Some(Err(e));
                },
                Ok(WalkStep::End) => {
                    return None;
                },
                Ok(WalkStep::Entry(entry)) => {
                    let r = self.get_walk_dir_entry(entry);
                    return Some(r);
                },
                Ok(WalkStep::ReadBlock(inode, offset)) => {
                    let block = match self.erofs.get_inode_block(&inode, offset) {
                        Ok(block) => block,
                        Err(e) => {
                            return Some(Err(e));
                        },
                    };
                    if let Err(e) = self.walk.block_read(block) {
                        return Some(Err(e));
                    }
                },
            }
        }
    }
}

/// The next entry of a walk follows from one step of it.
proof fn lemma_walk_step(r: Reads, w: WalkView)
    requires
        w.wf(),
    ensures
        ({
            let (stack, step) = walk_step(w.stack);
            let after = WalkView { stack, ..w };
            match step {
                Err(e) => walk_next(r, w) == (after, Some(Err::<WalkEntryView, ErrorView>(e))),
                Ok(WalkStepView::End) => walk_next(r, w) == (
                    after,
                    None::<Result<WalkEntryView, ErrorView>>,
                ),
                Ok(WalkStepView::Entry(e)) => walk_next(r, w) == ({
                    let (visited, entry) = visit(r, after, e);
                    (visited, Some(entry))
                }),
                Ok(WalkStepView::ReadBlock(inode, offset)) => {
                    &&& 0 < stack.len() <= w.stack.len()
                    &&& stack.len() == w.stack.len() ==> stack.last().offset
                        > w.stack.last().offset
                    &&& match (r.block)(inode, offset) {
                        Err(e) => walk_next(r, w) == (
                            after,
                            Some(Err::<WalkEntryView, ErrorView>(e)),
                        ),
                        Ok(data) => match crate::cursor::cursor_fed(stack.last(), data) {
                            Err(e) => walk_next(r, w) == (
                                after,
                                Some(Err::<WalkEntryView, ErrorView>(e)),
                            ),
                            Ok(fed) => walk_next(r, w) == walk_next(
                                r,
                                WalkView { stack: stack.drop_last().push(fed), ..w },
                            ),
                        },
                    }
                },
            }
        }),
    decreases w.stack.len(),
{
    if w.stack.len() > 0 {
        lemma_walk_by_steps(r, w);
        let (top, step) = cursor_step(w.stack.last());
        let after = w.stack.drop_last().push(top);
        assert(after.last() == top);
        assert(after.drop_last() =~= w.stack.drop_last());
        if step == Ok::<DirStepView, ErrorView>(DirStepView::End) {
            let outer = WalkView { stack: w.stack.drop_last(), ..w };
            assert forall|k: int| 0 <= k < outer.stack.len() implies (#[trigger] outer.stack[k]).wf() by {
                assert(outer.stack[k] == w.stack[k]);
            }
            lemma_walk_step(r, outer);
        }
    }
}

} // verus!
