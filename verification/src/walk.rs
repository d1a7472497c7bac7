//! Walking a directory tree, one read after the other.
//!
//! [`TreeWalk`] decides what comes next in a walk and what has to be read for
//! it. It reads nothing itself.

use crate::block::Block;
use crate::cursor::{DirCursor, DirStep};
use crate::dirent::DirEntry;
use crate::error::Error;
use crate::types::{DirentFileType, Inode};
use vstd::prelude::*;

#[allow(unused_imports)]
use crate::cursor::{
    cursor_fed, cursor_start, cursor_step, dir_listing, dir_next, directory_hands_out_its_listing,
    lemma_dir_next_keeps_the_path, listing_starts_with_all_entries, readable_dir, CursorView,
    DirStepView,
};
#[allow(unused_imports)]
use crate::dirent::{
    entry_count, is_dot_name, listing, nth_entry, nth_id_name, nth_name, nth_name_text,
    only_entry_named, DirEntryView,
};
#[allow(unused_imports)]
use crate::error::{outcome, ErrorView};
#[allow(unused_imports)]
use crate::filesystem::{lemma_block_rest, lemma_block_start, units, EroFSCore};
#[allow(unused_imports)]
use crate::lookup::{
    dir_block, file_at, named_in_block, path_leads_through_its_directory, path_target,
    search_finds_every_entry, searchable_block, Reads,
};
#[allow(unused_imports)]
use crate::path::{joined, joined_path_has_one_part_more, route, simple_name, PartView};
#[allow(unused_imports)]
use crate::reader::{lemma_block_index, readable_block};
#[allow(unused_imports)]
use vstd::utf8::encode_utf8;

verus! {

/// How far a tree has been walked.
pub struct WalkView {
    /// The directories that are being listed, each within the one before it.
    pub stack: Seq<CursorView>,
    /// How deep the walk goes, or 0 where there is no limit.
    pub max_depth: usize,
}

/// A single entry of a walk.
#[derive(Debug)]
pub struct WalkDirEntry {
    /// The depth of this entry relative to the starting directory (1-indexed).
    pub depth: usize,
    /// The directory entry containing file name and type.
    pub dir_entry: DirEntry,
    /// The inode containing file metadata.
    pub inode: Inode,
}

/// A [`WalkDirEntry`] by its view.
pub struct WalkEntryView {
    pub depth: usize,
    pub dir_entry: DirEntryView,
    pub inode: Inode,
}

impl View for WalkDirEntry {
    type V = WalkEntryView;

    open spec fn view(&self) -> WalkEntryView {
        WalkEntryView { depth: self.depth, dir_entry: self.dir_entry@, inode: self.inode }
    }
}

/// What a walk comes to.
#[derive(Debug)]
pub enum WalkStep {
    /// The next entry. Its inode is needed, and then, where the walk goes on in
    /// it, its first block.
    Entry(DirEntry),
    /// The block of a directory that holds the byte at an offset is needed.
    ReadBlock(Inode, usize),
    /// There are no more entries.
    End,
}

/// A [`WalkStep`] by its view.
pub enum WalkStepView {
    Entry(DirEntryView),
    ReadBlock(Inode, usize),
    End,
}

impl View for WalkStep {
    type V = WalkStepView;

    open spec fn view(&self) -> WalkStepView {
        match *self {
            WalkStep::Entry(e) => WalkStepView::Entry(e@),
            WalkStep::ReadBlock(inode, offset) => WalkStepView::ReadBlock(inode, offset),
            WalkStep::End => WalkStepView::End,
        }
    }
}

/// The directories after one step, and what the step comes to. A directory is
/// left behind its last entry.
pub open spec fn walk_step(stack: Seq<CursorView>) -> (
    Seq<CursorView>,
    Result<WalkStepView, ErrorView>,
)
    decreases stack.len(),
{
    if stack.len() == 0 {
        (stack, Ok(WalkStepView::End))
    } else {
        let (top, step) = cursor_step(stack.last());
        let after = stack.drop_last().push(top);
        match step {
            Err(e) => (after, Err(e)),
            Ok(DirStepView::Entry(e)) => (after, Ok(WalkStepView::Entry(e))),
            Ok(DirStepView::ReadBlock(offset)) => (
                after,
                Ok(WalkStepView::ReadBlock(stack.last().inode, offset)),
            ),
            Ok(DirStepView::End) => walk_step(stack.drop_last()),
        }
    }
}

/// Whether a walk goes on in an entry of this type at this depth.
pub open spec fn descends(max_depth: usize, depth: int, file_type: DirentFileType) -> bool {
    (depth < max_depth || max_depth == 0) && file_type == DirentFileType::Directory
}

/// The path of an entry.
pub open spec fn entry_path(e: DirEntryView) -> Seq<u8> {
    joined(e.dir, encode_utf8(e.file_name))
}

/// What handing out the entry `e` gives where the reads are `r`: the directories
/// after it, and the entry with its inode.
pub open spec fn visit(r: Reads, w: WalkView, e: DirEntryView) -> (
    WalkView,
    Result<WalkEntryView, ErrorView>,
) {
    match (r.inode)(e.nid) {
        Err(x) => (w, Err(x)),
        Ok(inode) => {
            let entry = WalkEntryView {
                depth: w.stack.len() as usize,
                dir_entry: e,
                inode,
            };
            if descends(w.max_depth, w.stack.len() as int, e.file_type) {
                match (r.block)(inode, 0) {
                    Err(x) => (w, Err(x)),
                    Ok(data) => match cursor_start(entry_path(e), inode, data) {
                        Err(x) => (w, Err(x)),
                        Ok(child) => (WalkView { stack: w.stack.push(child), ..w }, Ok(entry)),
                    },
                }
            } else {
                (w, Ok(entry))
            }
        },
    }
}

/// What handing out the next entry of a walk gives where the reads are `r`: the
/// walk after it, and the entry.
pub open spec fn walk_next(r: Reads, w: WalkView) -> (
    WalkView,
    Option<Result<WalkEntryView, ErrorView>>,
)
    decreases w.stack.len(),
{
    if w.stack.len() == 0 {
        (w, None)
    } else {
        let (top, x) = dir_next(r, w.stack.last());
        let after = WalkView { stack: w.stack.drop_last().push(top), ..w };
        match x {
            Err(e) => (after, Some(Err(e))),
            Ok(None) => walk_next(r, WalkView { stack: w.stack.drop_last(), ..w }),
            Ok(Some(e)) => {
                let (visited, entry) = visit(r, after, e);
                (visited, Some(entry))
            },
        }
    }
}

impl WalkView {
    pub open spec fn wf(self) -> bool {
        &&& self.stack.len() <= usize::MAX
        &&& forall|k: int| 0 <= k < self.stack.len() ==> (#[trigger] self.stack[k]).wf()
    }

    /// Whether the walk is within its depth.
    pub open spec fn within_depth(self) -> bool {
        self.max_depth == 0 || self.stack.len() <= self.max_depth
    }
}

/// A walk with a maximum depth hands out no entry below it, and it stays within
/// it.
pub proof fn walk_stays_within_its_depth(r: Reads, w: WalkView)
    requires
        w.wf(),
        w.within_depth(),
    ensures
        ({
            let (after, x) = walk_next(r, w);
            &&& after.max_depth == w.max_depth
            &&& after.within_depth()
            &&& x matches Some(Ok(e)) ==> 1 <= e.depth && (w.max_depth == 0 || e.depth
                <= w.max_depth)
        }),
    decreases w.stack.len(),
{
    if w.stack.len() > 0 {
        let (top, x) = dir_next(r, w.stack.last());
        if x == Ok::<Option<DirEntryView>, ErrorView>(None) {
            let outer = WalkView { stack: w.stack.drop_last(), ..w };
            assert(outer.wf()) by {
                assert forall|k: int| 0 <= k < outer.stack.len() implies (
                #[trigger] outer.stack[k]).wf() by {
                    assert(outer.stack[k] == w.stack[k]);
                }
            }
            walk_stays_within_its_depth(r, outer);
        }
    }
}

/// A walk of depth 1 hands out what listing its one directory hands out, at
/// depth 1 and with the inodes, and goes into no other directory.
pub proof fn shallow_walk_lists_the_directory(r: Reads, dir: CursorView)
    ensures
        ({
            let w = WalkView { stack: seq![dir], max_depth: 1 };
            let (after, x) = walk_next(r, w);
            let (next, y) = dir_next(r, dir);
            match y {
                Err(e) => x == Some(Err::<WalkEntryView, ErrorView>(e)) && after.stack == seq![next],
                Ok(None) => x is None && after.stack.len() == 0,
                Ok(Some(e)) => {
                    &&& after.stack == seq![next]
                    &&& x == Some(
                        match (r.inode)(e.nid) {
                            Err(err) => Err(err),
                            Ok(inode) => Ok(WalkEntryView { depth: 1, dir_entry: e, inode }),
                        },
                    )
                },
            }
        }),
{
    let w = WalkView { stack: seq![dir], max_depth: 1 };
    let (next, y) = dir_next(r, dir);
    assert(w.stack.last() == dir);
    assert(w.stack.drop_last() =~= seq![]);
    assert(w.stack.drop_last().push(next) =~= seq![next]);
    assert(walk_next(r, WalkView { stack: w.stack.drop_last(), ..w }).1 is None);
}

/// The entries of a walk that is at `entries` of a directory at `depth`: each
/// entry with its inode, and behind it, where the walk goes on in it, the entries
/// below it. No directory below the depth `limit` is counted in.
pub open spec fn tree_entries(
    r: Reads,
    max_depth: usize,
    limit: int,
    depth: int,
    entries: Seq<DirEntryView>,
) -> Seq<WalkEntryView>
    decreases limit - depth, entries.len(),
{
    if entries.len() == 0 {
        seq![]
    } else {
        let e = entries.first();
        let inode = (r.inode)(e.nid)->Ok_0;
        let below = if descends(max_depth, depth, e.file_type) && depth < limit {
            tree_entries(
                r,
                max_depth,
                limit,
                depth + 1,
                dir_listing(r, entry_path(e), inode, 0),
            )
        } else {
            seq![]
        };
        seq![WalkEntryView { depth: depth as usize, dir_entry: e, inode }] + below + tree_entries(
            r,
            max_depth,
            limit,
            depth,
            entries.drop_first(),
        )
    }
}

/// Whether a walk that is at `entries` of a directory at `depth` can be made: all
/// inodes and all blocks of the directories below can be read, and no directory
/// lies below the depth `limit`.
pub open spec fn walkable(
    r: Reads,
    max_depth: usize,
    limit: int,
    depth: int,
    entries: Seq<DirEntryView>,
) -> bool
    decreases limit - depth, entries.len(),
{
    entries.len() == 0 || {
        let e = entries.first();
        let inode = (r.inode)(e.nid)->Ok_0;
        &&& (r.inode)(e.nid) is Ok
        &&& descends(max_depth, depth, e.file_type) ==> {
            &&& depth < limit
            &&& inode.data_size_spec() > 0
            &&& readable_dir(r, entry_path(e), inode, 0)
            &&& walkable(
                r,
                max_depth,
                limit,
                depth + 1,
                dir_listing(r, entry_path(e), inode, 0),
            )
        }
        &&& walkable(r, max_depth, limit, depth, entries.drop_first())
    }
}

impl WalkView {
    /// Whether the `k`-th directory of the walk and all below it can be walked.
    pub open spec fn walkable_dir(self, r: Reads, limit: int, k: int) -> bool {
        &&& self.stack[k].wf()
        &&& self.stack[k].intact(r)
        &&& walkable(r, self.max_depth, limit, k + 1, self.stack[k].remaining(r))
    }

    /// Whether all that is left of the walk can be walked.
    pub open spec fn walkable(self, r: Reads, limit: int) -> bool {
        &&& self.stack.len() <= limit <= usize::MAX
        &&& forall|k: int|
            0 <= k < self.stack.len() ==> #[trigger] self.walkable_dir(r, limit, k)
    }

    /// The entries of the walk that have not been handed out yet: those of the
    /// innermost directory come first.
    pub open spec fn remaining(self, r: Reads, limit: int) -> Seq<WalkEntryView>
        decreases self.stack.len(),
    {
        if self.stack.len() == 0 {
            seq![]
        } else {
            tree_entries(
                r,
                self.max_depth,
                limit,
                self.stack.len() as int,
                self.stack.last().remaining(r),
            ) + (WalkView { stack: self.stack.drop_last(), ..self }).remaining(r, limit)
        }
    }
}

/// A walk hands out all entries of the tree, each once, a directory before what is
/// below it, and then `None`, where all that it has to read can be read.
pub proof fn walk_hands_out_the_tree(r: Reads, w: WalkView, limit: int)
    requires
        w.walkable(r, limit),
    ensures
        ({
            let (after, x) = walk_next(r, w);
            &&& after.walkable(r, limit)
            &&& after.max_depth == w.max_depth
            &&& match x {
                None => w.remaining(r, limit).len() == 0 && after.remaining(r, limit).len() == 0,
                Some(Err(_)) => false,
                Some(Ok(e)) => w.remaining(r, limit) == seq![e] + after.remaining(r, limit),
            }
        }),
    decreases w.stack.len(),
{
    if w.stack.len() > 0 {
        let d = w.stack.len() as int;
        assert(w.walkable_dir(r, limit, d - 1));
        let v = w.stack.last();
        directory_hands_out_its_listing(r, v);
        let (top, x) = dir_next(r, v);
        let outer = WalkView { stack: w.stack.drop_last(), ..w };
        assert forall|k: int| 0 <= k < d - 1 implies #[trigger] outer.walkable_dir(r, limit, k) by {
            assert(w.walkable_dir(r, limit, k));
        }
        match x {
            Err(_) => {},
            Ok(None) => {
                walk_hands_out_the_tree(r, outer, limit);
                assert(w.remaining(r, limit) =~= outer.remaining(r, limit));
            },
            Ok(Some(e)) => {
                let before = v.remaining(r);
                assert(before.first() == e);
                assert(before.drop_first() =~= top.remaining(r));
                let after = WalkView { stack: w.stack.drop_last().push(top), ..w };
                assert(after.stack.drop_last() =~= outer.stack);
                assert forall|k: int| 0 <= k < d implies #[trigger] after.walkable_dir(
                    r,
                    limit,
                    k,
                ) by {
                    if k < d - 1 {
                        assert(outer.walkable_dir(r, limit, k));
                    }
                }
                let inode = (r.inode)(e.nid)->Ok_0;
                let entry = WalkEntryView { depth: d as usize, dir_entry: e, inode };
                if descends(w.max_depth, d, e.file_type) {
                    listing_starts_with_all_entries(r, entry_path(e), inode);
                    let child = cursor_start(entry_path(e), inode, (r.block)(inode, 0)->Ok_0)->Ok_0;
                    let entered = WalkView { stack: after.stack.push(child), ..w };
                    assert(entered.stack.drop_last() =~= after.stack);
                    assert forall|k: int| 0 <= k < d + 1 implies #[trigger] entered.walkable_dir(
                        r,
                        limit,
                        k,
                    ) by {
                        if k < d {
                            assert(after.walkable_dir(r, limit, k));
                        }
                    }
                    let below = tree_entries(r, w.max_depth, limit, d + 1, child.remaining(r));
                    let level = tree_entries(r, w.max_depth, limit, d, top.remaining(r));
                    assert(after.remaining(r, limit) == level + outer.remaining(r, limit));
                    assert(entered.remaining(r, limit) == below + after.remaining(r, limit));
                    assert(tree_entries(r, w.max_depth, limit, d, before) == seq![entry] + below
                        + level);
                    assert(w.remaining(r, limit) =~= seq![entry] + entered.remaining(r, limit));
                } else {
                    assert(w.remaining(r, limit) =~= seq![entry] + after.remaining(r, limit));
                }
            },
        }
    }
}

/// All entries of a walk from `depth` on are at least that deep.
proof fn lemma_entries_are_deep(
    r: Reads,
    max_depth: usize,
    limit: int,
    depth: int,
    entries: Seq<DirEntryView>,
)
    requires
        0 <= depth <= limit <= usize::MAX,
    ensures
        ({
            let all = tree_entries(r, max_depth, limit, depth, entries);
            forall|x: int| 0 <= x < all.len() ==> (#[trigger] all[x]).depth >= depth
        }),
    decreases limit - depth, entries.len(),
{
    if entries.len() > 0 {
        let e = entries.first();
        let inode = (r.inode)(e.nid)->Ok_0;
        lemma_entries_are_deep(r, max_depth, limit, depth, entries.drop_first());
        if descends(max_depth, depth, e.file_type) && depth < limit {
            lemma_entries_are_deep(
                r,
                max_depth,
                limit,
                depth + 1,
                dir_listing(r, entry_path(e), inode, 0),
            );
        }
    }
}

proof fn lemma_filter_none(all: Seq<WalkEntryView>, keep: spec_fn(WalkEntryView) -> bool)
    requires
        forall|x: int| 0 <= x < all.len() ==> !keep(#[trigger] all[x]),
    ensures
        all.filter(keep) == Seq::<WalkEntryView>::empty(),
    decreases all.len(),
{
    reveal(Seq::filter);
    if all.len() > 0 {
        lemma_filter_none(all.drop_last(), keep);
    }
}

proof fn lemma_smaller_depth(
    r: Reads,
    a: usize,
    b: usize,
    limit: int,
    depth: int,
    entries: Seq<DirEntryView>,
    keep: spec_fn(WalkEntryView) -> bool,
)
    requires
        1 <= depth <= a,
        a <= b || b == 0,
        depth <= limit <= usize::MAX,
        forall|e: WalkEntryView| #[trigger] keep(e) == (e.depth <= a),
    ensures
        tree_entries(r, a, limit, depth, entries) == tree_entries(
            r,
            b,
            limit,
            depth,
            entries,
        ).filter(keep),
        walkable(r, b, limit, depth, entries) ==> walkable(r, a, limit, depth, entries),
    decreases limit - depth, entries.len(),
{
    reveal(Seq::filter);
    if entries.len() > 0 {
        let e = entries.first();
        let inode = (r.inode)(e.nid)->Ok_0;
        let children = dir_listing(r, entry_path(e), inode, 0);
        let here = seq![WalkEntryView { depth: depth as usize, dir_entry: e, inode }];
        let none = Seq::<WalkEntryView>::empty();
        let below_a = if descends(a, depth, e.file_type) && depth < limit {
            tree_entries(r, a, limit, depth + 1, children)
        } else {
            none
        };
        let below_b = if descends(b, depth, e.file_type) && depth < limit {
            tree_entries(r, b, limit, depth + 1, children)
        } else {
            none
        };
        if depth < limit {
            if depth < a {
                lemma_smaller_depth(r, a, b, limit, depth + 1, children, keep);
            } else {
                lemma_entries_are_deep(r, b, limit, depth + 1, children);
                lemma_filter_none(tree_entries(r, b, limit, depth + 1, children), keep);
            }
        }
        assert(below_a =~= below_b.filter(keep));
        let others = entries.drop_first();
        lemma_smaller_depth(r, a, b, limit, depth, others, keep);
        let rest_b = tree_entries(r, b, limit, depth, others);
        assert(here.drop_last() =~= none);
        assert(none.filter(keep) =~= none);
        assert(here.filter(keep) =~= here) by {
            assert(here.last().depth <= a);
        }
        Seq::filter_distributes_over_add(here, below_b, keep);
        Seq::filter_distributes_over_add(here + below_b, rest_b, keep);
    }
}

/// A smaller maximum depth gives the upper part of a larger one, or of a walk without one:
/// the entries up to that depth, in the same order. Where the deeper walk can be made, so
/// can the other.
pub proof fn smaller_depth_gives_the_upper_part(
    r: Reads,
    a: usize,
    b: usize,
    limit: int,
    entries: Seq<DirEntryView>,
)
    requires
        1 <= a,
        a <= b || b == 0,
        1 <= limit <= usize::MAX,
    ensures
        tree_entries(r, a, limit, 1, entries) == tree_entries(r, b, limit, 1, entries).filter(
            |e: WalkEntryView| e.depth <= a,
        ),
        walkable(r, b, limit, 1, entries) ==> walkable(r, a, limit, 1, entries),
{
    lemma_smaller_depth(r, a, b, limit, 1, entries, |e: WalkEntryView| e.depth <= a);
}

/// A walk that has only begun hands out, with a smaller maximum depth, the upper part of
/// what it hands out with a larger one, or without one.
pub proof fn shallower_walk_hands_out_the_upper_part(
    r: Reads,
    dir: CursorView,
    a: usize,
    b: usize,
    limit: int,
)
    requires
        1 <= a,
        a <= b || b == 0,
        (WalkView { stack: seq![dir], max_depth: b }).walkable(r, limit),
    ensures
        (WalkView { stack: seq![dir], max_depth: a }).walkable(r, limit),
        (WalkView { stack: seq![dir], max_depth: a }).remaining(r, limit) == (WalkView {
            stack: seq![dir],
            max_depth: b,
        }).remaining(r, limit).filter(|e: WalkEntryView| e.depth <= a),
{
    let shallow = WalkView { stack: seq![dir], max_depth: a };
    let deep = WalkView { stack: seq![dir], max_depth: b };
    assert(deep.walkable_dir(r, limit, 0));
    smaller_depth_gives_the_upper_part(r, a, b, limit, dir.remaining(r));
    lemma_only_directory(r, dir, a, limit);
    lemma_only_directory(r, dir, b, limit);
    assert forall|k: int| 0 <= k < shallow.stack.len() implies #[trigger] shallow.walkable_dir(
        r,
        limit,
        k,
    ) by {}
}

proof fn lemma_only_directory(r: Reads, dir: CursorView, max_depth: usize, limit: int)
    ensures
        (WalkView { stack: seq![dir], max_depth }).remaining(r, limit) == tree_entries(
            r,
            max_depth,
            limit,
            1,
            dir.remaining(r),
        ),
{
    let w = WalkView { stack: seq![dir], max_depth };
    assert(w.stack.last() == dir);
    let outer = WalkView { stack: w.stack.drop_last(), ..w };
    assert(outer.stack.len() == 0);
    assert(outer.remaining(r, limit) =~= seq![]);
    assert(w.remaining(r, limit) =~= tree_entries(r, max_depth, limit, 1, dir.remaining(r)));
}

/// A walk that starts at a directory has all entries below it before it.
pub proof fn walk_starts_with_the_tree(
    r: Reads,
    dir: Seq<u8>,
    inode: Inode,
    max_depth: usize,
    limit: int,
)
    requires
        1 <= limit <= usize::MAX,
        inode.data_size_spec() > 0,
        readable_dir(r, dir, inode, 0),
        walkable(r, max_depth, limit, 1, dir_listing(r, dir, inode, 0)),
    ensures
        ({
            let start = cursor_start(dir, inode, (r.block)(inode, 0)->Ok_0);
            let w = WalkView { stack: seq![start->Ok_0], max_depth };
            &&& start is Ok
            &&& w.walkable(r, limit)
            &&& w.remaining(r, limit) == tree_entries(
                r,
                max_depth,
                limit,
                1,
                dir_listing(r, dir, inode, 0),
            )
        }),
{
    listing_starts_with_all_entries(r, dir, inode);
    let start = cursor_start(dir, inode, (r.block)(inode, 0)->Ok_0)->Ok_0;
    let w = WalkView { stack: seq![start], max_depth };
    assert(w.stack.last() == start);
    let outer = WalkView { stack: w.stack.drop_last(), ..w };
    assert(outer.remaining(r, limit) =~= seq![]);
    assert(w.remaining(r, limit) =~= tree_entries(
        r,
        max_depth,
        limit,
        1,
        dir_listing(r, dir, inode, 0),
    ));
}

/// An entry that a directory lists is found by its path: where `dir_path` leads to the
/// directory, the path of the entry leads to its inode. The entry is the `k`-th of
/// the `j`-th block. The blocks up to that one can be read, their names are in order
/// and no other entry of them has the name. The name is text and that of a file.
pub proof fn listed_entry_is_found_by_its_path(
    core: EroFSCore,
    r: Reads,
    dir_path: Seq<u8>,
    dir: Inode,
    j: int,
    k: int,
)
    requires
        path_target(core, r, dir_path) == Ok::<Option<Inode>, ErrorView>(Some(dir)),
        dir.dir_spec(),
        0 <= j < units(dir.data_size_spec() as int, core.block_size as int),
        searchable_block(r, core.block_size, dir, j),
        0 <= k < entry_count(dir_block(r, core.block_size, dir, j)->Ok_0),
        ({
            let block = dir_block(r, core.block_size, dir, j)->Ok_0;
            let name = nth_name(block, k);
            &&& nth_id_name(block, k, entry_count(block)) is Ok
            &&& only_entry_named(block, k)
            &&& simple_name(name)
            &&& encode_utf8(nth_name_text(block, k)) == name
            &&& forall|m: int|
                0 <= m < j ==> #[trigger] searchable_block(r, core.block_size, dir, m)
                    && !named_in_block(r, core.block_size, dir, m, name)
        }),
    ensures
        ({
            let e = nth_entry(dir_path, dir_block(r, core.block_size, dir, j)->Ok_0, k);
            path_target(core, r, entry_path(e)) == (match (r.inode)(e.nid) {
                Err(e) => Err(e),
                Ok(inode) => Ok(Some(inode)),
            })
        }),
{
    let bs = core.block_size;
    let block = dir_block(r, bs, dir, j)->Ok_0;
    let name = nth_name(block, k);
    let root_nid = core.super_block.root_nid as u64;
    search_finds_every_entry(r, bs, dir, j, k);
    joined_path_has_one_part_more(dir_path, name);
    path_leads_through_its_directory(
        r,
        bs,
        route(dir_path),
        PartView::Normal(name),
        0,
        root_nid,
    );
}

impl WalkView {
    /// Whether the path of the `k`-th directory of the walk has `k` parts more than
    /// `root`.
    pub open spec fn nested(self, root: Seq<u8>, k: int) -> bool {
        &&& self.stack[k].block.root == self.stack[k].dir
        &&& route(self.stack[k].dir).len() == route(root).len() + k
    }

    /// Whether the directories of the walk lie below `root`, each one part deeper than
    /// the one before it.
    pub open spec fn below(self, root: Seq<u8>) -> bool {
        forall|k: int| 0 <= k < self.stack.len() ==> #[trigger] self.nested(root, k)
    }
}

/// The depth of an entry is between 1 and the number of directories that were being
/// listed, and no more than one directory more than the depth is listed behind it.
proof fn lemma_depth(r: Reads, w: WalkView)
    requires
        w.stack.len() <= usize::MAX,
    ensures
        ({
            let (after, x) = walk_next(r, w);
            x matches Some(Ok(e)) ==> {
                &&& 1 <= e.depth <= w.stack.len()
                &&& after.stack.len() <= e.depth + 1
                &&& (r.inode)(e.dir_entry.nid) == Ok::<Inode, ErrorView>(e.inode)
            }
        }),
    decreases w.stack.len(),
{
    if w.stack.len() > 0 {
        if dir_next(r, w.stack.last()).1 == Ok::<Option<DirEntryView>, ErrorView>(None) {
            lemma_depth(r, WalkView { stack: w.stack.drop_last(), ..w });
        }
    }
}

/// The path of an entry has as many parts more than the path where the walk started as
/// the entry is deep, and the entry comes with the inode of its node. The walk stays
/// below that path. The name of the entry is that of a file.
pub proof fn depth_counts_the_parts_of_a_path(r: Reads, w: WalkView, root: Seq<u8>)
    requires
        w.stack.len() <= usize::MAX,
        w.below(root),
        walk_next(r, w).1 matches Some(Ok(e)) ==> simple_name(
            encode_utf8(e.dir_entry.file_name),
        ),
    ensures
        ({
            let (after, x) = walk_next(r, w);
            &&& after.below(root)
            &&& x matches Some(Ok(e)) ==> {
                &&& e.depth >= 1
                &&& route(entry_path(e.dir_entry)).len() == route(root).len() + e.depth
                &&& (r.inode)(e.dir_entry.nid) == Ok::<Inode, ErrorView>(e.inode)
            }
        }),
    decreases w.stack.len(),
{
    if w.stack.len() > 0 {
        let d = w.stack.len() as int;
        let v = w.stack.last();
        assert(w.nested(root, d - 1));
        lemma_dir_next_keeps_the_path(r, v);
        let (top, x) = dir_next(r, v);
        let outer = WalkView { stack: w.stack.drop_last(), ..w };
        assert forall|k: int| 0 <= k < d - 1 implies #[trigger] outer.nested(root, k) by {
            assert(w.nested(root, k));
        }
        let after = WalkView { stack: w.stack.drop_last().push(top), ..w };
        assert forall|k: int| 0 <= k < d implies #[trigger] after.nested(root, k) by {
            if k < d - 1 {
                assert(outer.nested(root, k));
            }
        }
        match x {
            Err(_) => {},
            Ok(None) => {
                depth_counts_the_parts_of_a_path(r, outer, root);
            },
            Ok(Some(e)) => {
                let (visited, entry) = visit(r, after, e);
                if entry is Ok {
                    joined_path_has_one_part_more(e.dir, encode_utf8(e.file_name));
                }
                if visited.stack.len() > d {
                    assert forall|k: int| 0 <= k < d + 1 implies #[trigger] visited.nested(
                        root,
                        k,
                    ) by {
                        if k < d {
                            assert(after.nested(root, k));
                            assert(visited.stack[k] == after.stack[k]);
                        }
                    }
                } else {
                    assert(visited == after);
                }
            },
        }
    }
}

/// The depth grows by at most one from an entry of a walk to the next, and where only one
/// directory is being listed, as at the start, the entry has the depth 1.
pub proof fn depth_grows_by_at_most_one(r: Reads, w: WalkView)
    requires
        w.stack.len() < usize::MAX,
    ensures
        ({
            let (after, x) = walk_next(r, w);
            let (_, y) = walk_next(r, after);
            x matches Some(Ok(first)) ==> {
                &&& w.stack.len() == 1 ==> first.depth == 1
                &&& y matches Some(Ok(second)) ==> second.depth <= first.depth + 1
            }
        }),
{
    lemma_depth(r, w);
    let (after, x) = walk_next(r, w);
    if x is Some && x->0 is Ok {
        lemma_depth(r, after);
    }
}

/// Whether the `k`-th entry of the `i`-th block of a directory can be told by its name: it
/// can be read, no other entry has the name, and, unless it is `.` or `..`, the name is
/// text and that of a file.
pub open spec fn distinct_entry(r: Reads, bs: usize, dir: Inode, i: int, k: int) -> bool {
    let block = dir_block(r, bs, dir, i)->Ok_0;
    let name = nth_name(block, k);
    &&& nth_id_name(block, k, entry_count(block)) is Ok
    &&& !is_dot_name(nth_name_text(block, k)) ==> {
        &&& simple_name(name)
        &&& encode_utf8(nth_name_text(block, k)) == name
        &&& only_entry_named(block, k)
        &&& forall|m: int| 0 <= m < i ==> !#[trigger] named_in_block(r, bs, dir, m, name)
    }
}

/// Whether an inode is that of a directory in which every entry can be searched for: all
/// blocks can be read and have their size, their names are in order, and every entry
/// can be told by its name.
pub open spec fn searchable_dir(r: Reads, bs: usize, dir: Inode) -> bool {
    &&& dir.dir_spec()
    &&& forall|i: int|
        0 <= i < units(dir.data_size_spec() as int, bs as int) ==> #[trigger] searchable_block(
            r,
            bs,
            dir,
            i,
        ) && readable_block(r, bs, dir, i)
    &&& forall|i: int, k: int|
        0 <= i < units(dir.data_size_spec() as int, bs as int) && 0 <= k < entry_count(
            dir_block(r, bs, dir, i)->Ok_0,
        ) ==> #[trigger] distinct_entry(r, bs, dir, i, k)
}

/// Whether the inodes of `entries` of a directory at `depth` can be read, and every
/// directory below that a walk goes on in can be searched.
pub open spec fn searchable_tree(
    r: Reads,
    bs: usize,
    max_depth: usize,
    limit: int,
    depth: int,
    entries: Seq<DirEntryView>,
) -> bool
    decreases limit - depth, entries.len(),
{
    entries.len() == 0 || {
        let e = entries.first();
        let inode = (r.inode)(e.nid)->Ok_0;
        &&& (r.inode)(e.nid) is Ok
        &&& descends(max_depth, depth, e.file_type) && depth < limit ==> {
            &&& searchable_dir(r, bs, inode)
            &&& searchable_tree(
                r,
                bs,
                max_depth,
                limit,
                depth + 1,
                dir_listing(r, entry_path(e), inode, 0),
            )
        }
        &&& searchable_tree(r, bs, max_depth, limit, depth, entries.drop_first())
    }
}

/// Whether the path of an entry leads to the inode of its node.
pub open spec fn found_by_path(core: EroFSCore, r: Reads, e: DirEntryView) -> bool {
    path_target(core, r, entry_path(e)) == (match (r.inode)(e.nid) {
        Err(x) => Err(x),
        Ok(inode) => Ok(Some(inode)),
    })
}

proof fn lemma_block_entries_are_found(
    core: EroFSCore,
    r: Reads,
    dir_path: Seq<u8>,
    dir: Inode,
    j: int,
    k: int,
)
    requires
        path_target(core, r, dir_path) == Ok::<Option<Inode>, ErrorView>(Some(dir)),
        searchable_dir(r, core.block_size, dir),
        0 <= j < units(dir.data_size_spec() as int, core.block_size as int),
        0 <= k,
    ensures
        ({
            let all = listing(dir_path, dir_block(r, core.block_size, dir, j)->Ok_0, k);
            forall|x: int| 0 <= x < all.len() ==> found_by_path(core, r, #[trigger] all[x])
        }),
    decreases entry_count(dir_block(r, core.block_size, dir, j)->Ok_0) - k,
{
    let bs = core.block_size;
    let block = dir_block(r, bs, dir, j)->Ok_0;
    if k < entry_count(block) {
        lemma_block_entries_are_found(core, r, dir_path, dir, j, k + 1);
        assert(distinct_entry(r, bs, dir, j, k));
        assert(searchable_block(r, bs, dir, j));
        let rest = listing(dir_path, block, k + 1);
        if !is_dot_name(nth_name_text(block, k)) {
            let name = nth_name(block, k);
            assert forall|m: int| 0 <= m < j implies #[trigger] searchable_block(r, bs, dir, m)
                && !named_in_block(r, bs, dir, m, name) by {
                assert(searchable_block(r, bs, dir, m));
                assert(!named_in_block(r, bs, dir, m, name));
            }
            listed_entry_is_found_by_its_path(core, r, dir_path, dir, j, k);
            let e = nth_entry(dir_path, block, k);
            let all = listing(dir_path, block, k);
            assert(all == seq![e] + rest);
            assert forall|x: int| 0 <= x < all.len() implies found_by_path(
                core,
                r,
                #[trigger] all[x],
            ) by {
                if x > 0 {
                    assert(all[x] == rest[x - 1]);
                }
            }
        }
    }
}

proof fn lemma_dir_entries_are_found(
    core: EroFSCore,
    r: Reads,
    dir_path: Seq<u8>,
    dir: Inode,
    j: int,
)
    requires
        core.wf(),
        path_target(core, r, dir_path) == Ok::<Option<Inode>, ErrorView>(Some(dir)),
        searchable_dir(r, core.block_size, dir),
        0 <= j <= units(dir.data_size_spec() as int, core.block_size as int),
    ensures
        ({
            let all = dir_listing(r, dir_path, dir, j * core.block_size);
            forall|x: int| 0 <= x < all.len() ==> found_by_path(core, r, #[trigger] all[x])
        }),
    decreases units(dir.data_size_spec() as int, core.block_size as int) - j,
{
    let size = dir.data_size_spec() as int;
    let bs = core.block_size as int;
    let count = units(size, bs);
    let offset = j * bs;
    if j < count && offset < size {
        lemma_block_start(size, bs, j);
        assert(searchable_block(r, core.block_size, dir, j));
        let block = dir_block(r, core.block_size, dir, j)->Ok_0;
        assert((r.block)(dir, offset as usize)->Ok_0 == block);
        lemma_block_entries_are_found(core, r, dir_path, dir, j, 0);
        lemma_dir_entries_are_found(core, r, dir_path, dir, j + 1);
        assert((j + 1) * bs == offset + bs) by (nonlinear_arith)
            requires
                offset == j * bs,
        ;
        let here = listing(dir_path, block, 0);
        let rest = dir_listing(r, dir_path, dir, offset + block.len());
        let all = dir_listing(r, dir_path, dir, offset);
        assert(all == here + rest);
        assert forall|x: int| 0 <= x < all.len() implies found_by_path(
            core,
            r,
            #[trigger] all[x],
        ) by {
            if x < here.len() {
                assert(all[x] == here[x]);
            } else {
                assert(all[x] == rest[x - here.len()]);
            }
        }
    } else if j == count {
        lemma_last_block_end(size, bs);
    }
}

proof fn lemma_last_block_end(size: int, bs: int)
    requires
        0 <= size,
        1 <= bs,
    ensures
        units(size, bs) * bs >= size,
{
    if size > 0 {
        lemma_block_index(size, bs, size - 1);
        let last = units(size, bs) - 1;
        lemma_block_rest(size, bs, last);
        assert((last + 1) * bs == last * bs + bs) by (nonlinear_arith);
    } else {
        vstd::arithmetic::div_mod::lemma_small_mod(0, bs as nat);
        vstd::arithmetic::div_mod::lemma_basic_div(0, bs);
    }
}

proof fn lemma_tree_entries_are_found(
    core: EroFSCore,
    r: Reads,
    max_depth: usize,
    limit: int,
    depth: int,
    entries: Seq<DirEntryView>,
)
    requires
        core.wf(),
        searchable_tree(r, core.block_size, max_depth, limit, depth, entries),
        forall|x: int| 0 <= x < entries.len() ==> found_by_path(core, r, #[trigger] entries[x]),
    ensures
        ({
            let all = tree_entries(r, max_depth, limit, depth, entries);
            forall|x: int|
                0 <= x < all.len() ==> path_target(
                    core,
                    r,
                    entry_path((#[trigger] all[x]).dir_entry),
                ) == Ok::<Option<Inode>, ErrorView>(Some(all[x].inode))
        }),
    decreases limit - depth, entries.len(),
{
    if entries.len() > 0 {
        let e = entries.first();
        assert(found_by_path(core, r, entries[0]));
        let inode = (r.inode)(e.nid)->Ok_0;
        let here = WalkEntryView { depth: depth as usize, dir_entry: e, inode };
        let others = entries.drop_first();
        assert forall|x: int| 0 <= x < others.len() implies found_by_path(
            core,
            r,
            #[trigger] others[x],
        ) by {
            assert(others[x] == entries[x + 1]);
        }
        lemma_tree_entries_are_found(core, r, max_depth, limit, depth, others);
        let rest = tree_entries(r, max_depth, limit, depth, others);
        let children = dir_listing(r, entry_path(e), inode, 0);
        let below = if descends(max_depth, depth, e.file_type) && depth < limit {
            tree_entries(r, max_depth, limit, depth + 1, children)
        } else {
            seq![]
        };
        if descends(max_depth, depth, e.file_type) && depth < limit {
            vstd::arithmetic::div_mod::lemma_div_pos_is_pos(
                inode.data_size_spec() as int,
                core.block_size as int,
            );
            lemma_dir_entries_are_found(core, r, entry_path(e), inode, 0);
            lemma_tree_entries_are_found(core, r, max_depth, limit, depth + 1, children);
        }
        let all = tree_entries(r, max_depth, limit, depth, entries);
        assert(all == seq![here] + below + rest);
        assert forall|x: int| 0 <= x < all.len() implies path_target(
            core,
            r,
            entry_path((#[trigger] all[x]).dir_entry),
        ) == Ok::<Option<Inode>, ErrorView>(Some(all[x].inode)) by {
            if x == 0 {
                assert(all[x] == here);
            } else if x < 1 + below.len() {
                assert(all[x] == below[x - 1]);
            } else {
                assert(all[x] == rest[x - 1 - below.len()]);
            }
        }
    }
}

/// Every entry of a tree is found by its path: where `dir_path` leads to a directory that
/// can be searched, as can all directories below it, the path of each entry that a walk
/// from there has before it leads to the inode that the walk hands out with it. Where
/// that is a regular file, it can be opened by the path.
pub proof fn tree_entries_are_found_by_their_paths(
    core: EroFSCore,
    r: Reads,
    dir_path: Seq<u8>,
    dir: Inode,
    max_depth: usize,
    limit: int,
    x: int,
)
    requires
        core.wf(),
        path_target(core, r, dir_path) == Ok::<Option<Inode>, ErrorView>(Some(dir)),
        searchable_dir(r, core.block_size, dir),
        searchable_tree(
            r,
            core.block_size,
            max_depth,
            limit,
            1,
            dir_listing(r, dir_path, dir, 0),
        ),
        0 <= x < tree_entries(r, max_depth, limit, 1, dir_listing(r, dir_path, dir, 0)).len(),
    ensures
        ({
            let e = tree_entries(r, max_depth, limit, 1, dir_listing(r, dir_path, dir, 0))[x];
            let path = entry_path(e.dir_entry);
            &&& path_target(core, r, path) == Ok::<Option<Inode>, ErrorView>(Some(e.inode))
            &&& e.inode.file_spec() ==> file_at(path_target(core, r, path)->Ok_0, path) == Ok::<
                Inode,
                ErrorView,
            >(e.inode)
        }),
{
    vstd::arithmetic::div_mod::lemma_div_pos_is_pos(
        dir.data_size_spec() as int,
        core.block_size as int,
    );
    lemma_dir_entries_are_found(core, r, dir_path, dir, 0);
    lemma_tree_entries_are_found(
        core,
        r,
        max_depth,
        limit,
        1,
        dir_listing(r, dir_path, dir, 0),
    );
}

/// The next entry of a walk follows from one step of its innermost directory.
pub(crate) proof fn lemma_walk_by_steps(r: Reads, w: WalkView)
    requires
        w.stack.len() > 0,
        w.stack.last().wf(),
    ensures
        ({
            let v = w.stack.last();
            let (top, step) = cursor_step(v);
            let after = WalkView { stack: w.stack.drop_last().push(top), ..w };
            match step {
                Err(e) => walk_next(r, w) == (after, Some(Err::<WalkEntryView, ErrorView>(e))),
                Ok(DirStepView::Entry(e)) => walk_next(r, w) == ({
                    let (visited, entry) = visit(r, after, e);
                    (visited, Some(entry))
                }),
                Ok(DirStepView::End) => walk_next(r, w) == walk_next(
                    r,
                    WalkView { stack: w.stack.drop_last(), ..w },
                ),
                Ok(DirStepView::ReadBlock(offset)) => match (r.block)(v.inode, offset) {
                    Err(e) => walk_next(r, w) == (after, Some(Err::<WalkEntryView, ErrorView>(e))),
                    Ok(data) => match cursor_fed(top, data) {
                        Err(e) => walk_next(r, w) == (
                            after,
                            Some(Err::<WalkEntryView, ErrorView>(e)),
                        ),
                        Ok(fed) => walk_next(r, w) == walk_next(
                            r,
                            WalkView { stack: w.stack.drop_last().push(fed), ..w },
                        ),
                    },
                },
            }
        }),
{
    let v = w.stack.last();
    let (top, step) = cursor_step(v);
    if let Ok(DirStepView::ReadBlock(offset)) = step {
        if let Ok(data) = (r.block)(v.inode, offset) {
            if let Ok(fed) = cursor_fed(top, data) {
                let next = WalkView { stack: w.stack.drop_last().push(fed), ..w };
                assert(next.stack.last() == fed);
                assert(next.stack.drop_last() =~= w.stack.drop_last());
                assert(dir_next(r, v) == dir_next(r, fed));
            }
        }
    }
}

/// The walk of a tree.
#[derive(Debug)]
pub struct TreeWalk<D: Block> {
    stack: Vec<DirCursor<D>>,
    max_depth: usize,
}

/// The directories by their views.
pub open spec fn cursor_views<D: Block>(stack: Seq<DirCursor<D>>) -> Seq<CursorView> {
    stack.map_values(|c: DirCursor<D>| c@)
}

impl<D: Block> View for TreeWalk<D> {
    type V = WalkView;

    closed spec fn view(&self) -> WalkView {
        WalkView { stack: cursor_views(self.stack@), max_depth: self.max_depth }
    }
}

impl<D: Block> TreeWalk<D> {
    /// Starts to walk the directory `dir`, without a maximum depth.
    pub fn new(dir: DirCursor<D>) -> (w: Self)
        requires
            dir@.wf(),
        ensures
            w@ == (WalkView { stack: seq![dir@], max_depth: 0 }),
            w@.wf(),
    {
        let mut stack = Vec::new();
        stack.push(dir);
        let w = TreeWalk { stack, max_depth: 0 };
        assert(w@.stack =~= seq![dir@]);
        w
    }

    /// Sets the maximum depth to descend into subdirectories.
    ///
    /// A depth of 1 means only immediate children are returned (like `read_dir`).
    /// A depth of 0 (the default) means unlimited depth.
    pub fn max_depth(self, depth: usize) -> (w: Self)
        ensures
            w@ == (WalkView { max_depth: depth, ..self@ }),
    {
        TreeWalk { stack: self.stack, max_depth: depth }
    }

    /// How many directories are being listed: the depth of the entries that are
    /// handed out.
    pub fn depth(&self) -> (n: usize)
        ensures
            n == self@.stack.len(),
    {
        self.stack.len()
    }

    /// Hands out the next entry, or tells which block is needed for it.
    pub fn step(&mut self) -> (r: Result<WalkStep, Error>)
        requires
            old(self)@.wf(),
        ensures
            final(self)@.max_depth == old(self)@.max_depth,
            (final(self)@.stack, outcome(r)) == walk_step(old(self)@.stack),
            final(self)@.wf(),
    {
        loop
            invariant
                self@.wf(),
                self@.max_depth == old(self)@.max_depth,
                walk_step(self@.stack) == walk_step(old(self)@.stack),
            decreases self@.stack.len(),
        {
            let ghost before = self@.stack;
            match self.stack.pop() {
                None => {
                    return Ok(WalkStep::End);
                },
                Some(mut top) => {
                    assert(top@ == before.last());
                    assert(self@.stack =~= before.drop_last());
                    assert(top@.wf());
                    let r = top.step();
                    match r {
                        Err(e) => {
                            self.push_back(top, Ghost(before));
                            return Err(e);
                        },
                        Ok(DirStep::Entry(e)) => {
                            self.push_back(top, Ghost(before));
                            return Ok(WalkStep::Entry(e));
                        },
                        Ok(DirStep::ReadBlock(offset)) => {
                            let inode = top.inode();
                            self.push_back(top, Ghost(before));
                            return Ok(WalkStep::ReadBlock(inode, offset));
                        },
                        Ok(DirStep::End) => {},
                    }
                },
            }
        }
    }

    fn push_back(&mut self, top: DirCursor<D>, Ghost(before): Ghost<Seq<CursorView>>)
        requires
            0 < before.len() <= usize::MAX,
            old(self)@.stack == before.drop_last(),
            old(self)@.wf(),
            top@.wf(),
        ensures
            final(self)@.stack == before.drop_last().push(top@),
            final(self)@.max_depth == old(self)@.max_depth,
            final(self)@.wf(),
    {
        self.stack.push(top);
        assert(self@.stack =~= before.drop_last().push(top@));
        assert forall|k: int| 0 <= k < self@.stack.len() implies (#[trigger] self@.stack[k]).wf() by {
            if k < before.len() - 1 {
                assert(self@.stack[k] == old(self)@.stack[k]);
            }
        }
    }

    /// Takes the block of the innermost directory that was needed.
    pub fn block_read(&mut self, data: D) -> (r: Result<(), Error>)
        requires
            old(self)@.wf(),
            old(self)@.stack.len() > 0,
        ensures
            final(self)@.wf(),
            final(self)@.max_depth == old(self)@.max_depth,
            match cursor_fed(old(self)@.stack.last(), data.bytes()) {
                Ok(v) => r is Ok && final(self)@.stack == old(self)@.stack.drop_last().push(v),
                Err(e) => r is Err && r->Err_0@ == e && final(self)@.stack == old(self)@.stack,
            },
    {
        let ghost before = self@.stack;
        match self.stack.pop() {
            None => Ok(()),
            Some(mut top) => {
                assert(top@ == before.last());
                assert(self@.stack =~= before.drop_last());
                assert(top@.wf());
                let r = top.block_read(data);
                self.push_back(top, Ghost(before));
                assert(r is Err ==> self@.stack =~= before);
                r
            },
        }
    }

    /// Whether the walk goes on in the entry that was handed out.
    pub fn descends(&self, entry: &DirEntry) -> (b: bool)
        ensures
            b == descends(self@.max_depth, self@.stack.len() as int, entry@.file_type),
    {
        (self.stack.len() < self.max_depth || self.max_depth == 0) && entry.file_type().is_dir()
    }

    /// Goes on in the entry that was handed out: `inode` is its inode, and `data`
    /// its first block.
    pub fn enter(&mut self, entry: &DirEntry, inode: Inode, data: D) -> (r: Result<(), Error>)
        requires
            old(self)@.wf(),
        ensures
            final(self)@.max_depth == old(self)@.max_depth,
            final(self)@.wf(),
            match cursor_start(entry_path(entry@), inode, data.bytes()) {
                Ok(v) => r is Ok && final(self)@.stack == old(self)@.stack.push(v),
                Err(e) => r is Err && r->Err_0@ == e && final(self)@.stack == old(self)@.stack,
            },
    {
        let child = DirCursor::new(entry.path(), inode, data)?;
        self.stack.push(child);
        assert(self@.stack =~= old(self)@.stack.push(child@));
        assert(self.stack.len() == self@.stack.len());
        assert forall|k: int| 0 <= k < self@.stack.len() implies (#[trigger] self@.stack[k]).wf() by {
            if k < old(self)@.stack.len() {
                assert(self@.stack[k] == old(self)@.stack[k]);
            }
        }
        Ok(())
    }
}

} // verus!
