//! What walking a tree gives.

use vstd::prelude::*;

#[allow(unused_imports)]
use crate::cursor::{cursor_start, dir_listing, dir_next, CursorView};
#[allow(unused_imports)]
use crate::dirent::DirEntryView;
#[allow(unused_imports)]
use crate::error::ErrorView;
#[allow(unused_imports)]
use crate::filesystem::EroFSCore;
#[allow(unused_imports)]
use crate::laws::directories::{
    block_at, is_directory_listing, lemma_directory, sound_at, sound_directory,
};
#[allow(unused_imports)]
use crate::laws::paths::only_what_fits_is_opened;
#[allow(unused_imports)]
use crate::lookup::{path_target, Reads};
#[allow(unused_imports)]
use crate::path::joined;
#[allow(unused_imports)]
use crate::sync::filesystem::listed;
#[allow(unused_imports)]
use crate::sync::walkdir::walk_start;
#[allow(unused_imports)]
use crate::types::{DirentFileType, Inode};
#[allow(unused_imports)]
use crate::walk::{
    entry_path, tree_entries, walk_hands_out_the_tree, walk_next, walk_starts_with_the_tree,
    walkable, WalkEntryView, WalkView,
};
#[allow(unused_imports)]
use vstd::utf8::encode_utf8;

verus! {

/// Whether a walk with this maximum depth goes on below an entry: it is a directory, and the
/// maximum depth is 0, which means none, or larger than the depth of the entry.
pub open spec fn goes_on(max_depth: usize, depth: int, file_type: DirentFileType) -> bool {
    file_type == DirentFileType::Directory && (max_depth == 0 || depth < max_depth)
}

/// Behind an entry that is a directory a walk goes on with the first entry of that directory,
/// one level deeper, unless its maximum depth is reached. Behind any other entry it goes on
/// in the same directory. The entry comes with the inode of its node and with the depth of
/// the directory that it is in.
pub proof fn a_walk_goes_on_below_every_directory(r: Reads, w: WalkView)
    requires
        w.stack.len() <= usize::MAX,
    ensures
        ({
            let (after, x) = walk_next(r, w);
            &&& after.max_depth == w.max_depth
            &&& x matches Some(Ok(e)) ==> {
                &&& 1 <= e.depth <= w.stack.len()
                &&& (r.inode)(e.dir_entry.nid) == Ok::<Inode, ErrorView>(e.inode)
                &&& e.dir_entry.file_type == DirentFileType::Directory && (w.max_depth == 0
                    || e.depth < w.max_depth) ==> {
                    &&& after.stack.len() == e.depth + 1
                    &&& (r.block)(e.inode, 0) is Ok
                    &&& cursor_start(
                        joined(e.dir_entry.dir, encode_utf8(e.dir_entry.file_name)),
                        e.inode,
                        (r.block)(e.inode, 0)->Ok_0,
                    ) == Ok::<CursorView, ErrorView>(after.stack[e.depth as int])
                }
                &&& !(e.dir_entry.file_type == DirentFileType::Directory && (w.max_depth == 0
                    || e.depth < w.max_depth)) ==> after.stack.len() == e.depth
                &&& dir_next(r, w.stack[e.depth - 1]) == (
                    after.stack[e.depth - 1],
                    Ok::<Option<DirEntryView>, ErrorView>(Some(e.dir_entry)),
                )
                &&& forall|k: int|
                    0 <= k < e.depth - 1 ==> #[trigger] after.stack[k] == w.stack[k]
                &&& forall|k: int|
                    e.depth <= k < w.stack.len() ==> (#[trigger] dir_next(r, w.stack[k])).1 == Ok::<
                        Option<DirEntryView>,
                        ErrorView,
                    >(None)
            }
        }),
    decreases w.stack.len(),
{
    if w.stack.len() > 0 {
        let (top, x) = dir_next(r, w.stack.last());
        if x == Ok::<Option<DirEntryView>, ErrorView>(None) {
            let outer = WalkView { stack: w.stack.drop_last(), ..w };
            a_walk_goes_on_below_every_directory(r, outer);
            assert(forall|k: int| 0 <= k < outer.stack.len() ==> outer.stack[k] == w.stack[k]);
        } else if let Ok(Some(e)) = x {
            let after = WalkView { stack: w.stack.drop_last().push(top), ..w };
            assert(forall|k: int|
                0 <= k < w.stack.len() - 1 ==> #[trigger] after.stack[k] == w.stack[k]);
        }
    }
}

/// A walk ends where all of its directories are at their end, and only there.
pub proof fn a_walk_ends_with_its_directories(r: Reads, w: WalkView)
    ensures
        walk_next(r, w).1 is None <==> forall|k: int|
            0 <= k < w.stack.len() ==> (#[trigger] dir_next(r, w.stack[k])).1 == Ok::<
                Option<DirEntryView>,
                ErrorView,
            >(None),
    decreases w.stack.len(),
{
    if w.stack.len() > 0 {
        let outer = WalkView { stack: w.stack.drop_last(), ..w };
        a_walk_ends_with_its_directories(r, outer);
        let last = w.stack.len() - 1;
        assert(w.stack.last() == w.stack[last]);
        assert(forall|k: int| 0 <= k < outer.stack.len() ==> outer.stack[k] == w.stack[k]);
        if walk_next(r, w).1 is None {
            assert(dir_next(r, w.stack[last]).1 == Ok::<Option<DirEntryView>, ErrorView>(None));
            assert forall|k: int| 0 <= k < w.stack.len() implies (#[trigger] dir_next(
                r,
                w.stack[k],
            )).1 == Ok::<Option<DirEntryView>, ErrorView>(None) by {
                if k < last {
                    assert(outer.stack[k] == w.stack[k]);
                }
            }
        } else if forall|k: int|
            0 <= k < w.stack.len() ==> (#[trigger] dir_next(r, w.stack[k])).1 == Ok::<
                Option<DirEntryView>,
                ErrorView,
            >(None) {
            assert(dir_next(r, w.stack[last]).1 == Ok::<Option<DirEntryView>, ErrorView>(None));
            assert forall|k: int| 0 <= k < outer.stack.len() implies (#[trigger] dir_next(
                r,
                outer.stack[k],
            )).1 == Ok::<Option<DirEntryView>, ErrorView>(None) by {
                assert(dir_next(r, w.stack[k]).1 == Ok::<Option<DirEntryView>, ErrorView>(None));
            }
        }
    }
}

/// What a walk cannot read is handed out as an error, and the walk stays in its directory:
/// an entry, the inode of an entry, and the first block of a directory that it would go on
/// in.
pub proof fn what_a_walk_cannot_read_is_handed_out(r: Reads, w: WalkView)
    requires
        w.stack.len() > 0,
    ensures
        ({
            let (top, next) = dir_next(r, w.stack[w.stack.len() - 1]);
            let (after, x) = walk_next(r, w);
            let depth = w.stack.len() as int;
            &&& next matches Err(e) ==> {
                &&& x == Some(Err::<WalkEntryView, ErrorView>(e))
                &&& after.stack.len() == depth
            }
            &&& next matches Ok(Some(entry)) ==> {
                &&& (r.inode)(entry.nid) matches Err(e) ==> {
                    &&& x == Some(Err::<WalkEntryView, ErrorView>(e))
                    &&& after.stack.len() == depth
                    &&& after.stack[depth - 1] == top
                }
                &&& (r.inode)(entry.nid) matches Ok(inode) ==> goes_on(
                    w.max_depth,
                    depth,
                    entry.file_type,
                ) ==> {
                    &&& (r.block)(inode, 0) matches Err(e) ==> {
                        &&& x == Some(Err::<WalkEntryView, ErrorView>(e))
                        &&& after.stack.len() == depth
                        &&& after.stack[depth - 1] == top
                    }
                    &&& (r.block)(inode, 0) matches Ok(data) ==> data.len() < 12 ==> {
                        &&& x == Some(Err::<WalkEntryView, ErrorView>(ErrorView::UnexpectedEof))
                        &&& after.stack.len() == depth
                        &&& after.stack[depth - 1] == top
                    }
                }
            }
        }),
{
}

/// Whether the tree below `entries` of a directory at `depth` can be walked: all inodes can
/// be read, the directories that the walk goes on in have blocks of a directory, and none
/// of them lies below the depth `limit`.
pub open spec fn sound_tree(
    r: Reads,
    bs: usize,
    max_depth: usize,
    limit: int,
    depth: int,
    entries: Seq<DirEntryView>,
) -> bool
    decreases limit - depth, entries.len(),
{
    entries.len() == 0 || {
        let e = entries.first();
        let inode = (r.inode)(e.nid)->Ok_0;
        &&& (r.inode)(e.nid) is Ok
        &&& goes_on(max_depth, depth, e.file_type) ==> {
            &&& depth < limit
            &&& sound_directory(r, bs, inode)
            &&& sound_tree(
                r,
                bs,
                max_depth,
                limit,
                depth + 1,
                dir_listing(r, joined(e.dir, encode_utf8(e.file_name)), inode, 0),
            )
        }
        &&& sound_tree(r, bs, max_depth, limit, depth, entries.drop_first())
    }
}

/// Whether `all` is the tree of `entries` of a directory at `depth`: each entry with its
/// inode and the depth, and right behind a directory all entries below it, one level
/// deeper.
pub open spec fn is_tree(
    all: Seq<WalkEntryView>,
    r: Reads,
    max_depth: usize,
    limit: int,
    depth: int,
    entries: Seq<DirEntryView>,
) -> bool
    decreases limit - depth, entries.len(),
{
    if entries.len() == 0 {
        all.len() == 0
    } else {
        let e = entries.first();
        let inode = (r.inode)(e.nid)->Ok_0;
        &&& all.len() > 0
        &&& all[0].dir_entry == e
        &&& all[0].depth == depth
        &&& all[0].inode == inode
        &&& if goes_on(max_depth, depth, e.file_type) && depth < limit {
            exists|n: int|
                {
                    &&& 1 <= n <= all.len()
                    &&& is_tree(
                        all.subrange(1, n),
                        r,
                        max_depth,
                        limit,
                        depth + 1,
                        dir_listing(r, joined(e.dir, encode_utf8(e.file_name)), inode, 0),
                    )
                    &&& is_tree(
                        #[trigger] all.subrange(n, all.len() as int),
                        r,
                        max_depth,
                        limit,
                        depth,
                        entries.drop_first(),
                    )
                }
        } else {
            is_tree(
                all.subrange(1, all.len() as int),
                r,
                max_depth,
                limit,
                depth,
                entries.drop_first(),
            )
        }
    }
}

proof fn lemma_tree(
    r: Reads,
    bs: usize,
    max_depth: usize,
    limit: int,
    depth: int,
    entries: Seq<DirEntryView>,
)
    requires
        sound_tree(r, bs, max_depth, limit, depth, entries),
        0 <= depth <= limit <= usize::MAX,
    ensures
        walkable(r, max_depth, limit, depth, entries),
        is_tree(
            tree_entries(r, max_depth, limit, depth, entries),
            r,
            max_depth,
            limit,
            depth,
            entries,
        ),
    decreases limit - depth, entries.len(),
{
    if entries.len() > 0 {
        let e = entries.first();
        let inode = (r.inode)(e.nid)->Ok_0;
        let path = joined(e.dir, encode_utf8(e.file_name));
        assert(path == entry_path(e));
        let all = tree_entries(r, max_depth, limit, depth, entries);
        let rest = tree_entries(r, max_depth, limit, depth, entries.drop_first());
        let here = seq![WalkEntryView { depth: depth as usize, dir_entry: e, inode }];
        lemma_tree(r, bs, max_depth, limit, depth, entries.drop_first());
        if goes_on(max_depth, depth, e.file_type) {
            let inner = dir_listing(r, path, inode, 0);
            assert(0 * bs == 0) by (nonlinear_arith);
            lemma_directory(r, bs, path, inode, 0);
            lemma_tree(r, bs, max_depth, limit, depth + 1, inner);
            let below = tree_entries(r, max_depth, limit, depth + 1, inner);
            assert(all == here + below + rest);
            let n = 1 + below.len() as int;
            assert(all.subrange(1, n) =~= below);
            assert(all.subrange(n, all.len() as int) =~= rest);
        } else {
            assert(all =~= here + rest);
            assert(all.subrange(1, all.len() as int) =~= rest);
        }
    }
}

/// What a walk hands out when it is asked for the next entry again and again.
pub open spec fn walk_handed_out(r: Reads, w: WalkView, times: nat) -> Seq<WalkEntryView>
    decreases times,
{
    if times == 0 {
        seq![]
    } else {
        match walk_next(r, w).1 {
            Some(Ok(e)) => seq![e] + walk_handed_out(r, walk_next(r, w).0, (times - 1) as nat),
            _ => seq![],
        }
    }
}

proof fn lemma_walk_handed_out(r: Reads, w: WalkView, limit: int, times: nat)
    requires
        w.walkable(r, limit),
        times >= w.remaining(r, limit).len(),
    ensures
        walk_handed_out(r, w, times) == w.remaining(r, limit),
    decreases times,
{
    walk_hands_out_the_tree(r, w, limit);
    let (after, x) = walk_next(r, w);
    if times > 0 {
        if let Some(Ok(e)) = x {
            assert(w.remaining(r, limit) == seq![e] + after.remaining(r, limit));
            lemma_walk_handed_out(r, after, limit, (times - 1) as nat);
        } else {
            assert(w.remaining(r, limit) =~= seq![]);
        }
    } else {
        assert(w.remaining(r, limit) =~= seq![]);
    }
}

/// A walk from a directory hands out the whole tree below it, each entry once and every
/// directory before what is in it, when it is asked often enough. A maximum depth of 0
/// means none.
pub proof fn a_walk_hands_out_the_whole_tree(
    r: Reads,
    bs: usize,
    dir_path: Seq<u8>,
    dir: Inode,
    max_depth: usize,
    limit: int,
    times: nat,
)
    requires
        1 <= limit <= usize::MAX,
        sound_directory(r, bs, dir),
        sound_tree(r, bs, max_depth, limit, 1, dir_listing(r, dir_path, dir, 0)),
        times >= tree_entries(r, max_depth, limit, 1, dir_listing(r, dir_path, dir, 0)).len(),
    ensures
        is_directory_listing(dir_listing(r, dir_path, dir, 0), r, bs, dir_path, dir, 0),
        cursor_start(dir_path, dir, block_at(r, bs, dir, 0)) is Ok,
        is_tree(
            walk_handed_out(
                r,
                WalkView {
                    stack: seq![cursor_start(dir_path, dir, block_at(r, bs, dir, 0))->Ok_0],
                    max_depth,
                },
                times,
            ),
            r,
            max_depth,
            limit,
            1,
            dir_listing(r, dir_path, dir, 0),
        ),
{
    assert(0 * bs == 0) by (nonlinear_arith);
    lemma_directory(r, bs, dir_path, dir, 0);
    lemma_tree(r, bs, max_depth, limit, 1, dir_listing(r, dir_path, dir, 0));
    walk_starts_with_the_tree(r, dir_path, dir, max_depth, limit);
    lemma_walk_handed_out(
        r,
        WalkView {
            stack: seq![cursor_start(dir_path, dir, block_at(r, bs, dir, 0))->Ok_0],
            max_depth,
        },
        limit,
        times,
    );
}

/// A walk of a path that leads to a directory hands out the whole tree below it.
pub proof fn a_path_is_walked_from_its_directory(
    core: EroFSCore,
    r: Reads,
    path: Seq<u8>,
    dir: Inode,
    limit: int,
    times: nat,
)
    requires
        path_target(core, r, path) == Ok::<Option<Inode>, ErrorView>(Some(dir)),
        dir.mode_spec() / 0x1000 == 4,
        1 <= limit <= usize::MAX,
        sound_directory(r, core.block_size, dir),
        sound_tree(r, core.block_size, 0, limit, 1, dir_listing(r, path, dir, 0)),
        times >= tree_entries(r, 0, limit, 1, dir_listing(r, path, dir, 0)).len(),
    ensures
        walk_start(core, r, path) is Ok,
        is_tree(
            walk_handed_out(r, walk_start(core, r, path)->Ok_0, times),
            r,
            0,
            limit,
            1,
            dir_listing(r, path, dir, 0),
        ),
        is_directory_listing(dir_listing(r, path, dir, 0), r, core.block_size, path, dir, 0),
{
    lemma_walk_start(core, r, path, dir);
    a_walk_hands_out_the_whole_tree(r, core.block_size, path, dir, 0, limit, times);
}

proof fn lemma_walk_start(core: EroFSCore, r: Reads, path: Seq<u8>, dir: Inode)
    requires
        path_target(core, r, path) == Ok::<Option<Inode>, ErrorView>(Some(dir)),
        dir.mode_spec() / 0x1000 == 4,
        sound_directory(r, core.block_size, dir),
        cursor_start(path, dir, block_at(r, core.block_size, dir, 0)) is Ok,
    ensures
        walk_start(core, r, path) == Ok::<WalkView, ErrorView>(
            WalkView {
                stack: seq![
                    cursor_start(path, dir, block_at(r, core.block_size, dir, 0))->Ok_0,
                ],
                max_depth: 0,
            },
        ),
{
    assert(0 * core.block_size == 0) by (nonlinear_arith);
    assert(sound_at(r, core.block_size, dir, 0));
    only_what_fits_is_opened(Some(dir), path);
}

/// Listing a path that leads to a directory hands out the entries of that directory and
/// nothing below them.
pub proof fn a_path_is_listed_alone(
    core: EroFSCore,
    r: Reads,
    path: Seq<u8>,
    dir: Inode,
    times: nat,
)
    requires
        path_target(core, r, path) == Ok::<Option<Inode>, ErrorView>(Some(dir)),
        dir.mode_spec() / 0x1000 == 4,
        sound_directory(r, core.block_size, dir),
        forall|c: int|
            0 <= c < dir_listing(r, path, dir, 0).len() ==> (r.inode)(
                (#[trigger] dir_listing(r, path, dir, 0)[c]).nid,
            ) is Ok,
        times >= dir_listing(r, path, dir, 0).len(),
    ensures
        listed(walk_start(core, r, path)) is Ok,
        ({
            let entries = dir_listing(r, path, dir, 0);
            let all = walk_handed_out(r, listed(walk_start(core, r, path))->Ok_0, times);
            &&& is_directory_listing(entries, r, core.block_size, path, dir, 0)
            &&& all.len() == entries.len()
            &&& forall|c: int|
                0 <= c < all.len() ==> {
                    &&& (#[trigger] all[c]).dir_entry == entries[c]
                    &&& all[c].depth == 1
                    &&& (r.inode)(entries[c].nid) == Ok::<Inode, ErrorView>(all[c].inode)
                }
        }),
{
    let entries = dir_listing(r, path, dir, 0);
    lemma_flat_tree(r, core.block_size, entries);
    a_walk_hands_out_the_whole_tree(r, core.block_size, path, dir, 1, 1, times);
    lemma_walk_start(core, r, path, dir);
    lemma_flat(walk_handed_out(r, listed(walk_start(core, r, path))->Ok_0, times), r, entries);
}

proof fn lemma_flat_tree(r: Reads, bs: usize, entries: Seq<DirEntryView>)
    requires
        forall|c: int| 0 <= c < entries.len() ==> (r.inode)((#[trigger] entries[c]).nid) is Ok,
    ensures
        sound_tree(r, bs, 1, 1, 1, entries),
        tree_entries(r, 1, 1, 1, entries).len() == entries.len(),
    decreases entries.len(),
{
    if entries.len() > 0 {
        let rest = entries.drop_first();
        assert(entries[0] == entries.first());
        assert forall|c: int| 0 <= c < rest.len() implies (r.inode)(
            (#[trigger] rest[c]).nid,
        ) is Ok by {
            assert(rest[c] == entries[c + 1]);
        }
        lemma_flat_tree(r, bs, rest);
    }
}

proof fn lemma_flat(all: Seq<WalkEntryView>, r: Reads, entries: Seq<DirEntryView>)
    requires
        is_tree(all, r, 1, 1, 1, entries),
        forall|c: int| 0 <= c < entries.len() ==> (r.inode)((#[trigger] entries[c]).nid) is Ok,
    ensures
        all.len() == entries.len(),
        forall|c: int|
            0 <= c < all.len() ==> {
                &&& (#[trigger] all[c]).dir_entry == entries[c]
                &&& all[c].depth == 1
                &&& (r.inode)(entries[c].nid) == Ok::<Inode, ErrorView>(all[c].inode)
            },
    decreases entries.len(),
{
    if entries.len() > 0 {
        let rest = all.subrange(1, all.len() as int);
        let others = entries.drop_first();
        assert(entries[0] == entries.first());
        assert forall|c: int| 0 <= c < others.len() implies (r.inode)(
            (#[trigger] others[c]).nid,
        ) is Ok by {
            assert(others[c] == entries[c + 1]);
        }
        lemma_flat(rest, r, others);
        assert forall|c: int| 0 < c < all.len() implies #[trigger] all[c] == rest[c - 1]
            && entries[c] == others[c - 1] by {}
    }
}

/// Behind every directory that a walk has before it come all entries of that directory, one
/// level deeper, unless the maximum depth is reached: a maximum depth of 0 means none.
pub proof fn all_entries_of_a_directory_follow_it(
    r: Reads,
    max_depth: usize,
    limit: int,
    depth: int,
    entries: Seq<DirEntryView>,
    x: int,
    c: int,
) -> (y: int)
    requires
        0 <= depth <= limit <= usize::MAX,
        0 <= x < tree_entries(r, max_depth, limit, depth, entries).len(),
        ({
            let e = tree_entries(r, max_depth, limit, depth, entries)[x];
            let path = joined(e.dir_entry.dir, encode_utf8(e.dir_entry.file_name));
            &&& e.dir_entry.file_type == DirentFileType::Directory
            &&& max_depth == 0 || e.depth < max_depth
            &&& e.depth < limit
            &&& 0 <= c < dir_listing(r, path, e.inode, 0).len()
        }),
    ensures
        ({
            let all = tree_entries(r, max_depth, limit, depth, entries);
            let e = all[x];
            let path = joined(e.dir_entry.dir, encode_utf8(e.dir_entry.file_name));
            &&& x < y < all.len()
            &&& all[y].depth == e.depth + 1
            &&& all[y].dir_entry == dir_listing(r, path, e.inode, 0)[c]
        }),
    decreases limit - depth, entries.len(),
{
    let e = entries.first();
    let inode = (r.inode)(e.nid)->Ok_0;
    let path = joined(e.dir, encode_utf8(e.file_name));
    let inner = dir_listing(r, path, inode, 0);
    let all = tree_entries(r, max_depth, limit, depth, entries);
    let rest = tree_entries(r, max_depth, limit, depth, entries.drop_first());
    let here = seq![WalkEntryView { depth: depth as usize, dir_entry: e, inode }];
    let below = if goes_on(max_depth, depth, e.file_type) && depth < limit {
        tree_entries(r, max_depth, limit, depth + 1, inner)
    } else {
        seq![]
    };
    assert(path == entry_path(e));
    assert(all =~= here + below + rest);
    if x == 0 {
        let z = lemma_listed(r, max_depth, limit, depth + 1, inner, c);
        assert(all[1 + z] == below[z]);
        1 + z
    } else if x < 1 + below.len() {
        assert(all[x] == below[x - 1]);
        let z = all_entries_of_a_directory_follow_it(
            r,
            max_depth,
            limit,
            depth + 1,
            inner,
            x - 1,
            c,
        );
        assert(all[1 + z] == below[z]);
        1 + z
    } else {
        let before = 1 + below.len() as int;
        assert(all[x] == rest[x - before]);
        let z = all_entries_of_a_directory_follow_it(
            r,
            max_depth,
            limit,
            depth,
            entries.drop_first(),
            x - before,
            c,
        );
        assert(all[before + z] == rest[z]);
        before + z
    }
}

/// Every entry of a directory is in the tree, at the depth of the directory.
proof fn lemma_listed(
    r: Reads,
    max_depth: usize,
    limit: int,
    depth: int,
    entries: Seq<DirEntryView>,
    c: int,
) -> (y: int)
    requires
        0 <= depth <= usize::MAX,
        0 <= c < entries.len(),
    ensures
        ({
            let all = tree_entries(r, max_depth, limit, depth, entries);
            &&& 0 <= y < all.len()
            &&& all[y].depth == depth
            &&& all[y].dir_entry == entries[c]
        }),
    decreases entries.len(),
{
    let all = tree_entries(r, max_depth, limit, depth, entries);
    if c == 0 {
        0
    } else {
        let rest = tree_entries(r, max_depth, limit, depth, entries.drop_first());
        let z = lemma_listed(r, max_depth, limit, depth, entries.drop_first(), c - 1);
        let before = all.len() - rest.len();
        assert(all[before + z] == rest[z]);
        before + z
    }
}

} // verus!
