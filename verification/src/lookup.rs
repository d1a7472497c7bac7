//! Following a path from the root directory, one read after the other.
//!
//! [`PathLookup`] decides what has to be read next and what follows from it. It
//! reads nothing itself, so the reads can be made in any way.

use crate::dirent::find_entry;
use crate::error::Error;
use crate::filesystem::count_units;
use crate::path::{to_string_lossy, PathPart};
use crate::text::to_decimal;
use crate::types::Inode;
use vstd::prelude::*;
use vstd::string::StringExecFns;

#[allow(unused_imports)]
use crate::dirent::{
    block_lookup, block_lookup_finds_every_entry, block_lookup_finds_nothing_else, entry_count,
    entry_named, nth_id_name, nth_name, nth_nid, only_entry_named, sorted_block,
};
#[allow(unused_imports)]
use crate::error::{outcome, ErrorView};
#[allow(unused_imports)]
use crate::filesystem::{lemma_units_bound, units, EroFSCore};
#[allow(unused_imports)]
use crate::path::{only_the_first_part_is_the_root, part_views, path_text, route, PartView};
#[allow(unused_imports)]
use crate::text::decimal;

verus! {

/// What reading from an image gives.
pub struct Reads {
    /// The inode of a node.
    pub inode: spec_fn(u64) -> Result<Inode, ErrorView>,
    /// The block of a file that holds the byte at an offset.
    pub block: spec_fn(Inode, usize) -> Result<Seq<u8>, ErrorView>,
}

impl EroFSCore {
    /// What reading from the image `img` gives.
    pub open spec fn reads(self, img: Seq<u8>) -> Reads {
        Reads {
            inode: |nid: u64| self.inode_in(img, nid),
            block: |inode: Inode, offset: usize| self.block_in(img, inode, offset),
        }
    }
}

/// What searching the blocks of a directory from the `i`-th on for a name
/// gives: the node of the first block that has the name.
pub open spec fn search(r: Reads, bs: usize, dir: Inode, name: Seq<u8>, i: int) -> Result<
    Option<u64>,
    ErrorView,
>
    decreases units(dir.data_size_spec() as int, bs as int) - i,
{
    if i >= units(dir.data_size_spec() as int, bs as int) {
        Ok(None)
    } else {
        match (r.block)(dir, (i * bs) as usize) {
            Err(e) => Err(e),
            Ok(block) => match block_lookup(name, block) {
                Err(e) => Err(e),
                Ok(Some(nid)) => Ok(Some(nid)),
                Ok(None) => search(r, bs, dir, name, i + 1),
            },
        }
    }
}

/// The node that a name leads to in `dir`. Where that is not a directory, there is
/// none.
pub open spec fn child(r: Reads, bs: usize, dir: Inode, name: Seq<u8>) -> Result<
    Option<u64>,
    ErrorView,
> {
    if dir.dir_spec() {
        search(r, bs, dir, name, 0)
    } else {
        Ok(None)
    }
}

/// What following the parts of a path from the `k`-th on gives, starting at the
/// node `nid`: the inode at its end, or `None` where a part is not found. Nothing is
/// found in what is not a directory. A root directory part leads nowhere else.
pub open spec fn resolve(r: Reads, bs: usize, parts: Seq<PartView>, k: int, nid: u64) -> Result<
    Option<Inode>,
    ErrorView,
>
    decreases parts.len() - k,
{
    if k >= parts.len() {
        match (r.inode)(nid) {
            Err(e) => Err(e),
            Ok(inode) => Ok(Some(inode)),
        }
    } else if parts[k] is RootDir {
        resolve(r, bs, parts, k + 1, nid)
    } else {
        match (r.inode)(nid) {
            Err(e) => Err(e),
            Ok(dir) => match child(r, bs, dir, parts[k].bytes()) {
                Err(e) => Err(e),
                Ok(None) => Ok(None),
                Ok(Some(found)) => resolve(r, bs, parts, k + 1, found),
            },
        }
    }
}

/// Where a path leads, from the root directory of an image.
pub open spec fn path_target(core: EroFSCore, r: Reads, path: Seq<u8>) -> Result<
    Option<Inode>,
    ErrorView,
> {
    resolve(r, core.block_size, route(path), 0, core.super_block.root_nid as u64)
}

/// The inode of a regular file.
pub open spec fn regular_file(inode: Inode) -> Result<Inode, ErrorView> {
    if inode.file_spec() {
        Ok(inode)
    } else {
        Err(
            ErrorView::NotAFile(
                "inode "@ + decimal(inode.nid as nat) + " is not a regular file"@,
            ),
        )
    }
}

/// The regular file that was found at `path`.
pub open spec fn file_at(found: Option<Inode>, path: Seq<u8>) -> Result<Inode, ErrorView> {
    match found {
        None => Err(ErrorView::PathNotFound(path_text(path))),
        Some(inode) => regular_file(inode),
    }
}

/// The directory that was found at `path`.
pub open spec fn dir_at(found: Option<Inode>, path: Seq<u8>) -> Result<Inode, ErrorView> {
    match found {
        None => Err(ErrorView::PathNotFound(path_text(path))),
        Some(inode) => if inode.dir_spec() {
            Ok(inode)
        } else {
            Err(ErrorView::NotADirectory(path_text(path)))
        },
    }
}

/// Checks that an inode is that of a regular file.
pub fn require_regular_file(inode: Inode) -> (r: Result<Inode, Error>)
    ensures
        outcome(r) == regular_file(inode),
{
    if !inode.is_file() {
        let mut text = "inode ".to_string();
        text.append(to_decimal(inode.id()).as_str());
        text.append(" is not a regular file");
        return Err(Error::NotAFile(text));
    }
    Ok(inode)
}

/// Checks that a regular file was found at `path`.
pub fn require_file(found: Option<Inode>, path: &[u8]) -> (r: Result<Inode, Error>)
    ensures
        outcome(r) == file_at(found, path@),
{
    match found {
        None => Err(Error::PathNotFound(to_string_lossy(path))),
        Some(inode) => require_regular_file(inode),
    }
}

/// Checks that a directory was found at `path`.
pub fn require_dir(found: Option<Inode>, path: &[u8]) -> (r: Result<Inode, Error>)
    ensures
        outcome(r) == dir_at(found, path@),
{
    match found {
        None => Err(Error::PathNotFound(to_string_lossy(path))),
        Some(inode) => {
            if !inode.is_dir() {
                return Err(Error::NotADirectory(to_string_lossy(path)));
            }
            Ok(inode)
        },
    }
}

/// What a lookup has to be given next.
#[derive(Debug, Clone, Copy, PartialEq, Eq, Structural)]
pub enum LookupStep {
    /// The inode of a node.
    ReadInode(u64),
    /// The block of a directory that holds the byte at an offset.
    ReadBlock(Inode, usize),
    /// Nothing: this is the inode, or there is none.
    Finished(Option<Inode>),
}

#[derive(Debug, Clone, Copy, PartialEq, Eq, Structural)]
pub enum LookupState {
    /// The inode of the node is needed.
    Inode,
    /// The `i`-th block of the directory is needed.
    Block { dir: Inode, i: usize },
    /// The end was reached.
    Finished(Option<Inode>),
}

/// How far a path has been followed.
pub struct LookupView {
    /// The path.
    pub parts: Seq<PartView>,
    /// The part that comes next.
    pub k: int,
    /// The node that was reached.
    pub nid: u64,
    pub state: LookupState,
    pub block_size: usize,
}

impl LookupView {
    pub open spec fn wf(self) -> bool {
        &&& self.block_size > 1
        &&& 0 <= self.k <= self.parts.len()
        &&& self.state matches LookupState::Block { dir, i } ==> {
            &&& self.k < self.parts.len()
            &&& i < units(dir.data_size_spec() as int, self.block_size as int)
        }
        &&& self.state is Inode && self.k < self.parts.len() ==> !(self.parts[self.k] is RootDir)
    }

    /// What has to be read next.
    pub open spec fn step(self) -> LookupStep {
        match self.state {
            LookupState::Inode => LookupStep::ReadInode(self.nid),
            LookupState::Block { dir, i } => LookupStep::ReadBlock(
                dir,
                (i * self.block_size) as usize,
            ),
            LookupState::Finished(inode) => LookupStep::Finished(inode),
        }
    }

    /// What the lookup ends with where all that it has to be given is what `r`
    /// reads.
    pub open spec fn result(self, r: Reads) -> Result<Option<Inode>, ErrorView> {
        match self.state {
            LookupState::Inode => resolve(r, self.block_size, self.parts, self.k, self.nid),
            LookupState::Block { dir, i } => match search(
                r,
                self.block_size,
                dir,
                self.parts[self.k].bytes(),
                i as int,
            ) {
                Err(e) => Err(e),
                Ok(None) => Ok(None),
                Ok(Some(found)) => resolve(r, self.block_size, self.parts, self.k + 1, found),
            },
            LookupState::Finished(inode) => Ok(inode),
        }
    }

    /// How many parts of the path are left.
    pub open spec fn parts_left(self) -> int {
        self.parts.len() - self.k
    }

    /// How many reads the part that comes next can still take, and one more.
    pub open spec fn reads_left(self) -> int {
        match self.state {
            LookupState::Inode => usize::MAX + 2,
            LookupState::Block { dir, i } => 1 + units(
                dir.data_size_spec() as int,
                self.block_size as int,
            ) - i,
            LookupState::Finished(_) => 0,
        }
    }

    /// Whether the lookup has come further than `v`.
    pub open spec fn further_than(self, v: LookupView) -> bool {
        ||| 0 <= self.parts_left() < v.parts_left()
        ||| self.parts_left() == v.parts_left() && 0 <= self.reads_left() < v.reads_left()
    }
}

/// The first part from the `k`-th on that is not a root directory.
pub open spec fn skip_root(parts: Seq<PartView>, k: int) -> int
    decreases parts.len() - k,
{
    if k < parts.len() && parts[k] is RootDir {
        skip_root(parts, k + 1)
    } else {
        k
    }
}

/// The lookup that has reached the node `nid` with the part `k` to come.
pub open spec fn lookup_at(parts: Seq<PartView>, k: int, nid: u64, block_size: usize) -> LookupView {
    LookupView {
        parts,
        k: skip_root(parts, k),
        nid,
        state: LookupState::Inode,
        block_size,
    }
}

/// The lookup after the inode it needs was read.
pub open spec fn after_inode(v: LookupView, inode: Inode) -> LookupView {
    LookupView {
        state: if v.k >= v.parts.len() {
            LookupState::Finished(Some(inode))
        } else if !inode.dir_spec() || units(inode.data_size_spec() as int, v.block_size as int)
            == 0 {
            LookupState::Finished(None)
        } else {
            LookupState::Block { dir: inode, i: 0 }
        },
        ..v
    }
}

/// The lookup after the block it needs was read.
pub open spec fn after_block(v: LookupView, block: Seq<u8>) -> Result<LookupView, ErrorView> {
    match v.state {
        LookupState::Block { dir, i } => match block_lookup(v.parts[v.k].bytes(), block) {
            Err(e) => Err(e),
            Ok(Some(found)) => Ok(lookup_at(v.parts, v.k + 1, found, v.block_size)),
            Ok(None) => Ok(
                LookupView {
                    state: if i + 1 < units(dir.data_size_spec() as int, v.block_size as int) {
                        LookupState::Block { dir, i: (i + 1) as usize }
                    } else {
                        LookupState::Finished(None)
                    },
                    ..v
                },
            ),
        },
        _ => Ok(v),
    }
}

/// Skipping root directory parts does not change where a path leads.
proof fn lemma_skip_root(r: Reads, bs: usize, parts: Seq<PartView>, k: int, nid: u64)
    requires
        0 <= k <= parts.len(),
    ensures
        k <= skip_root(parts, k) <= parts.len(),
        skip_root(parts, k) < parts.len() ==> !(parts[skip_root(parts, k)] is RootDir),
        resolve(r, bs, parts, skip_root(parts, k), nid) == resolve(r, bs, parts, k, nid),
    decreases parts.len() - k,
{
    if k < parts.len() && parts[k] is RootDir {
        lemma_skip_root(r, bs, parts, k + 1, nid);
    }
}

/// A lookup that starts at a node with all parts to come ends where the path
/// leads.
pub proof fn lookup_starts_at_the_path(r: Reads, parts: Seq<PartView>, nid: u64, bs: usize)
    requires
        bs > 1,
    ensures
        lookup_at(parts, 0, nid, bs).wf(),
        lookup_at(parts, 0, nid, bs).result(r) == resolve(r, bs, parts, 0, nid),
{
    lemma_skip_root(r, bs, parts, 0, nid);
}

/// Giving a lookup the inode that it needs does not change what it ends with, and
/// brings it further.
pub proof fn inode_keeps_the_result(r: Reads, v: LookupView)
    requires
        v.wf(),
        v.state is Inode,
    ensures
        match (r.inode)(v.nid) {
            Ok(inode) => {
                &&& after_inode(v, inode).wf()
                &&& after_inode(v, inode).result(r) == v.result(r)
                &&& after_inode(v, inode).further_than(v)
            },
            Err(e) => v.result(r) == Err::<Option<Inode>, ErrorView>(e),
        },
{
    if let Ok(inode) = (r.inode)(v.nid) {
        lemma_units_bound(inode.data_size_spec() as int, v.block_size as int);
    }
}

/// Giving a lookup the block that it needs does not change what it ends with, and
/// brings it further.
pub proof fn block_keeps_the_result(r: Reads, v: LookupView)
    requires
        v.wf(),
        v.state is Block,
    ensures
        match (r.block)(v.state->dir, (v.state->i * v.block_size) as usize) {
            Ok(block) => match after_block(v, block) {
                Ok(after) => {
                    &&& after.wf()
                    &&& after.result(r) == v.result(r)
                    &&& after.further_than(v)
                },
                Err(e) => v.result(r) == Err::<Option<Inode>, ErrorView>(e),
            },
            Err(e) => v.result(r) == Err::<Option<Inode>, ErrorView>(e),
        },
{
    let dir = v.state->dir;
    let i = v.state->i as int;
    let name = v.parts[v.k].bytes();
    assert(i < units(dir.data_size_spec() as int, v.block_size as int));
    if let Ok(block) = (r.block)(dir, (i * v.block_size) as usize) {
        let found = block_lookup(name, block);
        assert(search(r, v.block_size, dir, name, i) == match found {
            Err(e) => Err(e),
            Ok(Some(nid)) => Ok(Some(nid)),
            Ok(None) => search(r, v.block_size, dir, name, i + 1),
        });
        if let Ok(Some(nid)) = found {
            lemma_skip_root(r, v.block_size, v.parts, v.k + 1, nid);
        }
    }
}

/// The `i`-th block of a directory.
pub open spec fn dir_block(r: Reads, bs: usize, dir: Inode, i: int) -> Result<Seq<u8>, ErrorView> {
    (r.block)(dir, (i * bs) as usize)
}

/// Whether the `i`-th block of a directory can be read and its names are in order.
pub open spec fn searchable_block(r: Reads, bs: usize, dir: Inode, i: int) -> bool {
    dir_block(r, bs, dir, i) is Ok && sorted_block(dir_block(r, bs, dir, i)->Ok_0)
}

/// Whether an entry of the `i`-th block of a directory has the name.
pub open spec fn named_in_block(r: Reads, bs: usize, dir: Inode, i: int, name: Seq<u8>) -> bool {
    exists|k: int|
        (#[trigger] entry_named(name, dir_block(r, bs, dir, i)->Ok_0, k)) is Some
}

/// Blocks without the name do not change what a search gives.
proof fn lemma_search_skips(r: Reads, bs: usize, dir: Inode, name: Seq<u8>, i: int, j: int)
    requires
        0 <= i <= j <= units(dir.data_size_spec() as int, bs as int),
        forall|m: int|
            i <= m < j ==> #[trigger] searchable_block(r, bs, dir, m) && !named_in_block(
                r,
                bs,
                dir,
                m,
                name,
            ),
    ensures
        search(r, bs, dir, name, i) == search(r, bs, dir, name, j),
    decreases j - i,
{
    if i < j {
        assert(searchable_block(r, bs, dir, i));
        let block = dir_block(r, bs, dir, i)->Ok_0;
        assert(!named_in_block(r, bs, dir, i, name));
        block_lookup_finds_nothing_else(block, name);
        lemma_search_skips(r, bs, dir, name, i + 1, j);
    }
}

/// Searching a directory for the name of an entry of its `j`-th block gives the node of
/// that entry, where the blocks up to that one can be read, their names are in order
/// and no other entry of these blocks has the name.
pub proof fn search_finds_every_entry(r: Reads, bs: usize, dir: Inode, j: int, k: int)
    requires
        0 <= j < units(dir.data_size_spec() as int, bs as int),
        0 <= k < entry_count(dir_block(r, bs, dir, j)->Ok_0),
        searchable_block(r, bs, dir, j),
        ({
            let block = dir_block(r, bs, dir, j)->Ok_0;
            &&& nth_id_name(block, k, entry_count(block)) is Ok
            &&& only_entry_named(block, k)
        }),
        forall|m: int|
            0 <= m < j ==> #[trigger] searchable_block(r, bs, dir, m) && !named_in_block(
                r,
                bs,
                dir,
                m,
                nth_name(dir_block(r, bs, dir, j)->Ok_0, k),
            ),
    ensures
        search(r, bs, dir, nth_name(dir_block(r, bs, dir, j)->Ok_0, k), 0) == Ok::<
            Option<u64>,
            ErrorView,
        >(Some(nth_nid(dir_block(r, bs, dir, j)->Ok_0, k))),
{
    let block = dir_block(r, bs, dir, j)->Ok_0;
    lemma_search_skips(r, bs, dir, nth_name(block, k), 0, j);
    block_lookup_finds_every_entry(block, k);
}

/// Searching a directory for a name that no entry has finds nothing, where all blocks can be read and their names are in
/// order.
pub proof fn search_finds_nothing_else(r: Reads, bs: usize, dir: Inode, name: Seq<u8>)
    requires
        bs > 0,
        forall|m: int|
            0 <= m < units(dir.data_size_spec() as int, bs as int) ==> #[trigger] searchable_block(
                r,
                bs,
                dir,
                m,
            ) && !named_in_block(r, bs, dir, m, name),
    ensures
        search(r, bs, dir, name, 0) == Ok::<Option<u64>, ErrorView>(None),
{
    lemma_units_bound(dir.data_size_spec() as int, bs as int);
    let count = units(dir.data_size_spec() as int, bs as int);
    assert forall|m: int| 0 <= m < count implies #[trigger] searchable_block(r, bs, dir, m)
        && !named_in_block(r, bs, dir, m, name) by {
        assert(searchable_block(r, bs, dir, m));
    }
    lemma_search_skips(r, bs, dir, name, 0, count);
}

/// A path leads through its directory: following one more part is searching the
/// directory that the path leads to for that part. Where the path leads to something
/// else, the longer one leads nowhere.
pub proof fn path_leads_through_its_directory(
    r: Reads,
    bs: usize,
    parts: Seq<PartView>,
    part: PartView,
    k: int,
    nid: u64,
)
    requires
        0 <= k <= parts.len(),
        !(part is RootDir),
    ensures
        resolve(r, bs, parts.push(part), k, nid) == (match resolve(r, bs, parts, k, nid) {
            Err(e) => Err(e),
            Ok(None) => Ok(None),
            Ok(Some(dir)) => match child(r, bs, dir, part.bytes()) {
                Err(e) => Err(e),
                Ok(None) => Ok(None),
                Ok(Some(found)) => match (r.inode)(found) {
                    Err(e) => Err(e),
                    Ok(inode) => Ok(Some(inode)),
                },
            },
        }),
    decreases parts.len() - k,
{
    let longer = parts.push(part);
    if k < parts.len() {
        assert(longer[k] == parts[k]);
        if parts[k] is RootDir {
            path_leads_through_its_directory(r, bs, parts, part, k + 1, nid);
        } else if let Ok(dir) = (r.inode)(nid) {
            if let Ok(Some(found)) = child(r, bs, dir, parts[k].bytes()) {
                path_leads_through_its_directory(r, bs, parts, part, k + 1, found);
            }
        }
    } else {
        assert(longer[k] == part);
        if let Ok(dir) = (r.inode)(nid) {
            if let Ok(Some(found)) = child(r, bs, dir, part.bytes()) {
                assert(resolve(r, bs, longer, k + 1, found) == match (r.inode)(found) {
                    Err(e) => Err(e),
                    Ok(inode) => Ok(Some(inode)),
                });
            }
        }
    }
}

/// Nothing lies below what is not a directory: where the parts before the `j`-th lead to
/// such an inode, all of them lead nowhere.
proof fn lemma_nothing_below_a_file(
    r: Reads,
    bs: usize,
    parts: Seq<PartView>,
    j: int,
    nid: u64,
    file: Inode,
)
    requires
        0 <= j < parts.len(),
        forall|i: int| j <= i < parts.len() ==> !(#[trigger] parts[i] is RootDir),
        resolve(r, bs, parts.take(j), 0, nid) == Ok::<Option<Inode>, ErrorView>(Some(file)),
        !file.dir_spec(),
    ensures
        resolve(r, bs, parts, 0, nid) == Ok::<Option<Inode>, ErrorView>(None),
    decreases parts.len(),
{
    let shorter = parts.drop_last();
    assert(parts =~= shorter.push(parts.last()));
    assert(parts[parts.len() - 1] == parts.last());
    path_leads_through_its_directory(r, bs, shorter, parts.last(), 0, nid);
    if j < parts.len() - 1 {
        assert(shorter.take(j) =~= parts.take(j));
        assert forall|i: int| j <= i < shorter.len() implies !(#[trigger] shorter[i] is RootDir) by {
            assert(shorter[i] == parts[i]);
        }
        lemma_nothing_below_a_file(r, bs, shorter, j, nid, file);
    } else {
        assert(shorter =~= parts.take(j));
    }
}

/// No path leads below what is not a directory: where the parts of the path before the
/// `j`-th lead to such an inode, the path leads nowhere and no file is found there.
pub proof fn nothing_lies_below_a_file(
    core: EroFSCore,
    r: Reads,
    path: Seq<u8>,
    j: int,
    file: Inode,
)
    requires
        0 <= j < route(path).len(),
        !(route(path)[j] is RootDir),
        resolve(
            r,
            core.block_size,
            route(path).take(j),
            0,
            core.super_block.root_nid as u64,
        ) == Ok::<Option<Inode>, ErrorView>(Some(file)),
        !file.dir_spec(),
    ensures
        path_target(core, r, path) == Ok::<Option<Inode>, ErrorView>(None),
        file_at(None, path) is Err,
{
    only_the_first_part_is_the_root(path);
    lemma_nothing_below_a_file(
        r,
        core.block_size,
        route(path),
        j,
        core.super_block.root_nid as u64,
        file,
    );
}

/// The lookup of a path.
#[derive(Debug)]
pub struct PathLookup {
    parts: Vec<PathPart>,
    k: usize,
    nid: u64,
    state: LookupState,
    block_size: usize,
}

impl View for PathLookup {
    type V = LookupView;

    closed spec fn view(&self) -> LookupView {
        LookupView {
            parts: part_views(self.parts@),
            k: self.k as int,
            nid: self.nid,
            state: self.state,
            block_size: self.block_size,
        }
    }
}

fn skip_root_parts(parts: &Vec<PathPart>, from: usize) -> (k: usize)
    requires
        from <= parts@.len(),
    ensures
        k == skip_root(part_views(parts@), from as int),
        from <= k <= parts@.len(),
        k < parts@.len() ==> !(parts@[k as int]@ is RootDir),
{
    let mut k = from;
    while k < parts.len() && parts[k].is_root()
        invariant
            from <= k <= parts@.len(),
            skip_root(part_views(parts@), k as int) == skip_root(part_views(parts@), from as int),
        decreases parts@.len() - k,
    {
        assert(part_views(parts@)[k as int] == parts@[k as int]@);
        k = k + 1;
    }
    assert(k < parts@.len() ==> part_views(parts@)[k as int] == parts@[k as int]@);
    k
}

impl PathLookup {
    /// Starts to follow `parts` at the node `root_nid`.
    pub fn new(parts: Vec<PathPart>, root_nid: u64, block_size: usize) -> (l: Self)
        requires
            block_size > 1,
        ensures
            l@ == lookup_at(part_views(parts@), 0, root_nid, block_size),
            l@.wf(),
    {
        let k = skip_root_parts(&parts, 0);
        PathLookup { parts, k, nid: root_nid, state: LookupState::Inode, block_size }
    }

    /// What has to be read next.
    pub fn step(&self) -> (s: LookupStep)
        requires
            self@.wf(),
        ensures
            s == self@.step(),
    {
        match self.state {
            LookupState::Inode => LookupStep::ReadInode(self.nid),
            LookupState::Block { dir, i } => {
                proof {
                    crate::filesystem::lemma_block_start(
                        dir.data_size_spec() as int,
                        self.block_size as int,
                        i as int,
                    );
                }
                LookupStep::ReadBlock(dir, i * self.block_size)
            },
            LookupState::Finished(inode) => LookupStep::Finished(inode),
        }
    }

    /// Whether the end was reached.
    pub fn is_finished(&self) -> (b: bool)
        ensures
            b == self@.state is Finished,
    {
        matches!(self.state, LookupState::Finished(_))
    }

    /// The inode at the end, where it was reached and there is one.
    pub fn found(&self) -> (inode: Option<Inode>)
        ensures
            inode == (match self@.state {
                LookupState::Finished(inode) => inode,
                _ => None,
            }),
    {
        match self.state {
            LookupState::Finished(inode) => inode,
            _ => None,
        }
    }

    /// Takes the inode that had to be read.
    pub fn inode_read(&mut self, inode: Inode)
        requires
            old(self)@.wf(),
            old(self)@.state is Inode,
        ensures
            final(self)@ == after_inode(old(self)@, inode),
            final(self)@.wf(),
    {
        if self.k >= self.parts.len() {
            self.state = LookupState::Finished(Some(inode));
        } else if !inode.is_dir() || count_units(inode.data_size(), self.block_size) == 0 {
            self.state = LookupState::Finished(None);
        } else {
            self.state = LookupState::Block { dir: inode, i: 0 };
        }
    }

    /// Takes the block that had to be read.
    pub fn block_read(&mut self, block: &[u8]) -> (r: Result<(), Error>)
        requires
            old(self)@.wf(),
            old(self)@.state is Block,
        ensures
            match after_block(old(self)@, block@) {
                Ok(v) => r is Ok && final(self)@ == v && v.wf(),
                Err(e) => r is Err && r->Err_0@ == e && final(self)@ == old(self)@,
            },
    {
        assert(self.k < self.parts.len());
        let name = self.parts[self.k].to_bytes();
        assert(part_views(self.parts@)[self.k as int] == self.parts@[self.k as int]@);
        match find_entry(name.as_slice(), block)? {
            Some(found) => {
                self.k = skip_root_parts(&self.parts, self.k + 1);
                self.nid = found;
                self.state = LookupState::Inode;
            },
            None => {
                if let LookupState::Block { dir, i } = self.state {
                    let count = count_units(dir.data_size(), self.block_size);
                    if i + 1 < count {
                        self.state = LookupState::Block { dir, i: i + 1 };
                    } else {
                        self.state = LookupState::Finished(None);
                    }
                }
            },
        }
        Ok(())
    }
}

} // verus!
