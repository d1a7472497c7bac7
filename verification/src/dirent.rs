//! Directory blocks: looking a name up in one, and listing its entries.

use crate::block::Block;
use crate::error::{corrupted, out_of_bounds, Error};
use crate::names::{cut_at_nul, is_before, is_same};
use crate::path::join;
use crate::text::{from_utf8_lossy, trim_end_nul};
use crate::types::{Dirent, DirentFileType};
use vstd::prelude::*;
use vstd::string::StrSliceExecFns;

#[allow(unused_imports)]
use crate::error::{outcome, ErrorView};
#[allow(unused_imports)]
use crate::names::{
    lemma_until_nul, lemma_until_nul_bytes, name_less, name_order_is_irreflexive,
    name_order_is_transitive, until_nul,
};
#[allow(unused_imports)]
use crate::path::joined;
#[allow(unused_imports)]
use crate::text::{lossy_text, trim_nul};
#[allow(unused_imports)]
use crate::types::{dirent_at, file_type_of_code};
#[allow(unused_imports)]
use vstd::utf8::{
    decode_first_scalar, decode_utf8, decode_utf8_encode_utf8, decode_utf8_first_scalar,
    decode_utf8_split, encode_scalar, encode_utf8, is_ascii_chars_encode_utf8,
    is_char_boundary_iff_not_is_continuation_byte, length_of_first_scalar, pop_first_scalar,
    take_first_scalar, valid_utf8, valid_utf8_split,
};

verus! {

/// The `n`-th entry of a directory block.
pub open spec fn nth_dirent(data: Seq<u8>, n: int) -> Result<Dirent, ErrorView> {
    if 12 * n > data.len() {
        Err(ErrorView::OutOfBounds("failed to get inode data"@))
    } else if 12 * n + 12 > data.len() {
        Err(ErrorView::UnexpectedEof)
    } else {
        Ok(dirent_at(data, 12 * n))
    }
}

/// Where the name of the `n`-th of `max` entries ends: where the next name
/// starts, or at the end of the block.
pub open spec fn name_end(data: Seq<u8>, n: int, max: int) -> Result<int, ErrorView> {
    if n < max - 1 {
        match nth_dirent(data, n + 1) {
            Ok(next) => Ok(next.name_off as int),
            Err(e) => Err(e),
        }
    } else {
        Ok(data.len() as int)
    }
}

/// The node and the name of the `n`-th of `max` entries.
pub open spec fn nth_id_name(data: Seq<u8>, n: int, max: int) -> Result<
    (u64, Seq<u8>),
    ErrorView,
> {
    match nth_dirent(data, n) {
        Err(e) => Err(e),
        Ok(dirent) => match name_end(data, n, max) {
            Err(e) => Err(e),
            Ok(end) => if end < dirent.name_off || end > data.len() {
                Err(ErrorView::CorruptedData("invalid directory entry name offset"@))
            } else {
                Ok((dirent.nid, until_nul(data.subrange(dirent.name_off as int, end))))
            },
        },
    }
}

/// Where halving the `size` entries from `base` on ends: at the last entry that
/// was found not to come after `name`, and otherwise at `base`. The entries are
/// counted without the first two of the block, which has `n`.
pub open spec fn bisect(data: Seq<u8>, name: Seq<u8>, n: int, base: int, size: int) -> Result<
    int,
    ErrorView,
>
    decreases size,
{
    if size <= 1 {
        Ok(base)
    } else {
        let mid = base + size / 2;
        match nth_id_name(data, mid + 2, n) {
            Err(e) => Err(e),
            Ok((_, entry_name)) => if name_less(name, entry_name) {
                bisect(data, name, n, base, size - size / 2)
            } else {
                bisect(data, name, n, mid, size - size / 2)
            },
        }
    }
}

/// What looking up `name` in a directory block gives.
pub open spec fn lookup(name: Seq<u8>, data: Seq<u8>) -> Result<Option<u64>, ErrorView> {
    match nth_dirent(data, 0) {
        Err(e) => Err(e),
        Ok(first) => {
            let n = first.name_off as int / 12;
            if n <= 2 {
                Ok(None)
            } else {
                match bisect(data, name, n, 0, n - 2) {
                    Err(e) => Err(e),
                    Ok(k) => match nth_id_name(data, k + 2, n) {
                        Err(e) => Err(e),
                        Ok((nid, entry_name)) => if entry_name == name {
                            Ok(Some(nid))
                        } else {
                            Ok(None)
                        },
                    },
                }
            }
        },
    }
}

/// Looks `name` up in a directory block by bisection: the node that the entry of that
/// name leads to. The first two entries, whatever their names, are left out.
pub fn find_nodeid_by_name(name: &[u8], data: &[u8]) -> (r: Result<Option<u64>, Error>)
    ensures
        outcome(r) == lookup(name@, data@),
{
    let dirent = read_nth_dirent(data, 0)?;
    let n = dirent.name_off as usize / Dirent::size();
    if n <= 2 {
        return Ok(None);
    }
    let mut size: usize = n - 2;
    let mut base: usize = 0;
    while size > 1
        invariant
            2 < n <= 5461,
            1 <= size,
            base + size <= n - 2,
            nth_dirent(data@, 0) is Ok,
            n == nth_dirent(data@, 0)->Ok_0.name_off as int / 12,
            bisect(data@, name@, n as int, base as int, size as int) == bisect(
                data@,
                name@,
                n as int,
                0,
                n - 2,
            ),
        decreases size,
    {
        let half = size / 2;
        let mid = base + half;
        let (_, entry_name) = read_nth_id_name(data, mid + 2, n)?;
        if !is_before(name, entry_name) {
            base = mid;
        }
        size = size - half;
    }
    let (nid, entry_name) = read_nth_id_name(data, base + 2, n)?;
    if is_same(entry_name, name) {
        Ok(Some(nid))
    } else {
        Ok(None)
    }
}

/// Reads the node and the name of the `n`-th of `max` entries of a directory
/// block. The name ends before its first NUL.
pub fn read_nth_id_name(data: &[u8], n: usize, max: usize) -> (r: Result<(u64, &[u8]), Error>)
    requires
        1 <= max,
        12 * n <= usize::MAX - 12,
    ensures
        outcome(r) == nth_id_name(data@, n as int, max as int),
{
    let dirent = read_nth_dirent(data, n)?;
    let name_start = dirent.name_off as usize;
    let name_end = if n < max - 1 {
        let next = read_nth_dirent(data, n + 1)?;
        next.name_off as usize
    } else {
        data.len()
    };
    if name_end < name_start || name_end > data.len() {
        return Err(corrupted("invalid directory entry name offset"));
    }
    Ok((dirent.nid, cut_at_nul(&data[name_start..name_end])))
}

/// Reads the `n`-th entry of a directory block.
pub fn read_nth_dirent(data: &[u8], n: usize) -> (r: Result<Dirent, Error>)
    requires
        12 * n <= usize::MAX,
    ensures
        outcome(r) == nth_dirent(data@, n as int),
{
    let start = n * Dirent::size();
    if start > data.len() {
        return Err(out_of_bounds("failed to get inode data"));
    }
    let rest = &data[start..data.len()];
    let r = Dirent::read(rest);
    proof {
        if rest@.len() >= 12 {
            assert(dirent_at(rest@, 0) == dirent_at(data@, 12 * n as int));
        }
    }
    r
}

/// How many entries a directory block has: the first name starts behind them.
pub open spec fn entry_count(data: Seq<u8>) -> int {
    nth_dirent(data, 0)->Ok_0.name_off as int / 12
}

/// The name of the `k`-th entry, up to its first NUL.
pub open spec fn nth_name(data: Seq<u8>, k: int) -> Seq<u8> {
    nth_id_name(data, k, entry_count(data))->Ok_0.1
}

/// The node that the `k`-th entry leads to.
pub open spec fn nth_nid(data: Seq<u8>, k: int) -> u64 {
    nth_id_name(data, k, entry_count(data))->Ok_0.0
}

/// The node of the `k`-th entry, where there is such an entry, its name can be read
/// and it is `name`.
pub open spec fn entry_named(name: Seq<u8>, data: Seq<u8>, k: int) -> Option<u64> {
    if 0 <= k < entry_count(data) {
        match nth_id_name(data, k, entry_count(data)) {
            Ok((nid, entry_name)) => if entry_name == name {
                Some(nid)
            } else {
                None
            },
            Err(_) => None,
        }
    } else {
        None
    }
}

/// What looking up `name` among all entries of a directory block gives: where the
/// bisection finds nothing, the first two entries are compared as well.
pub open spec fn block_lookup(name: Seq<u8>, data: Seq<u8>) -> Result<Option<u64>, ErrorView> {
    match lookup(name, data) {
        Ok(None) => Ok(
            match entry_named(name, data, 0) {
                Some(nid) => Some(nid),
                None => entry_named(name, data, 1),
            },
        ),
        r => r,
    }
}

fn node_named(name: &[u8], data: &[u8], k: usize, n: usize) -> (r: Option<u64>)
    requires
        k < 2,
        nth_dirent(data@, 0) is Ok,
        n == entry_count(data@),
    ensures
        r == entry_named(name@, data@, k as int),
{
    if k >= n {
        return None;
    }
    match read_nth_id_name(data, k, n) {
        Ok((nid, entry_name)) => {
            if is_same(entry_name, name) {
                Some(nid)
            } else {
                None
            }
        },
        Err(_) => None,
    }
}

/// Looks `name` up among all entries of a directory block: the node that the entry of
/// that name leads to.
pub fn find_entry(name: &[u8], data: &[u8]) -> (r: Result<Option<u64>, Error>)
    ensures
        outcome(r) == block_lookup(name@, data@),
{
    if let Some(nid) = find_nodeid_by_name(name, data)? {
        return Ok(Some(nid));
    }
    let first = read_nth_dirent(data, 0)?;
    let n = first.name_off as usize / Dirent::size();
    match node_named(name, data, 0, n) {
        Some(nid) => Ok(Some(nid)),
        None => Ok(node_named(name, data, 1, n)),
    }
}

/// Whether the entries behind the first two of a directory block can all be
/// read, and their names are in order.
pub open spec fn sorted_block(data: Seq<u8>) -> bool {
    &&& nth_dirent(data, 0) is Ok
    &&& forall|k: int|
        2 <= k < entry_count(data) ==> #[trigger] nth_id_name(data, k, entry_count(data)) is Ok
    &&& forall|j: int, k: int|
        #![trigger nth_name(data, j), nth_name(data, k)]
        2 <= j < k < entry_count(data) ==> name_less(nth_name(data, j), nth_name(data, k))
}

proof fn lemma_bisect(data: Seq<u8>, name: Seq<u8>, base: int, size: int)
    requires
        sorted_block(data),
        0 <= base,
        1 <= size,
        base + size <= entry_count(data) - 2,
        base == 0 || !name_less(name, nth_name(data, base + 2)),
        forall|k: int|
            base + size <= k < entry_count(data) - 2 ==> name_less(
                name,
                #[trigger] nth_name(data, k + 2),
            ),
    ensures
        bisect(data, name, entry_count(data), base, size) matches Ok(b) && {
            &&& base <= b < base + size
            &&& b == 0 || !name_less(name, nth_name(data, b + 2))
            &&& forall|k: int|
                b < k < entry_count(data) - 2 ==> name_less(name, #[trigger] nth_name(data, k + 2))
        },
    decreases size,
{
    if size > 1 {
        let mid = base + size / 2;
        let n = entry_count(data);
        assert(nth_id_name(data, mid + 2, n) is Ok);
        if name_less(name, nth_name(data, mid + 2)) {
            assert forall|k: int| base + (size - size / 2) <= k < n - 2 implies name_less(
                name,
                #[trigger] nth_name(data, k + 2),
            ) by {
                if k > mid {
                    name_order_is_transitive(name, nth_name(data, mid + 2), nth_name(data, k + 2));
                }
            }
            lemma_bisect(data, name, base, size - size / 2);
        } else {
            lemma_bisect(data, name, mid, size - size / 2);
        }
    }
}

/// In a block whose names are in order, looking up the name of an entry behind
/// the first two gives the node of that entry.
pub proof fn lookup_finds_every_entry(data: Seq<u8>, k: int)
    requires
        sorted_block(data),
        2 <= k < entry_count(data),
    ensures
        lookup(nth_name(data, k), data) == Ok::<Option<u64>, ErrorView>(Some(nth_nid(data, k))),
{
    let name = nth_name(data, k);
    let n = entry_count(data);
    lemma_bisect(data, name, 0, n - 2);
    let b = bisect(data, name, n, 0, n - 2)->Ok_0;
    name_order_is_irreflexive(name);
    if k - 2 > b {
        assert(name_less(name, nth_name(data, (k - 2) + 2)));
    }
    if k - 2 < b {
        assert(name_less(nth_name(data, k), nth_name(data, b + 2)));
    }
    assert(nth_id_name(data, k, n) is Ok);
}

/// In a block whose names are in order, looking up a name that no entry behind
/// the first two has finds nothing.
pub proof fn lookup_finds_nothing_else(data: Seq<u8>, name: Seq<u8>)
    requires
        sorted_block(data),
        forall|k: int| 2 <= k < entry_count(data) ==> #[trigger] nth_name(data, k) != name,
    ensures
        lookup(name, data) == Ok::<Option<u64>, ErrorView>(None),
{
    let n = entry_count(data);
    if n > 2 {
        lemma_bisect(data, name, 0, n - 2);
        let b = bisect(data, name, n, 0, n - 2)->Ok_0;
        assert(nth_id_name(data, b + 2, n) is Ok);
        assert(nth_name(data, b + 2) != name);
    }
}

/// Whether no entry of a block but the `k`-th has the name of that entry.
pub open spec fn only_entry_named(data: Seq<u8>, k: int) -> bool {
    forall|j: int| j != k ==> #[trigger] entry_named(nth_name(data, k), data, j) is None
}

/// In a block whose names are in order behind the first two, looking up the name of
/// any entry among all entries gives the node of that entry, where no other entry has
/// the name.
pub proof fn block_lookup_finds_every_entry(data: Seq<u8>, k: int)
    requires
        sorted_block(data),
        0 <= k < entry_count(data),
        nth_id_name(data, k, entry_count(data)) is Ok,
        only_entry_named(data, k),
    ensures
        block_lookup(nth_name(data, k), data) == Ok::<Option<u64>, ErrorView>(
            Some(nth_nid(data, k)),
        ),
{
    let name = nth_name(data, k);
    if k >= 2 {
        lookup_finds_every_entry(data, k);
    } else {
        assert forall|j: int| 2 <= j < entry_count(data) implies #[trigger] nth_name(data, j)
            != name by {
            assert(nth_id_name(data, j, entry_count(data)) is Ok);
            assert(entry_named(name, data, j) is None);
        }
        lookup_finds_nothing_else(data, name);
        if k == 1 {
            assert(entry_named(name, data, 0) is None);
        }
    }
}

/// In a block whose names are in order behind the first two, looking up a name that no
/// entry has finds nothing.
pub proof fn block_lookup_finds_nothing_else(data: Seq<u8>, name: Seq<u8>)
    requires
        sorted_block(data),
        forall|k: int| #[trigger] entry_named(name, data, k) is None,
    ensures
        block_lookup(name, data) == Ok::<Option<u64>, ErrorView>(None),
{
    assert forall|j: int| 2 <= j < entry_count(data) implies #[trigger] nth_name(data, j)
        != name by {
        assert(nth_id_name(data, j, entry_count(data)) is Ok);
        assert(entry_named(name, data, j) is None);
    }
    lookup_finds_nothing_else(data, name);
}

/// A directory entry within an EROFS filesystem.
#[derive(Debug, Clone)]
pub struct DirEntry {
    pub(crate) dir: Vec<u8>,
    pub(crate) nid: u64,
    pub(crate) file_type: DirentFileType,
    pub(crate) file_name: String,
}

/// A [`DirEntry`] with its path and name as sequences.
pub struct DirEntryView {
    pub dir: Seq<u8>,
    pub nid: u64,
    pub file_type: DirentFileType,
    pub file_name: Seq<char>,
}

impl View for DirEntry {
    type V = DirEntryView;

    closed spec fn view(&self) -> DirEntryView {
        DirEntryView {
            dir: self.dir@,
            nid: self.nid,
            file_type: self.file_type,
            file_name: self.file_name@,
        }
    }
}

impl DirEntry {
    /// The file type of this entry.
    pub fn file_type(&self) -> (t: DirentFileType)
        ensures
            t == self@.file_type,
    {
        self.file_type
    }

    /// The file name of this entry.
    pub fn file_name(&self) -> (s: String)
        ensures
            s@ == self@.file_name,
    {
        self.file_name.clone()
    }

    /// The full path of this entry: its name in its directory.
    pub fn path(&self) -> (p: Vec<u8>)
        ensures
            p@ == joined(self@.dir, encode_utf8(self@.file_name)),
    {
        join(self.dir.as_slice(), self.file_name.as_str().as_bytes())
    }

    /// The node ID (inode number) of this entry.
    pub fn nid(&self) -> (nid: u64)
        ensures
            nid == self@.nid,
    {
        self.nid
    }
}

/// A name as text: it may be padded with NUL characters.
pub open spec fn name_text(bytes: Seq<u8>) -> Seq<char> {
    trim_nul(lossy_text(bytes))
}

/// Whether a name is `.` or `..`.
pub open spec fn is_dot_name(name: Seq<char>) -> bool {
    name == seq!['.'] || name == seq!['.', '.']
}

fn is_dot(name: &str) -> (b: bool)
    ensures
        b == is_dot_name(name@),
{
    let n = name.unicode_len();
    if n == 1 {
        let b = name.get_char(0) == '.';
        assert(b ==> name@ =~= seq!['.']);
        b
    } else if n == 2 {
        let b = name.get_char(0) == '.' && name.get_char(1) == '.';
        assert(b ==> name@ =~= seq!['.', '.']);
        b
    } else {
        false
    }
}

/// How far the entries of a directory block have been handed out.
pub struct BlockView {
    /// The block.
    pub data: Seq<u8>,
    /// The path of the directory.
    pub root: Seq<u8>,
    /// The entry that comes next.
    pub dirent: Dirent,
    /// Its index.
    pub i: int,
    /// How many entries there are.
    pub n: int,
}

/// What handing out the next entry gives: the block after it, and the entry.
/// The entries `.` and `..` are passed over. Where the next name cannot be read
/// the block moves on to the entry behind it, but not its count.
pub open spec fn block_next(b: BlockView) -> (
    BlockView,
    Result<Option<DirEntryView>, ErrorView>,
)
    decreases b.n - b.i,
{
    if b.i >= b.n {
        (b, Ok(None))
    } else {
        let following = if b.i < b.n - 1 {
            nth_dirent(b.data, b.i + 1)
        } else {
            Ok(b.dirent)
        };
        match following {
            Err(e) => (b, Err(e)),
            Ok(next) => {
                let end = if b.i < b.n - 1 {
                    next.name_off as int
                } else {
                    b.data.len() as int
                };
                if end < b.dirent.name_off || end > b.data.len() {
                    (
                        BlockView { dirent: next, ..b },
                        Err(ErrorView::CorruptedData("invalid directory entry name offset"@)),
                    )
                } else {
                    let rest = BlockView { dirent: next, i: b.i + 1, ..b };
                    let name = name_text(b.data.subrange(b.dirent.name_off as int, end));
                    if is_dot_name(name) {
                        block_next(rest)
                    } else {
                        match file_type_of_code(b.dirent.file_type) {
                            Err(e) => (rest, Err(e)),
                            Ok(file_type) => (
                                rest,
                                Ok(
                                    Some(
                                        DirEntryView {
                                            dir: b.root,
                                            nid: b.dirent.nid,
                                            file_type,
                                            file_name: name,
                                        },
                                    ),
                                ),
                            ),
                        }
                    }
                }
            },
        }
    }
}

/// An optional entry by its view.
pub open spec fn entry_view(e: Option<DirEntry>) -> Option<DirEntryView> {
    match e {
        Some(e) => Some(e@),
        None => None,
    }
}

/// What listing a directory gives, by its view.
pub open spec fn entry_outcome(r: Result<Option<DirEntry>, Error>) -> Result<
    Option<DirEntryView>,
    ErrorView,
> {
    match r {
        Ok(e) => Ok(entry_view(e)),
        Err(e) => Err(e@),
    }
}

/// An entry, an error or neither, by its view.
pub open spec fn item_view(x: Option<Result<DirEntry, Error>>) -> Result<
    Option<DirEntryView>,
    ErrorView,
> {
    match x {
        None => Ok(None),
        Some(Ok(e)) => Ok(Some(e@)),
        Some(Err(e)) => Err(e@),
    }
}

/// An entry or an error, or neither behind the last entry.
pub(crate) fn transpose(r: Result<Option<DirEntry>, Error>) -> (x: Option<Result<DirEntry, Error>>)
    ensures
        item_view(x) == entry_outcome(r),
{
    match r {
        Ok(Some(e)) => Some(Ok(e)),
        Ok(None) => None,
        Err(e) => Some(Err(e)),
    }
}

/// The entries of a directory block, handed out one after the other.
#[derive(Debug)]
pub struct DirentBlock<D: Block> {
    data: D,
    root: Vec<u8>,
    dirent: Dirent,
    i: usize,
    n: usize,
}

impl<D: Block> View for DirentBlock<D> {
    type V = BlockView;

    closed spec fn view(&self) -> BlockView {
        BlockView {
            data: self.data.bytes(),
            root: self.root@,
            dirent: self.dirent,
            i: self.i as int,
            n: self.n as int,
        }
    }
}

/// The block before any entry was handed out.
pub open spec fn block_start(root: Seq<u8>, data: Seq<u8>) -> Result<BlockView, ErrorView> {
    match nth_dirent(data, 0) {
        Ok(dirent) => Ok(
            BlockView { data, root, dirent, i: 0, n: dirent.name_off as int / 12 },
        ),
        Err(e) => Err(e),
    }
}

impl BlockView {
    /// Whether the block holds an entry and counts no more than can be named.
    pub open spec fn wf(self) -> bool {
        &&& 12 <= self.data.len() <= usize::MAX
        &&& 0 <= self.i
        &&& 0 <= self.n <= 5461
    }
}

impl<D: Block> DirentBlock<D> {
    /// Starts to hand out the entries of `data`, a block of the directory with
    /// the path `root`.
    pub fn new(root: Vec<u8>, data: D) -> (r: Result<Self, Error>)
        ensures
            outcome(r) == block_start(root@, data.bytes()),
            r is Ok ==> r->Ok_0@.wf(),
    {
        let bytes = data.as_bytes();
        assert(bytes.len() == bytes@.len());
        let dirent = read_nth_dirent(bytes, 0)?;
        let n = dirent.name_off as usize / Dirent::size();
        Ok(DirentBlock { data, root, dirent, i: 0, n })
    }

    /// The size of the block in bytes.
    pub fn block_size(&self) -> (n: usize)
        ensures
            n == self@.data.len(),
    {
        self.data.as_bytes().len()
    }

    /// Hands out the next entry, or `None` behind the last one.
    pub fn next_entry(&mut self) -> (r: Result<Option<DirEntry>, Error>)
        requires
            old(self)@.wf(),
        ensures
            (final(self)@, entry_outcome(r)) == block_next(old(self)@),
            final(self)@.wf(),
    {
        while self.i < self.n
            invariant
                self@.wf(),
                block_next(self@) == block_next(old(self)@),
            decreases self.n - self.i,
        {
            let data = self.data.as_bytes();
            let dirent = self.dirent;
            let name_start = dirent.name_off as usize;
            let name_end = if self.i < self.n - 1 {
                let next = read_nth_dirent(data, self.i + 1)?;
                self.dirent = next;
                next.name_off as usize
            } else {
                data.len()
            };
            if name_end < name_start || name_end > data.len() {
                return Err(corrupted("invalid directory entry name offset"));
            }
            self.i = self.i + 1;
            let text = from_utf8_lossy(&data[name_start..name_end]);
            let name = trim_end_nul(text.as_str());
            if is_dot(name) {
                continue ;
            }
            let file_type = DirentFileType::from_code(dirent.file_type)?;
            let entry = DirEntry {
                dir: self.root.clone(),
                nid: dirent.nid,
                file_type,
                file_name: name.to_string(),
            };
            return Ok(Some(entry));
        }
        Ok(None)
    }

    /// Hands out the next entry, or an error where it cannot be read. Behind the
    /// last entry there is neither.
    pub fn next(&mut self) -> (x: Option<Result<DirEntry, Error>>)
        requires
            old(self)@.wf(),
        ensures
            (final(self)@, item_view(x)) == block_next(old(self)@),
            final(self)@.wf(),
    {
        if self.i >= self.n {
            None
        } else {
            transpose(self.next_entry())
        }
    }
}

/// Where the name of the `k`-th entry of a block ends.
pub open spec fn nth_name_end(data: Seq<u8>, k: int) -> int {
    name_end(data, k, entry_count(data))->Ok_0
}

/// The bytes where the name of the `k`-th entry of a block is stored, with their padding.
pub open spec fn stored_name(data: Seq<u8>, k: int) -> Seq<u8> {
    data.subrange(nth_dirent(data, k)->Ok_0.name_off as int, nth_name_end(data, k))
}

/// The name of the `k`-th entry of a block as text.
pub open spec fn nth_name_text(data: Seq<u8>, k: int) -> Seq<char> {
    name_text(stored_name(data, k))
}

/// Whether the `k`-th entry of a block can be read. The type of `.` and `..` does
/// not matter.
pub open spec fn readable_entry(data: Seq<u8>, k: int) -> bool {
    &&& nth_dirent(data, k) is Ok
    &&& name_end(data, k, entry_count(data)) is Ok
    &&& nth_dirent(data, k)->Ok_0.name_off <= nth_name_end(data, k) <= data.len()
    &&& is_dot_name(nth_name_text(data, k)) || file_type_of_code(
        nth_dirent(data, k)->Ok_0.file_type,
    ) is Ok
}

/// The `k`-th entry of a block of the directory with the path `root`.
pub open spec fn nth_entry(root: Seq<u8>, data: Seq<u8>, k: int) -> DirEntryView {
    let dirent = nth_dirent(data, k)->Ok_0;
    DirEntryView {
        dir: root,
        nid: dirent.nid,
        file_type: file_type_of_code(dirent.file_type)->Ok_0,
        file_name: nth_name_text(data, k),
    }
}

/// The entries of a block from the `k`-th on, in order, without `.` and `..`.
pub open spec fn listing(root: Seq<u8>, data: Seq<u8>, k: int) -> Seq<DirEntryView>
    decreases entry_count(data) - k,
{
    if k >= entry_count(data) {
        seq![]
    } else if is_dot_name(nth_entry(root, data, k).file_name) {
        listing(root, data, k + 1)
    } else {
        seq![nth_entry(root, data, k)] + listing(root, data, k + 1)
    }
}

impl BlockView {
    /// Whether all entries of the block can be read, and the entry that comes
    /// next is the one that its index says.
    pub open spec fn intact(self) -> bool {
        &&& self.wf()
        &&& nth_dirent(self.data, 0) is Ok
        &&& self.n == entry_count(self.data)
        &&& 0 <= self.i <= self.n
        &&& self.i < self.n ==> self.dirent == nth_dirent(self.data, self.i)->Ok_0
        &&& forall|k: int| 0 <= k < self.n ==> #[trigger] readable_entry(self.data, k)
    }

    /// The entries that have not been handed out yet.
    pub open spec fn remaining(self) -> Seq<DirEntryView> {
        listing(self.root, self.data, self.i)
    }
}

/// A block that can be read hands out all of its entries but `.` and `..`, each
/// once and in order, and then `None`.
pub proof fn block_hands_out_its_listing(b: BlockView)
    requires
        b.intact(),
    ensures
        ({
            let (after, r) = block_next(b);
            &&& after.intact()
            &&& match r {
                Err(_) => false,
                Ok(None) => b.remaining().len() == 0 && after.remaining().len() == 0,
                Ok(Some(e)) => b.remaining() == seq![e] + after.remaining(),
            }
        }),
    decreases b.n - b.i,
{
    if b.i < b.n {
        assert(readable_entry(b.data, b.i));
        let next = if b.i < b.n - 1 {
            nth_dirent(b.data, b.i + 1)->Ok_0
        } else {
            b.dirent
        };
        let rest = BlockView { dirent: next, i: b.i + 1, ..b };
        if b.i < b.n - 1 {
            assert(readable_entry(b.data, b.i + 1));
        }
        assert(rest.intact());
        if is_dot_name(nth_entry(b.root, b.data, b.i).file_name) {
            block_hands_out_its_listing(rest);
        }
    }
}

/// Whether bytes are a name as text: they are UTF-8, and NULs only pad them.
pub open spec fn text_name(bytes: Seq<u8>) -> bool {
    &&& valid_utf8(bytes)
    &&& forall|j: int| until_nul(bytes).len() <= j < bytes.len() ==> #[trigger] bytes[j] == 0
}

proof fn lemma_nul_byte()
    ensures
        valid_utf8(seq![0u8]),
        decode_utf8(seq![0u8]) == seq!['\0'],
{
    let nul = seq![0u8];
    assert(0u8 & 0x7f == 0) by (bit_vector);
    assert(pop_first_scalar(nul) =~= seq![]);
    assert(valid_utf8(seq![]));
    assert(decode_utf8(seq![]) =~= seq![]);
    assert(valid_utf8(nul));
    assert(decode_first_scalar(nul) == 0);
    assert(decode_utf8(nul) =~= seq!['\0']);
}

/// UTF-8 without a NUL byte encodes no NUL character.
proof fn lemma_no_nul_character(bytes: Seq<u8>)
    requires
        valid_utf8(bytes),
        forall|j: int| 0 <= j < bytes.len() ==> #[trigger] bytes[j] != 0,
    ensures
        forall|i: int| 0 <= i < decode_utf8(bytes).len() ==> #[trigger] decode_utf8(bytes)[i] != '\0',
    decreases bytes.len(),
{
    if bytes.len() > 0 {
        let rest = pop_first_scalar(bytes);
        assert forall|j: int| 0 <= j < rest.len() implies #[trigger] rest[j] != 0 by {
            assert(rest[j] == bytes[j + length_of_first_scalar(bytes)]);
        }
        lemma_no_nul_character(rest);
        decode_utf8_first_scalar(bytes);
        let first = decode_first_scalar(bytes) as char;
        assert(first != '\0') by {
            if first == '\0' {
                assert(0u32 & 0x7f == 0) by (bit_vector);
                let encoded = encode_scalar(0);
                assert(encoded.len() == 1 && encoded[0] == 0);
                assert(take_first_scalar(bytes)[0] == bytes[0]);
            }
        }
        assert forall|i: int| 0 <= i < decode_utf8(bytes).len() implies #[trigger] decode_utf8(
            bytes,
        )[i] != '\0' by {
            if i > 0 {
                assert(decode_utf8(bytes)[i] == decode_utf8(rest)[i - 1]);
            }
        }
    }
}

/// A name as text reads as it is written: its text encodes the bytes before its first
/// NUL.
pub proof fn text_names_read_as_written(bytes: Seq<u8>)
    requires
        text_name(bytes),
    ensures
        encode_utf8(name_text(bytes)) == until_nul(bytes),
    decreases bytes.len(),
{
    lemma_until_nul_bytes(bytes);
    let n = until_nul(bytes).len() as int;
    if bytes.len() > 0 && bytes.last() == 0 {
        let last = bytes.len() - 1;
        let shorter = bytes.subrange(0, last);
        is_char_boundary_iff_not_is_continuation_byte(bytes, last);
        valid_utf8_split(bytes, last);
        decode_utf8_split(bytes, last);
        assert(bytes.subrange(last, bytes.len() as int) =~= seq![0u8]);
        lemma_nul_byte();
        assert(n <= last);
        assert(shorter.take(n) =~= bytes.take(n));
        lemma_until_nul(shorter, n);
        text_names_read_as_written(shorter);
        let text = decode_utf8(bytes);
        assert(text.drop_last() =~= decode_utf8(shorter));
        assert(text.last() == '\0');
    } else {
        assert(bytes.len() > 0 ==> n == bytes.len());
        assert(until_nul(bytes) =~= bytes);
        lemma_no_nul_character(bytes);
        decode_utf8_encode_utf8(bytes);
    }
}

/// Whether a listing has an entry with this name and this node.
pub open spec fn lists(all: Seq<DirEntryView>, name: Seq<u8>, nid: u64) -> bool {
    exists|x: int|
        0 <= x < all.len() && (#[trigger] all[x]).nid == nid && encode_utf8(all[x].file_name)
            == name
}

/// An entry that is not `.` or `..` is in the listing.
proof fn lemma_entry_is_listed(root: Seq<u8>, data: Seq<u8>, from: int, k: int) -> (x: int)
    requires
        from <= k < entry_count(data),
        !is_dot_name(nth_name_text(data, k)),
    ensures
        0 <= x < listing(root, data, from).len(),
        listing(root, data, from)[x] == nth_entry(root, data, k),
    decreases entry_count(data) - from,
{
    if from == k {
        0
    } else {
        let x = lemma_entry_is_listed(root, data, from + 1, k);
        if is_dot_name(nth_name_text(data, from)) {
            x
        } else {
            x + 1
        }
    }
}

/// What is in the listing is an entry that is not `.` or `..`.
proof fn lemma_listed_is_an_entry(root: Seq<u8>, data: Seq<u8>, from: int, x: int) -> (k: int)
    requires
        0 <= x < listing(root, data, from).len(),
    ensures
        from <= k < entry_count(data),
        !is_dot_name(nth_name_text(data, k)),
        listing(root, data, from)[x] == nth_entry(root, data, k),
    decreases entry_count(data) - from,
{
    if is_dot_name(nth_name_text(data, from)) {
        lemma_listed_is_an_entry(root, data, from + 1, x)
    } else if x == 0 {
        from
    } else {
        lemma_listed_is_an_entry(root, data, from + 1, x - 1)
    }
}

proof fn lemma_entry_name(data: Seq<u8>, k: int)
    requires
        readable_entry(data, k),
        text_name(stored_name(data, k)),
    ensures
        nth_id_name(data, k, entry_count(data)) is Ok,
        encode_utf8(nth_name_text(data, k)) == nth_name(data, k),
        nth_nid(data, k) == nth_dirent(data, k)->Ok_0.nid,
{
    text_names_read_as_written(stored_name(data, k));
}

/// Looking a name up by bisection agrees with listing: it gives a node exactly where the
/// listing of the block has an entry with that name and that node, and otherwise finds
/// nothing. All entries of the block can be read, the first two are `.` and `..` and no
/// others are, and the names of the others are text and in order.
pub proof fn lookup_agrees_with_listing(root: Seq<u8>, data: Seq<u8>, name: Seq<u8>)
    requires
        sorted_block(data),
        forall|k: int| 0 <= k < entry_count(data) ==> #[trigger] readable_entry(data, k),
        forall|k: int|
            0 <= k < entry_count(data) ==> (is_dot_name(#[trigger] nth_name_text(data, k)) <==> k
                < 2),
        forall|k: int|
            2 <= k < entry_count(data) ==> text_name(#[trigger] stored_name(data, k)),
    ensures
        lookup(name, data) is Ok,
        forall|nid: u64|
            lookup(name, data) == Ok::<Option<u64>, ErrorView>(Some(nid)) <==> #[trigger] lists(
                listing(root, data, 0),
                name,
                nid,
            ),
        lookup(name, data) == Ok::<Option<u64>, ErrorView>(None) <==> forall|nid: u64|
            !#[trigger] lists(listing(root, data, 0), name, nid),
{
    let all = listing(root, data, 0);
    let n = entry_count(data);
    assert forall|nid: u64| #[trigger] lists(all, name, nid) implies lookup(name, data) == Ok::<
        Option<u64>,
        ErrorView,
    >(Some(nid)) by {
        let x = choose|x: int|
            0 <= x < all.len() && (#[trigger] all[x]).nid == nid && encode_utf8(all[x].file_name)
                == name;
        let k = lemma_listed_is_an_entry(root, data, 0, x);
        assert(k >= 2);
        assert(text_name(stored_name(data, k)));
        assert(readable_entry(data, k));
        lemma_entry_name(data, k);
        lookup_finds_every_entry(data, k);
    }
    if exists|k: int| 2 <= k < n && #[trigger] nth_name(data, k) == name {
        let k = choose|k: int| 2 <= k < n && #[trigger] nth_name(data, k) == name;
        lookup_finds_every_entry(data, k);
        assert(text_name(stored_name(data, k)));
        assert(readable_entry(data, k));
        lemma_entry_name(data, k);
        let x = lemma_entry_is_listed(root, data, 0, k);
        assert(all[x].nid == nth_nid(data, k));
        assert(lists(all, name, nth_nid(data, k)));
    } else {
        lookup_finds_nothing_else(data, name);
    }
}

proof fn lemma_dot_names()
    ensures
        encode_utf8(seq!['.']) == seq![46u8],
        encode_utf8(seq!['.', '.']) == seq![46u8, 46u8],
{
    is_ascii_chars_encode_utf8(seq!['.']);
    is_ascii_chars_encode_utf8(seq!['.', '.']);
    assert(encode_utf8(seq!['.']) =~= seq![46u8]);
    assert(encode_utf8(seq!['.', '.']) =~= seq![46u8, 46u8]);
}

/// Looking a name other than `.` and `..` up among all entries of a block agrees with
/// listing: it gives a node exactly where the listing of the block has an entry with that
/// name and that node, and otherwise finds nothing. All entries of the block can be read,
/// their names are text, no two are the same, and behind the first two they are in order.
pub proof fn block_lookup_agrees_with_listing(root: Seq<u8>, data: Seq<u8>, name: Seq<u8>)
    requires
        sorted_block(data),
        forall|k: int| 0 <= k < entry_count(data) ==> #[trigger] readable_entry(data, k),
        forall|k: int|
            0 <= k < entry_count(data) ==> text_name(#[trigger] stored_name(data, k)),
        forall|k: int| 0 <= k < entry_count(data) ==> #[trigger] only_entry_named(data, k),
        name != seq![46u8],
        name != seq![46u8, 46u8],
    ensures
        block_lookup(name, data) is Ok,
        forall|nid: u64|
            block_lookup(name, data) == Ok::<Option<u64>, ErrorView>(Some(nid))
                <==> #[trigger] lists(listing(root, data, 0), name, nid),
        block_lookup(name, data) == Ok::<Option<u64>, ErrorView>(None) <==> forall|nid: u64|
            !#[trigger] lists(listing(root, data, 0), name, nid),
{
    let all = listing(root, data, 0);
    let n = entry_count(data);
    assert forall|nid: u64| #[trigger] lists(all, name, nid) implies block_lookup(name, data)
        == Ok::<Option<u64>, ErrorView>(Some(nid)) by {
        let x = choose|x: int|
            0 <= x < all.len() && (#[trigger] all[x]).nid == nid && encode_utf8(all[x].file_name)
                == name;
        let k = lemma_listed_is_an_entry(root, data, 0, x);
        assert(text_name(stored_name(data, k)));
        assert(readable_entry(data, k));
        lemma_entry_name(data, k);
        assert(only_entry_named(data, k));
        block_lookup_finds_every_entry(data, k);
    }
    if exists|k: int| (#[trigger] entry_named(name, data, k)) is Some {
        let k = choose|k: int| (#[trigger] entry_named(name, data, k)) is Some;
        assert(text_name(stored_name(data, k)));
        assert(readable_entry(data, k));
        lemma_entry_name(data, k);
        assert(only_entry_named(data, k));
        block_lookup_finds_every_entry(data, k);
        lemma_dot_names();
        let x = lemma_entry_is_listed(root, data, 0, k);
        assert(all[x].nid == nth_nid(data, k));
        assert(lists(all, name, nth_nid(data, k)));
    } else {
        block_lookup_finds_nothing_else(data, name);
    }
}

} // verus!
