//! Reading a file, one block after the other.
//!
//! [`FileReader`] keeps the position in a file and decides when a block of it is
//! needed. It reads nothing from the image itself.

use crate::block::{share, Block};
use crate::types::Inode;
use vstd::prelude::*;

#[allow(unused_imports)]
use crate::error::ErrorView;
#[allow(unused_imports)]
use crate::filesystem::{
    direct_reads_fit_a_block, lemma_block_rest, lemma_block_start, lemma_units_bound, min_int,
    units, EroFSCore,
};
#[allow(unused_imports)]
use crate::le::le_i32;
#[allow(unused_imports)]
use crate::lookup::Reads;
#[allow(unused_imports)]
use crate::types::{layout_of_format, Layout};
#[allow(unused_imports)]
use vstd::arithmetic::div_mod::{
    lemma_fundamental_div_mod, lemma_fundamental_div_mod_converse, lemma_mod_bound,
};

verus! {

/// How far a file has been read.
pub struct FileView {
    pub inode: Inode,
    /// The position in the file.
    pub offset: usize,
    /// The block that holds the byte at the position, where it was kept.
    pub buf: Option<Seq<u8>>,
}

/// What reading from a file comes to.
#[derive(Debug, Clone, Copy, PartialEq, Eq, Structural)]
pub enum ReadStep {
    /// So many bytes were read.
    Done(usize),
    /// The block that holds the byte at this offset is needed.
    ReadBlock(usize),
}

/// `offset` moved on by `n`.
pub open spec fn advanced(offset: usize, n: int) -> usize {
    min_int(offset + n, usize::MAX as int) as usize
}

/// How many bytes of a block, from its byte `at` on, there are for `room`.
pub open spec fn available(block: Seq<u8>, at: int, room: int) -> int {
    if at >= block.len() {
        0
    } else {
        min_int(room, block.len() - at)
    }
}

/// `out` with the `n` bytes of `data` from `at` on at its start.
pub open spec fn overlaid(out: Seq<u8>, data: Seq<u8>, at: int, n: int) -> Seq<u8> {
    Seq::new(
        out.len(),
        |k: int|
            if k < n {
                data[at + k]
            } else {
                out[k]
            },
    )
}

/// What a read into `out` comes to: the file and the bytes after it. The block
/// that was kept is used, and dropped at its end.
pub open spec fn read_step(v: FileView, bs: usize, out: Seq<u8>) -> (FileView, Seq<u8>, ReadStep) {
    if v.offset >= v.inode.data_size_spec() {
        (v, out, ReadStep::Done(0))
    } else {
        match v.buf {
            None => (v, out, ReadStep::ReadBlock(v.offset)),
            Some(block) => {
                let at = v.offset as int % bs as int;
                let n = available(block, at, out.len() as int);
                (
                    FileView {
                        offset: advanced(v.offset, n),
                        buf: if n == available(block, at, block.len() as int) {
                            None
                        } else {
                            v.buf
                        },
                        ..v
                    },
                    overlaid(out, block, at, n),
                    ReadStep::Done(n as usize),
                )
            },
        }
    }
}

/// What a read into `out` gives once the block that it needs was read: the file
/// and the bytes after it, and how many there are. A block that does not fit is
/// kept.
pub open spec fn read_with_block(v: FileView, bs: usize, out: Seq<u8>, block: Seq<u8>) -> (
    FileView,
    Seq<u8>,
    usize,
) {
    if out.len() >= block.len() {
        (
            FileView { offset: advanced(v.offset, block.len() as int), ..v },
            overlaid(out, block, 0, block.len() as int),
            block.len() as usize,
        )
    } else {
        let at = v.offset as int % bs as int;
        let n = available(block, at, out.len() as int);
        (
            FileView { offset: advanced(v.offset, n), buf: Some(block), ..v },
            overlaid(out, block, at, n),
            n as usize,
        )
    }
}

/// What a read into `out` gives where the blocks are what `r` reads: the file and
/// the bytes after it, and how many there are.
pub open spec fn file_read(r: Reads, bs: usize, v: FileView, out: Seq<u8>) -> (
    FileView,
    Seq<u8>,
    Result<usize, ErrorView>,
) {
    let (after, bytes, step) = read_step(v, bs, out);
    match step {
        ReadStep::Done(n) => (after, bytes, Ok(n)),
        ReadStep::ReadBlock(offset) => match (r.block)(v.inode, offset) {
            Err(e) => (after, bytes, Err(e)),
            Ok(block) => {
                let (after, bytes, n) = read_with_block(v, bs, out, block);
                (after, bytes, Ok(n))
            },
        },
    }
}

/// The `i`-th block of a file.
pub open spec fn nth_block(r: Reads, bs: usize, inode: Inode, i: int) -> Result<
    Seq<u8>,
    ErrorView,
> {
    (r.block)(inode, (i * bs) as usize)
}

/// Whether the `i`-th block of a file can be read, and has the bytes that it
/// should have.
pub open spec fn readable_block(r: Reads, bs: usize, inode: Inode, i: int) -> bool {
    &&& nth_block(r, bs, inode, i) is Ok
    &&& nth_block(r, bs, inode, i)->Ok_0.len() == min_int(
        bs as int,
        inode.data_size_spec() - i * bs,
    )
}

/// The bytes of a file: those of its blocks, one behind the other. They are
/// arbitrary where a block cannot be read.
pub open spec fn file_content(r: Reads, bs: usize, inode: Inode) -> Seq<u8> {
    Seq::new(
        inode.data_size_spec() as nat,
        |j: int| nth_block(r, bs, inode, j / bs as int)->Ok_0[j % bs as int],
    )
}

/// The first block of a file from the `i`-th on that cannot be read, or else how
/// many blocks there are.
pub open spec fn first_unreadable(r: Reads, bs: usize, inode: Inode, i: int) -> int
    decreases units(inode.data_size_spec() as int, bs as int) - i,
{
    if i >= units(inode.data_size_spec() as int, bs as int) {
        units(inode.data_size_spec() as int, bs as int)
    } else if nth_block(r, bs, inode, i) is Err {
        i
    } else {
        first_unreadable(r, bs, inode, i + 1)
    }
}

/// How far a file can be read from `offset` on: to its end, or to the start of
/// the first block that cannot be read.
pub open spec fn readable_end(r: Reads, bs: usize, inode: Inode, offset: int) -> int {
    let size = inode.data_size_spec() as int;
    if offset >= size {
        size
    } else {
        min_int(first_unreadable(r, bs, inode, offset / bs as int) * bs, size)
    }
}

impl FileView {
    /// Whether the position is one that reading comes to: it is at the start of a
    /// block or at the end of the file, or within the block that was kept.
    pub open spec fn in_step(self, r: Reads, bs: usize) -> bool {
        let size = self.inode.data_size_spec();
        &&& self.offset <= size
        &&& self.buf is None ==> self.offset == size || self.offset as int % bs as int == 0
        &&& self.buf is Some ==> {
            &&& self.offset < size
            &&& nth_block(r, bs, self.inode, self.offset as int / bs as int) == Ok::<
                Seq<u8>,
                ErrorView,
            >(self.buf->0)
        }
    }
}

/// A byte of a file lies in one of its blocks.
pub(crate) proof fn lemma_block_index(size: int, bs: int, offset: int)
    requires
        1 <= bs,
        0 <= offset < size,
    ensures
        0 <= offset / bs < units(size, bs),
        (offset / bs) * bs + offset % bs == offset,
        0 <= offset % bs < bs,
        0 <= (offset / bs) * bs <= offset,
{
    lemma_fundamental_div_mod(offset, bs);
    lemma_fundamental_div_mod(size, bs);
    lemma_mod_bound(offset, bs);
    lemma_mod_bound(size, bs);
    let q = offset / bs;
    let p = size / bs;
    assert(q * bs == bs * q) by (nonlinear_arith);
    assert(0 <= q) by (nonlinear_arith)
        requires
            bs * q + offset % bs == offset,
            0 <= offset,
            offset % bs < bs,
            1 <= bs,
    ;
    assert(0 <= bs * q) by (nonlinear_arith)
        requires
            0 <= q,
            1 <= bs,
    ;
    assert(q < units(size, bs)) by (nonlinear_arith)
        requires
            bs * q + offset % bs == offset,
            bs * p + size % bs == size,
            0 <= offset % bs < bs,
            0 <= size % bs < bs,
            offset < size,
            1 <= bs,
            units(size, bs) == if size % bs == 0 {
                p
            } else {
                p + 1
            },
    {
        if size % bs == 0 {
            assert(bs * q < bs * p);
            assert(q < p);
        } else {
            assert(bs * q < bs * (p + 1));
            assert(q < p + 1);
        }
    }
}

/// The bytes of the block `i` are those of the file from its start on.
proof fn lemma_block_bytes(r: Reads, bs: usize, inode: Inode, i: int, k: int)
    requires
        bs > 1,
        0 <= i < units(inode.data_size_spec() as int, bs as int),
        readable_block(r, bs, inode, i),
        0 <= k < nth_block(r, bs, inode, i)->Ok_0.len(),
    ensures
        0 <= i * bs + k < inode.data_size_spec(),
        file_content(r, bs, inode)[i * bs + k] == nth_block(r, bs, inode, i)->Ok_0[k],
{
    lemma_block_start(inode.data_size_spec() as int, bs as int, i);
    lemma_fundamental_div_mod_converse(i * bs + k, bs as int, i, k);
}

/// Reading a file gives its bytes in order: where the block at the position can be
/// read, a read gives bytes that follow the position, and moves the position
/// behind them. It gives none only at the end of the file or into no room.
pub proof fn reading_gives_the_content(r: Reads, bs: usize, v: FileView, out: Seq<u8>)
    requires
        bs > 1,
        v.in_step(r, bs),
        v.offset < v.inode.data_size_spec() ==> readable_block(
            r,
            bs,
            v.inode,
            v.offset as int / bs as int,
        ),
        out.len() <= usize::MAX,
    ensures
        ({
            let (after, bytes, x) = file_read(r, bs, v, out);
            &&& x is Ok
            &&& after.inode == v.inode
            &&& after.in_step(r, bs)
            &&& after.offset == v.offset + x->Ok_0
            &&& bytes.len() == out.len()
            &&& x->Ok_0 <= out.len()
            &&& bytes.take(x->Ok_0 as int) == file_content(r, bs, v.inode).subrange(
                v.offset as int,
                after.offset as int,
            )
            &&& bytes.skip(x->Ok_0 as int) == out.skip(x->Ok_0 as int)
            &&& x->Ok_0 == 0 <==> v.offset == v.inode.data_size_spec() || out.len() == 0
        }),
{
    let size = v.inode.data_size_spec() as int;
    let content = file_content(r, bs, v.inode);
    let (after, bytes, x) = file_read(r, bs, v, out);
    if v.offset < size {
        let i = v.offset as int / bs as int;
        let at = v.offset as int % bs as int;
        lemma_block_index(size, bs as int, v.offset as int);
        let block = nth_block(r, bs, v.inode, i)->Ok_0;
        if v.buf is None {
            assert(i * bs == v.offset);
        }
        let n = x->Ok_0 as int;
        assert(n <= block.len() - at);
        assert forall|k: int| 0 <= k < n implies bytes[k] == content[v.offset + k] by {
            lemma_block_bytes(r, bs, v.inode, i, at + k);
            assert(i * bs + (at + k) == v.offset + k);
        }
        assert(after.offset == v.offset + n);
        assert(bytes.take(n) =~= content.subrange(v.offset as int, after.offset as int));
        assert(bytes.skip(n) =~= out.skip(n));
        let end = i * bs + block.len();
        if after.offset < size && after.offset < end {
            lemma_fundamental_div_mod_converse(
                after.offset as int,
                bs as int,
                i,
                after.offset - i * bs,
            );
        } else if after.offset < size {
            assert(after.offset == (i + 1) * bs) by (nonlinear_arith)
                requires
                    after.offset == i * bs + bs,
            ;
            lemma_fundamental_div_mod_converse(after.offset as int, bs as int, i + 1, 0);
        }
    } else {
        assert(bytes.take(0) =~= content.subrange(v.offset as int, v.offset as int));
    }
}

/// A file can be read from a position within it on, unless the block there cannot
/// be read. After a read it can be read as far as before.
pub(crate) proof fn lemma_readable_end(r: Reads, bs: usize, v: FileView, out: Seq<u8>)
    requires
        bs > 1,
        v.in_step(r, bs),
        v.offset < v.inode.data_size_spec(),
        nth_block(r, bs, v.inode, v.offset as int / bs as int) is Ok ==> readable_block(
            r,
            bs,
            v.inode,
            v.offset as int / bs as int,
        ),
        out.len() <= usize::MAX,
    ensures
        ({
            let i = v.offset as int / bs as int;
            let (after, bytes, x) = file_read(r, bs, v, out);
            let end = readable_end(r, bs, v.inode, v.offset as int);
            &&& 0 <= i < units(v.inode.data_size_spec() as int, bs as int)
            &&& v.offset <= end <= v.inode.data_size_spec()
            &&& match nth_block(r, bs, v.inode, i) {
                Err(e) => {
                    &&& end == v.offset
                    &&& x == Err::<usize, ErrorView>(e)
                    &&& after == v
                    &&& bytes == out
                },
                Ok(_) => readable_end(r, bs, v.inode, after.offset as int) == end,
            }
        }),
{
    let size = v.inode.data_size_spec() as int;
    let b = bs as int;
    let count = units(size, b);
    let i = v.offset as int / b;
    lemma_block_index(size, b, v.offset as int);
    lemma_first_unreadable(r, bs, v.inode, i);
    let first = first_unreadable(r, bs, v.inode, i);
    assert(first * b >= i * b) by (nonlinear_arith)
        requires
            first >= i,
            b >= 1,
    ;
    if nth_block(r, bs, v.inode, i) is Ok {
        reading_gives_the_content(r, bs, v, out);
        let (after, bytes, x) = file_read(r, bs, v, out);
        let block = nth_block(r, bs, v.inode, i)->Ok_0;
        assert(first >= i + 1) by {
            lemma_first_unreadable(r, bs, v.inode, i + 1);
        }
        assert(first * b >= i * b + b) by (nonlinear_arith)
            requires
                first >= i + 1,
                b >= 1,
        ;
        let o = after.offset as int;
        assert(o <= i * b + block.len());
        if o >= size {
            lemma_last_block(size, b, i);
            assert(first * b >= size) by (nonlinear_arith)
                requires
                    first >= count,
                    count * b >= size,
                    b >= 1,
            ;
        } else if o < i * b + b {
            lemma_fundamental_div_mod_converse(o, b, i, o - i * b);
        } else {
            assert(o == (i + 1) * b) by (nonlinear_arith)
                requires
                    o == i * b + b,
            ;
            lemma_fundamental_div_mod_converse(o, b, i + 1, 0);
        }
    }
}

proof fn lemma_first_unreadable(r: Reads, bs: usize, inode: Inode, i: int)
    requires
        0 <= i <= units(inode.data_size_spec() as int, bs as int),
    ensures
        i <= first_unreadable(r, bs, inode, i) <= units(inode.data_size_spec() as int, bs as int),
    decreases units(inode.data_size_spec() as int, bs as int) - i,
{
    if i < units(inode.data_size_spec() as int, bs as int) {
        if nth_block(r, bs, inode, i) is Ok {
            lemma_first_unreadable(r, bs, inode, i + 1);
        }
    }
}

/// The block that reaches the end of the file is the last one.
proof fn lemma_last_block(size: int, bs: int, i: int)
    requires
        0 <= size,
        1 <= bs,
        0 <= i < units(size, bs),
        i * bs + bs >= size,
    ensures
        i == units(size, bs) - 1,
        units(size, bs) * bs >= size,
{
    lemma_block_rest(size, bs, i);
    assert((i + 1) * bs == i * bs + bs) by (nonlinear_arith);
}

/// In an image, a block of a file that can be read has the bytes that it should
/// have: all but the last have the block size, and the last has the rest.
pub proof fn blocks_have_their_size(core: EroFSCore, img: Seq<u8>, inode: Inode, i: int)
    requires
        core.wf(),
        0 <= i < units(inode.data_size_spec() as int, core.block_size as int),
    ensures
        nth_block(core.reads(img), core.block_size, inode, i) is Ok ==> readable_block(
            core.reads(img),
            core.block_size,
            inode,
            i,
        ),
{
    let size = inode.data_size_spec() as int;
    let bs = core.block_size as int;
    lemma_block_start(size, bs, i);
    lemma_block_rest(size, bs, i);
    lemma_fundamental_div_mod_converse(i * bs, bs, i, 0);
    direct_reads_fit_a_block(core, inode, (i * bs) as usize);
}

/// Where the `i`-th block of a file starts is within the file, and the block is the
/// `i`-th there.
proof fn lemma_block_offset(core: EroFSCore, inode: Inode, i: int)
    requires
        core.wf(),
        0 <= i < units(inode.data_size_spec() as int, core.block_size as int),
    ensures
        0 <= i * core.block_size < inode.data_size_spec(),
        ((i * core.block_size) as usize) as int / core.block_size as int == i,
{
    let bs = core.block_size as int;
    lemma_block_start(inode.data_size_spec() as int, bs, i);
    lemma_fundamental_div_mod_converse(i * bs, bs, i, 0);
}

/// A file with the flat layout lies in one piece: its bytes are those of the image from
/// its block address on.
pub proof fn flat_file_lies_in_one_piece(core: EroFSCore, img: Seq<u8>, inode: Inode)
    requires
        core.wf(),
        layout_of_format(inode.format_spec()) == Ok::<Layout, ErrorView>(Layout::FlatPlain),
        inode.raw_block_addr_spec() * core.block_size + inode.data_size_spec() <= img.len(),
        img.len() <= usize::MAX,
    ensures
        forall|i: int|
            0 <= i < units(inode.data_size_spec() as int, core.block_size as int)
                ==> #[trigger] readable_block(core.reads(img), core.block_size, inode, i),
        ({
            let start = inode.raw_block_addr_spec() * core.block_size;
            file_content(core.reads(img), core.block_size, inode) == img.subrange(
                start,
                start + inode.data_size_spec(),
            )
        }),
{
    let size = inode.data_size_spec() as int;
    let bs = core.block_size as int;
    let r = core.reads(img);
    let start = inode.raw_block_addr_spec() * bs;
    assert forall|i: int| 0 <= i < units(size, bs) implies {
        &&& #[trigger] readable_block(r, core.block_size, inode, i)
        &&& nth_block(r, core.block_size, inode, i)->Ok_0 == img.subrange(
            start + i * bs,
            start + i * bs + min_int(bs, size - i * bs),
        )
    } by {
        lemma_block_offset(core, inode, i);
        assert((inode.raw_block_addr_spec() + i) * bs == start + i * bs) by (nonlinear_arith)
            requires
                start == inode.raw_block_addr_spec() * bs,
        ;
        assert(0 <= start) by (nonlinear_arith)
            requires
                start == inode.raw_block_addr_spec() * bs,
                0 <= bs,
        ;
        blocks_have_their_size(core, img, inode, i);
    }
    assert forall|j: int| 0 <= j < size implies file_content(r, core.block_size, inode)[j]
        == img[start + j] by {
        lemma_block_index(size, bs, j);
        assert(readable_block(r, core.block_size, inode, j / bs));
    }
    assert(file_content(r, core.block_size, inode) =~= img.subrange(start, start + size));
}

/// A file with the inline layout lies in two pieces: all blocks but the last one from
/// its block address on, and the last one behind its inode and the attributes.
pub proof fn inline_file_ends_behind_its_inode(core: EroFSCore, img: Seq<u8>, inode: Inode)
    requires
        core.wf(),
        layout_of_format(inode.format_spec()) == Ok::<Layout, ErrorView>(Layout::FlatInline),
        inode.data_size_spec() > 0,
        ({
            let bs = core.block_size as int;
            let full = (units(inode.data_size_spec() as int, bs) - 1) * bs;
            &&& inode.raw_block_addr_spec() * bs + full <= img.len()
            &&& core.inode_end_spec(inode) + (inode.data_size_spec() - full) <= img.len()
        }),
        img.len() <= usize::MAX,
    ensures
        forall|i: int|
            0 <= i < units(inode.data_size_spec() as int, core.block_size as int)
                ==> #[trigger] readable_block(core.reads(img), core.block_size, inode, i),
        ({
            let bs = core.block_size as int;
            let full = (units(inode.data_size_spec() as int, bs) - 1) * bs;
            let start = inode.raw_block_addr_spec() * bs;
            let end = core.inode_end_spec(inode);
            file_content(core.reads(img), core.block_size, inode) == img.subrange(
                start,
                start + full,
            ) + img.subrange(end, end + (inode.data_size_spec() - full))
        }),
{
    let size = inode.data_size_spec() as int;
    let bs = core.block_size as int;
    let r = core.reads(img);
    let last = units(size, bs) - 1;
    let full = last * bs;
    let start = inode.raw_block_addr_spec() * bs;
    let end = core.inode_end_spec(inode);
    lemma_block_index(size, bs, size - 1);
    lemma_block_start(size, bs, last);
    assert(0 <= start) by (nonlinear_arith)
        requires
            start == inode.raw_block_addr_spec() * bs,
            0 <= bs,
    ;
    assert forall|i: int| 0 <= i <= last implies {
        &&& #[trigger] readable_block(r, core.block_size, inode, i)
        &&& nth_block(r, core.block_size, inode, i)->Ok_0 == if i == last {
            img.subrange(end, end + (size - full))
        } else {
            img.subrange(start + i * bs, start + i * bs + bs)
        }
    } by {
        lemma_block_offset(core, inode, i);
        lemma_block_rest(size, bs, i);
        assert((inode.raw_block_addr_spec() + i) * bs == start + i * bs) by (nonlinear_arith)
            requires
                start == inode.raw_block_addr_spec() * bs,
        ;
        if i < last {
            assert(i * bs + bs <= full) by (nonlinear_arith)
                requires
                    i < last,
                    full == last * bs,
                    0 <= bs,
            ;
        }
        blocks_have_their_size(core, img, inode, i);
    }
    let content = file_content(r, core.block_size, inode);
    let pieces = img.subrange(start, start + full) + img.subrange(end, end + (size - full));
    assert forall|j: int| 0 <= j < size implies content[j] == pieces[j] by {
        lemma_block_index(size, bs, j);
        let i = j / bs;
        assert(readable_block(r, core.block_size, inode, i));
        if i < last {
            assert(i * bs + bs <= full) by (nonlinear_arith)
                requires
                    i < last,
                    full == last * bs,
                    0 <= bs,
            ;
        }
    }
    assert(content =~= pieces);
}

/// Where the chunk that holds the `i`-th block of a file starts, in blocks: the
/// addresses of the chunks follow the inode and the attributes.
pub open spec fn chunk_address(core: EroFSCore, img: Seq<u8>, inode: Inode, i: int) -> i32 {
    let per_chunk = (1usize << inode.raw_block_addr_spec()) as int;
    le_i32(img, core.inode_end_spec(inode) + 4 * (i / per_chunk))
}

/// A block of a file in chunks lies in its chunk: it is the block of the image that
/// follows the start of the chunk by as many blocks as it does in the chunk.
pub proof fn chunked_file_lies_in_its_chunks(core: EroFSCore, img: Seq<u8>, inode: Inode, i: int)
    requires
        core.wf(),
        layout_of_format(inode.format_spec()) == Ok::<Layout, ErrorView>(Layout::ChunkBased),
        inode.raw_block_addr_spec() < 32,
        0 <= i < units(inode.data_size_spec() as int, core.block_size as int),
        img.len() <= usize::MAX,
        ({
            let per_chunk = (1usize << inode.raw_block_addr_spec()) as int;
            let bs = core.block_size as int;
            let start = (chunk_address(core, img, inode, i) + i % per_chunk) * bs;
            &&& core.inode_end_spec(inode) + 4 * (i / per_chunk) + 4 <= img.len()
            &&& chunk_address(core, img, inode, i) >= 0
            &&& start + min_int(bs, inode.data_size_spec() - i * bs) <= img.len()
        }),
    ensures
        readable_block(core.reads(img), core.block_size, inode, i),
        ({
            let per_chunk = (1usize << inode.raw_block_addr_spec()) as int;
            let bs = core.block_size as int;
            let start = (chunk_address(core, img, inode, i) + i % per_chunk) * bs;
            nth_block(core.reads(img), core.block_size, inode, i)->Ok_0 == img.subrange(
                start,
                start + min_int(bs, inode.data_size_spec() - i * bs),
            )
        }),
{
    let size = inode.data_size_spec() as int;
    let bs = core.block_size as int;
    let format = inode.raw_block_addr_spec();
    assert(1 <= (1usize << format)) by (bit_vector)
        requires
            format < 32,
    ;
    let per_chunk = (1usize << format) as int;
    lemma_block_offset(core, inode, i);
    lemma_units_bound(size, bs);
    lemma_fundamental_div_mod(i, per_chunk);
    lemma_mod_bound(i, per_chunk);
    lemma_block_index(units(size, bs), per_chunk, i);
    lemma_units_bound(units(size, bs), per_chunk);
    let fixed = i % per_chunk;
    let addr = chunk_address(core, img, inode, i) as int;
    assert(0 <= (addr + fixed) * bs) by (nonlinear_arith)
        requires
            0 <= addr,
            0 <= fixed,
            0 <= bs,
    ;
    assert(fixed <= i && i / per_chunk <= i) by (nonlinear_arith)
        requires
            i == per_chunk * (i / per_chunk) + fixed,
            0 <= i / per_chunk,
            0 <= fixed,
            1 <= per_chunk,
    ;
    blocks_have_their_size(core, img, inode, i);
}

/// The reading of a file.
#[derive(Debug)]
pub struct FileReader<B: Block> {
    inode: Inode,
    offset: usize,
    buf: Option<B>,
}

impl<B: Block> View for FileReader<B> {
    type V = FileView;

    closed spec fn view(&self) -> FileView {
        FileView {
            inode: self.inode,
            offset: self.offset,
            buf: match self.buf {
                Some(b) => Some(b.bytes()),
                None => None,
            },
        }
    }
}

/// Copies the `n` bytes of `data` from `at` on to the start of `out`.
fn copy_into(out: &mut [u8], data: &[u8], at: usize, n: usize)
    requires
        n <= old(out)@.len(),
        n == 0 || at + n <= data@.len(),
    ensures
        final(out)@ == overlaid(old(out)@, data@, at as int, n as int),
{
    let mut k: usize = 0;
    while k < n
        invariant
            k <= n,
            n <= old(out)@.len(),
            n == 0 || at + n <= data@.len(),
            out@.len() == old(out)@.len(),
            forall|j: int| 0 <= j < k ==> out@[j] == data@[at + j],
            forall|j: int| k <= j < out@.len() ==> out@[j] == old(out)@[j],
        decreases n - k,
    {
        assert(data.len() == data@.len());
        out[k] = data[at + k];
        k = k + 1;
    }
    assert(out@ =~= overlaid(old(out)@, data@, at as int, n as int));
}

fn min_size(a: usize, b: usize) -> (m: usize)
    ensures
        m == min_int(a as int, b as int),
{
    if a <= b {
        a
    } else {
        b
    }
}

impl<B: Block> FileReader<B> {
    /// Starts to read the file with this inode.
    pub fn new(inode: Inode) -> (f: Self)
        ensures
            f@ == (FileView { inode, offset: 0, buf: None }),
    {
        FileReader { inode, offset: 0, buf: None }
    }

    /// The size of the file in bytes.
    pub fn size(&self) -> (n: usize)
        ensures
            n == self@.inode.data_size_spec(),
    {
        self.inode.data_size()
    }

    /// The inode of the file.
    pub fn inode(&self) -> (inode: Inode)
        ensures
            inode == self@.inode,
    {
        self.inode
    }

    /// Reads into `out` from the block that was kept, or tells which block is
    /// needed. At the end of the file no bytes are read.
    pub fn step(&mut self, block_size: usize, out: &mut [u8]) -> (s: ReadStep)
        requires
            block_size > 0,
        ensures
            (final(self)@, final(out)@, s) == read_step(old(self)@, block_size, old(out)@),
    {
        if self.offset >= self.inode.data_size() {
            return ReadStep::Done(0);
        }
        match &self.buf {
            None => ReadStep::ReadBlock(self.offset),
            Some(block) => {
                let data = block.as_bytes();
                let at = self.offset % block_size;
                let remaining = data.len().saturating_sub(at);
                let n = min_size(out.len(), remaining);
                copy_into(out, data, at, n);
                self.offset = self.offset.saturating_add(n);
                if n == remaining {
                    self.buf = None;
                }
                ReadStep::Done(n)
            },
        }
    }

    /// Reads into `out` from the block that was needed.
    pub fn block_read(&mut self, block_size: usize, out: &mut [u8], block: B) -> (n: usize)
        requires
            block_size > 0,
        ensures
            (final(self)@, final(out)@, n) == read_with_block(
                old(self)@,
                block_size,
                old(out)@,
                block.bytes(),
            ),
    {
        let data = block.as_bytes();
        if out.len() >= data.len() {
            let n = data.len();
            copy_into(out, data, 0, n);
            self.offset = self.offset.saturating_add(n);
            n
        } else {
            let at = self.offset % block_size;
            let n = min_size(out.len(), data.len().saturating_sub(at));
            copy_into(out, data, at, n);
            self.offset = self.offset.saturating_add(n);
            self.buf = Some(block);
            n
        }
    }
}

impl FileReader<bytes::Bytes> {
    /// Reads into `out` from the block that was needed, which is handed over.
    pub fn owned_block_read(&mut self, block_size: usize, out: &mut [u8], block: Vec<u8>) -> (n:
        usize)
        requires
            block_size > 0,
        ensures
            (final(self)@, final(out)@, n) == read_with_block(
                old(self)@,
                block_size,
                old(out)@,
                block@,
            ),
    {
        self.block_read(block_size, out, share(block))
    }
}

} // verus!
