//! Where the bytes of a file lie, and what reading it gives.

use vstd::prelude::*;

#[allow(unused_imports)]
use crate::error::ErrorView;
#[allow(unused_imports)]
use crate::filesystem::{
    lemma_block_rest, lemma_block_start, lemma_units_bound, units, BlockPlan, EroFSCore,
};
#[allow(unused_imports)]
use crate::laws::disk::{
    inode_says_what_it_holds, numbers_have_their_low_bytes_first, u32_at,
};
#[allow(unused_imports)]
use crate::lookup::Reads;
#[allow(unused_imports)]
use crate::reader::{
    chunked_file_lies_in_its_chunks, file_content, file_read, first_unreadable,
    flat_file_lies_in_one_piece, inline_file_ends_behind_its_inode, lemma_block_index,
    readable_block, readable_end, reading_gives_the_content, FileView,
};
#[allow(unused_imports)]
use crate::types::{Inode, InodeBody};
#[allow(unused_imports)]
use vstd::arithmetic::div_mod::{
    lemma_fundamental_div_mod, lemma_fundamental_div_mod_converse, lemma_mod_bound,
};
#[allow(unused_imports)]
use vstd::arithmetic::power2::pow2;

verus! {

/// The `i`-th block of a file.
pub open spec fn piece(r: Reads, bs: usize, inode: Inode, i: int) -> Result<Seq<u8>, ErrorView> {
    (r.block)(inode, (i * bs) as usize)
}

/// The number in the inode that tells the layout.
pub open spec fn layout_number(inode: Inode) -> int {
    match inode.body {
        InodeBody::Compact(b) => b.format as int / 2 % 8,
        InodeBody::Extended(b) => b.format as int / 2 % 8,
    }
}

/// How many bytes a file has.
pub open spec fn size_of(inode: Inode) -> int {
    match inode.body {
        InodeBody::Compact(b) => b.size as int,
        InodeBody::Extended(b) => b.size as int,
    }
}

/// The number in the inode that tells where the data is.
pub open spec fn data_number(inode: Inode) -> int {
    match inode.body {
        InodeBody::Compact(b) => b.inode_data as int,
        InodeBody::Extended(b) => b.inode_data as int,
    }
}

/// Where the bytes of an inode start.
pub open spec fn inode_from(core: EroFSCore, inode: Inode) -> int {
    core.super_block.meta_blk_addr * core.block_size + 32 * inode.nid
}

/// Where the bytes of an inode end: it takes 32 bytes in the short form and 64 in the long
/// one.
pub open spec fn inode_to(core: EroFSCore, inode: Inode) -> int {
    match inode.body {
        InodeBody::Compact(_) => inode_from(core, inode) + 32,
        InodeBody::Extended(_) => inode_from(core, inode) + 64,
    }
}

/// Where the attributes behind an inode end. They take no bytes where there are none, and
/// else 12 bytes and 4 for each but the first.
pub open spec fn behind(core: EroFSCore, inode: Inode) -> int {
    let count = match inode.body {
        InodeBody::Compact(b) => b.xattr_count as int,
        InodeBody::Extended(b) => b.xattr_count as int,
    };
    inode_to(core, inode) + if count == 0 {
        0
    } else {
        12 + 4 * (count - 1)
    }
}

proof fn lemma_numbers(core: EroFSCore, inode: Inode)
    requires
        core.wf(),
        size_of(inode) <= usize::MAX,
        inode_from(core, inode) <= u64::MAX,
    ensures
        inode.data_size_spec() == size_of(inode),
        inode.raw_block_addr_spec() == data_number(inode),
        core.inode_end_spec(inode) == behind(core, inode),
        inode.format_spec() as int / 2 % 8 == layout_number(inode),
        inode_from(core, inode) >= 0,
{
    inode_says_what_it_holds(inode);
    assert(0 <= core.super_block.meta_blk_addr * core.block_size) by (nonlinear_arith)
        requires
            0 <= core.super_block.meta_blk_addr,
            0 <= core.block_size,
    ;
}

/// A file with the layout 0 lies in one piece, from the start of the block that its inode
/// tells on.
pub proof fn flat_files_lie_in_one_piece(core: EroFSCore, img: Seq<u8>, inode: Inode)
    requires
        core.wf(),
        layout_number(inode) == 0,
        data_number(inode) * core.block_size + size_of(inode) <= img.len(),
        img.len() <= usize::MAX,
    ensures
        file_content(core.reads(img), core.block_size, inode) == img.subrange(
            data_number(inode) * core.block_size,
            data_number(inode) * core.block_size + size_of(inode),
        ),
        forall|i: int|
            0 <= i && i * core.block_size < size_of(inode) ==> #[trigger] piece(
                core.reads(img),
                core.block_size,
                inode,
                i,
            ) is Ok,
{
    lemma_size(core, inode, img);
    flat_file_lies_in_one_piece(core, img, inode);
    lemma_all_blocks(core, img, inode);
}

proof fn lemma_size(core: EroFSCore, inode: Inode, img: Seq<u8>)
    requires
        core.wf(),
        data_number(inode) * core.block_size + size_of(inode) <= img.len() || size_of(inode)
            <= usize::MAX,
        img.len() <= usize::MAX,
    ensures
        size_of(inode) <= usize::MAX,
        inode.data_size_spec() == size_of(inode),
        inode.raw_block_addr_spec() == data_number(inode),
        inode.format_spec() as int / 2 % 8 == layout_number(inode),
{
    assert(0 <= data_number(inode) * core.block_size) by (nonlinear_arith)
        requires
            0 <= data_number(inode),
            0 <= core.block_size,
    ;
    inode_says_what_it_holds(inode);
}

proof fn lemma_all_blocks(core: EroFSCore, img: Seq<u8>, inode: Inode)
    requires
        core.wf(),
        inode.data_size_spec() == size_of(inode),
        forall|i: int|
            0 <= i < units(inode.data_size_spec() as int, core.block_size as int)
                ==> #[trigger] readable_block(core.reads(img), core.block_size, inode, i),
    ensures
        forall|i: int|
            0 <= i && i * core.block_size < size_of(inode) ==> #[trigger] piece(
                core.reads(img),
                core.block_size,
                inode,
                i,
            ) is Ok,
{
    let bs = core.block_size as int;
    assert forall|i: int| 0 <= i && i * bs < size_of(inode) implies #[trigger] piece(
        core.reads(img),
        core.block_size,
        inode,
        i,
    ) is Ok by {
        lemma_fundamental_div_mod_converse(i * bs, bs, i, 0);
        lemma_block_index(size_of(inode), bs, i * bs);
        assert(readable_block(core.reads(img), core.block_size, inode, i));
    }
}

/// A file with the layout 2 lies in two pieces. All but its last block lie from the start of
/// the block that its inode tells on, and the last one right behind the inode and its
/// attributes, never within the bytes of the inode.
pub proof fn inline_files_end_behind_their_inode(
    core: EroFSCore,
    img: Seq<u8>,
    inode: Inode,
    full: int,
)
    requires
        core.wf(),
        layout_number(inode) == 2,
        0 <= full,
        full * core.block_size < size_of(inode) <= (full + 1) * core.block_size,
        data_number(inode) * core.block_size + full * core.block_size <= img.len(),
        behind(core, inode) + (size_of(inode) - full * core.block_size) <= img.len(),
        img.len() <= usize::MAX,
        size_of(inode) <= usize::MAX,
    ensures
        ({
            let start = data_number(inode) * core.block_size;
            let head = full * core.block_size;
            let end = behind(core, inode);
            &&& file_content(core.reads(img), core.block_size, inode) == img.subrange(
                start,
                start + head,
            ) + img.subrange(end, end + (size_of(inode) - head))
            &&& end >= inode_to(core, inode)
        }),
        forall|i: int|
            0 <= i && i * core.block_size < size_of(inode) ==> #[trigger] piece(
                core.reads(img),
                core.block_size,
                inode,
                i,
            ) is Ok,
{
    let bs = core.block_size as int;
    lemma_numbers(core, inode);
    lemma_full_blocks(size_of(inode), bs, full);
    inline_file_ends_behind_its_inode(core, img, inode);
    lemma_all_blocks(core, img, inode);
}

proof fn lemma_full_blocks(size: int, bs: int, full: int)
    requires
        1 < bs,
        0 <= full,
        full * bs < size <= (full + 1) * bs,
    ensures
        units(size, bs) == full + 1,
{
    assert((full + 1) * bs == full * bs + bs) by (nonlinear_arith);
    assert(0 <= full * bs) by (nonlinear_arith)
        requires
            0 <= full,
            1 < bs,
    ;
    lemma_fundamental_div_mod_converse(full * bs, bs, full, 0);
    lemma_block_index(size, bs, full * bs);
    if full < units(size, bs) - 1 {
        lemma_block_rest(size, bs, full);
    }
}

/// The number of the block where a chunk starts: it is stored right behind the inode and its
/// attributes, four bytes for each chunk. The data number of the inode tells how many blocks
/// a chunk has, as a power of two.
pub open spec fn chunk_start(core: EroFSCore, img: Seq<u8>, inode: Inode, i: int) -> int {
    u32_at(img, behind(core, inode) + 4 * (i / pow2(data_number(inode) as nat) as int))
}

/// The `i`-th block of a file with the layout 4 lies in its chunk, as many blocks behind the
/// start of the chunk as it is in the chunk. It has the bytes that are left of the file, up
/// to the block size.
pub proof fn chunked_files_lie_in_their_chunks(core: EroFSCore, img: Seq<u8>, inode: Inode, i: int)
    requires
        core.wf(),
        layout_number(inode) == 4,
        data_number(inode) < 32,
        0 <= i,
        i * core.block_size < size_of(inode) <= usize::MAX,
        img.len() <= usize::MAX,
        behind(core, inode) + 4 * (i / pow2(data_number(inode) as nat) as int) + 4 <= img.len(),
        chunk_start(core, img, inode, i) < 0x8000_0000,
        ({
            let bs = core.block_size as int;
            let rest = size_of(inode) - i * bs;
            let start = (chunk_start(core, img, inode, i) + i % pow2(
                data_number(inode) as nat,
            ) as int) * bs;
            start + (if rest < bs {
                rest
            } else {
                bs
            }) <= img.len()
        }),
    ensures
        ({
            let bs = core.block_size as int;
            let rest = size_of(inode) - i * bs;
            let start = (chunk_start(core, img, inode, i) + i % pow2(
                data_number(inode) as nat,
            ) as int) * bs;
            piece(core.reads(img), core.block_size, inode, i) == Ok::<Seq<u8>, ErrorView>(
                img.subrange(
                    start,
                    start + (if rest < bs {
                        rest
                    } else {
                        bs
                    }),
                ),
            )
        }),
{
    let bs = core.block_size as int;
    let d = data_number(inode);
    lemma_power(d as u32);
    let per_chunk = pow2(d as nat) as int;
    assert(0 <= i / per_chunk) by {
        vstd::arithmetic::div_mod::lemma_div_pos_is_pos(i, per_chunk);
    }
    lemma_numbers(core, inode);
    numbers_have_their_low_bytes_first(img, behind(core, inode) + 4 * (i / per_chunk));
    lemma_fundamental_div_mod_converse(i * bs, bs, i, 0);
    assert(0 <= i * bs) by (nonlinear_arith)
        requires
            0 <= i,
            0 <= bs,
    ;
    lemma_block_index(size_of(inode), bs, i * bs);
    chunked_file_lies_in_its_chunks(core, img, inode, i);
}

proof fn lemma_power(d: u32)
    requires
        d < 32,
    ensures
        (1usize << d) == pow2(d as nat),
        pow2(d as nat) >= 1,
{
    let n = d as usize;
    assert(1usize << d == 1usize << n);
    vstd::arithmetic::power2::lemma_pow2_pos(n as nat);
    vstd::bits::lemma_usize_pow2_no_overflow(n as nat);
    vstd::bits::lemma_usize_shl_is_mul(1, n);
}

/// So many units hold a size that one less would not.
pub proof fn units_hold_the_size(size: int, unit: int)
    requires
        0 <= size,
        1 <= unit,
    ensures
        size == 0 ==> units(size, unit) == 0,
        size > 0 ==> (units(size, unit) - 1) * unit < size <= units(size, unit) * unit,
        0 <= units(size, unit) <= size,
{
    lemma_units_bound(size, unit);
    let n = units(size, unit);
    if size > 0 {
        lemma_block_index(size, unit, 0);
        lemma_block_start(size, unit, n - 1);
        lemma_block_rest(size, unit, n - 1);
        assert((n - 1) * unit + unit == n * unit) by (nonlinear_arith);
    }
}

/// How many bytes the `i`-th block of a file has: those that are left, up to the block size.
pub open spec fn block_len(core: EroFSCore, inode: Inode, i: int) -> int {
    let rest = size_of(inode) - i * core.block_size;
    if rest < core.block_size {
        rest
    } else {
        core.block_size as int
    }
}

/// Where the `i`-th block of a file with the layout 0 or 2 starts: as many blocks behind the
/// one that the inode tells, but the last block of a file with the layout 2 right behind the
/// inode and its attributes.
pub open spec fn block_from(core: EroFSCore, inode: Inode, i: int) -> int {
    if layout_number(inode) == 2 && size_of(inode) <= i * core.block_size + core.block_size {
        behind(core, inode)
    } else {
        (data_number(inode) + i) * core.block_size
    }
}

/// Where the address of the chunk lies that holds the `i`-th block of a file with the layout
/// 4.
pub open spec fn address_from(core: EroFSCore, inode: Inode, i: int) -> int {
    behind(core, inode) + 4 * (i / pow2(data_number(inode) as nat) as int)
}

proof fn lemma_index(core: EroFSCore, inode: Inode, i: int)
    requires
        core.wf(),
        0 <= i,
        i * core.block_size < size_of(inode) <= usize::MAX,
    ensures
        inode.data_size_spec() == size_of(inode),
        inode.raw_block_addr_spec() == data_number(inode),
        inode.format_spec() as int / 2 % 8 == layout_number(inode),
        0 <= i * core.block_size,
        (i * core.block_size) as usize as int / core.block_size as int == i,
        i < units(size_of(inode), core.block_size as int),
        i == units(size_of(inode), core.block_size as int) - 1 <==> size_of(inode) <= i
            * core.block_size + core.block_size,
        0 <= block_len(core, inode, i) <= core.block_size,
{
    let bs = core.block_size as int;
    inode_says_what_it_holds(inode);
    assert(0 <= i * bs) by (nonlinear_arith)
        requires
            0 <= i,
            0 <= bs,
    ;
    lemma_fundamental_div_mod_converse(i * bs, bs, i, 0);
    lemma_block_index(size_of(inode), bs, i * bs);
    lemma_block_rest(size_of(inode), bs, i);
}

/// The plan for a block of a file tells where the block lies and how many bytes it has. For a
/// file in chunks it tells where the address of the chunk lies, the place of the block in the
/// chunk, how much of the file is left, which chunk it is, and how many chunks hold the file.
pub proof fn a_plan_tells_where_a_block_lies(core: EroFSCore, inode: Inode, i: int)
    requires
        core.wf(),
        0 <= i,
        i * core.block_size < size_of(inode) <= usize::MAX,
        inode_from(core, inode) <= u64::MAX,
    ensures
        (layout_number(inode) == 0 || layout_number(inode) == 2) && block_from(core, inode, i)
            + block_len(core, inode, i) <= usize::MAX ==> core.plan(
            inode,
            (i * core.block_size) as usize,
        ) == Ok::<BlockPlan, ErrorView>(
            BlockPlan::Direct {
                offset: block_from(core, inode, i) as usize,
                size: block_len(core, inode, i) as usize,
            },
        ),
        layout_number(inode) == 4 && data_number(inode) < 32 && address_from(core, inode, i) + 4
            <= usize::MAX ==> (core.plan(inode, (i * core.block_size) as usize) matches Ok(
            BlockPlan::Chunked { addr_offset, chunk_fixed, data_size, chunk_index, chunk_count },
        ) && {
            let per_chunk = pow2(data_number(inode) as nat) as int;
            let chunk = per_chunk * core.block_size;
            &&& addr_offset == address_from(core, inode, i)
            &&& chunk_fixed == i % per_chunk
            &&& data_size == size_of(inode) - i * core.block_size
            &&& chunk_index == i / per_chunk
            &&& (chunk_count - 1) * chunk < size_of(inode) <= chunk_count * chunk
        }),
{
    let bs = core.block_size as int;
    let size = size_of(inode);
    let d = data_number(inode);
    lemma_index(core, inode, i);
    lemma_numbers(core, inode);
    if layout_number(inode) == 4 && d < 32 {
        lemma_power(d as u32);
        let per_chunk = pow2(d as nat) as int;
        let blocks = units(size, bs);
        let chunks = units(blocks, per_chunk);
        units_hold_the_size(size, bs);
        units_hold_the_size(blocks, per_chunk);
        vstd::arithmetic::div_mod::lemma_div_pos_is_pos(i, per_chunk);
        vstd::arithmetic::div_mod::lemma_div_is_ordered_by_denominator(i, 1, per_chunk);
        lemma_mod_bound(i, per_chunk);
        vstd::arithmetic::div_mod::lemma_mod_decreases(i as nat, per_chunk as nat);
        assert(i <= i * bs) by (nonlinear_arith)
            requires
                0 <= i,
                1 <= bs,
        ;
        let chunk = per_chunk * core.block_size;
        assert((chunks - 1) * chunk < size <= chunks * chunk) by (nonlinear_arith)
            requires
                chunk == per_chunk * bs,
                (chunks - 1) * per_chunk <= blocks - 1,
                blocks <= chunks * per_chunk,
                (blocks - 1) * bs < size <= blocks * bs,
                1 <= bs,
        {
            assert((chunks - 1) * (per_chunk * bs) == ((chunks - 1) * per_chunk) * bs);
            assert(((chunks - 1) * per_chunk) * bs <= (blocks - 1) * bs);
            assert(chunks * (per_chunk * bs) == (chunks * per_chunk) * bs);
            assert(blocks * bs <= (chunks * per_chunk) * bs);
        }
    }
}

/// A block of a chunk lies as many blocks behind the address of the chunk as it is in the
/// chunk, and has the bytes that are left, up to the block size. It is an error where the
/// chunk is none of those that there are, was left out or has no address.
pub proof fn a_block_of_a_chunk_lies_behind_its_address(
    core: EroFSCore,
    address: i32,
    fixed: usize,
    left: usize,
    chunk: usize,
    chunks: usize,
)
    requires
        core.wf(),
    ensures
        ({
            let block = core.chunk_block(address, fixed, left, chunk, chunks);
            let from = (address + fixed) * core.block_size;
            let len = if left < core.block_size {
                left
            } else {
                core.block_size
            };
            &&& chunk >= chunks ==> block == Err::<(usize, usize), ErrorView>(
                ErrorView::OutOfBounds("chunk index out of range"@),
            )
            &&& chunk < chunks && address == -1 ==> block == Err::<(usize, usize), ErrorView>(
                ErrorView::NotSupported("sparse chunks are not supported"@),
            )
            &&& chunk < chunks && address < -1 ==> block == Err::<(usize, usize), ErrorView>(
                ErrorView::CorruptedData("invalid chunk address"@),
            )
            &&& chunk < chunks && address >= 0 && from + len <= usize::MAX ==> block == Ok::<
                (usize, usize),
                ErrorView,
            >((from as usize, len))
            &&& chunk < chunks && address >= 0 && from + len > usize::MAX ==> block == Err::<
                (usize, usize),
                ErrorView,
            >(ErrorView::OutOfBounds("block position out of range"@))
        }),
{
}

/// A block of a file with the layout 0 or 2 has the bytes at its place, and is out of bounds
/// where these do not lie within the image. So each block can be read on its own.
pub proof fn a_block_has_the_bytes_at_its_place(core: EroFSCore, img: Seq<u8>, inode: Inode, i: int)
    requires
        core.wf(),
        layout_number(inode) == 0 || layout_number(inode) == 2,
        0 <= i,
        i * core.block_size < size_of(inode) <= usize::MAX,
        img.len() <= usize::MAX,
        img.len() < u64::MAX,
    ensures
        ({
            let from = block_from(core, inode, i);
            let to = from + block_len(core, inode, i);
            let block = piece(core.reads(img), core.block_size, inode, i);
            &&& to <= img.len() ==> block == Ok::<Seq<u8>, ErrorView>(img.subrange(from, to))
            &&& to > img.len() ==> block is Err && block->Err_0 is OutOfBounds
        }),
{
    lemma_index(core, inode, i);
    if inode_from(core, inode) <= u64::MAX {
        lemma_numbers(core, inode);
        if block_from(core, inode, i) + block_len(core, inode, i) <= usize::MAX {
            a_plan_tells_where_a_block_lies(core, inode, i);
        }
        let d = data_number(inode);
        assert(0 <= (d + i) * core.block_size) by (nonlinear_arith)
            requires
                0 <= d,
                0 <= i,
                0 <= core.block_size,
        ;
    }
}

/// A block of a file in chunks is an error where the chunk format or the address of its chunk
/// is none, where its chunk was left out, and where the address or the block does not lie
/// within the image.
pub proof fn chunks_that_cannot_be_read_are_errors(
    core: EroFSCore,
    img: Seq<u8>,
    inode: Inode,
    i: int,
)
    requires
        core.wf(),
        layout_number(inode) == 4,
        0 <= i,
        i * core.block_size < size_of(inode) <= usize::MAX,
        img.len() < usize::MAX,
    ensures
        ({
            let address = address_from(core, inode, i);
            let start = chunk_start(core, img, inode, i);
            let from = (start + i % pow2(data_number(inode) as nat) as int) * core.block_size;
            let block = piece(core.reads(img), core.block_size, inode, i);
            &&& data_number(inode) >= 64 ==> block == Err::<Seq<u8>, ErrorView>(
                ErrorView::CorruptedData("invalid chunk format"@),
            )
            &&& 32 <= data_number(inode) < 64 ==> block == Err::<Seq<u8>, ErrorView>(
                ErrorView::NotSupported("chunk indexes are not supported"@),
            )
            &&& data_number(inode) < 32 && address + 4 > img.len() ==> block is Err
                && block->Err_0 is OutOfBounds
            &&& data_number(inode) < 32 && address + 4 <= img.len() && start == 0xffff_ffff
                ==> block == Err::<Seq<u8>, ErrorView>(
                ErrorView::NotSupported("sparse chunks are not supported"@),
            )
            &&& data_number(inode) < 32 && address + 4 <= img.len() && 0x8000_0000 <= start
                < 0xffff_ffff ==> block == Err::<Seq<u8>, ErrorView>(
                ErrorView::CorruptedData("invalid chunk address"@),
            )
            &&& data_number(inode) < 32 && address + 4 <= img.len() && start < 0x8000_0000 && from
                + block_len(core, inode, i) > img.len() ==> block is Err
                && block->Err_0 is OutOfBounds
        }),
{
    let d = data_number(inode);
    lemma_index(core, inode, i);
    if d < 32 {
        lemma_power(d as u32);
        let per_chunk = pow2(d as nat) as int;
        vstd::arithmetic::div_mod::lemma_div_pos_is_pos(i, per_chunk);
        if inode_from(core, inode) <= u64::MAX {
            lemma_numbers(core, inode);
            let address = address_from(core, inode, i);
            numbers_have_their_low_bytes_first(img, address);
            if address + 4 <= usize::MAX {
                a_plan_tells_where_a_block_lies(core, inode, i);
                let blocks = units(size_of(inode), core.block_size as int);
                lemma_block_index(blocks, per_chunk, i);
                units_hold_the_size(size_of(inode), core.block_size as int);
                units_hold_the_size(blocks, per_chunk);
            }
        }
    }
}

/// A block that a file should have and that cannot be had is an error: compressed layouts,
/// unknown ones, chunks that were left out, and what lies behind the end of the file.
pub proof fn what_cannot_be_read_is_an_error(
    core: EroFSCore,
    img: Seq<u8>,
    inode: Inode,
    offset: usize,
)
    requires
        core.wf(),
    ensures
        layout_number(inode) == 1 || layout_number(inode) == 3 ==> core.block_in(
            img,
            inode,
            offset,
        ) == Err::<Seq<u8>, ErrorView>(
            ErrorView::NotSupported("compressed data is not supported"@),
        ),
        layout_number(inode) > 4 ==> core.block_in(img, inode, offset) == Err::<
            Seq<u8>,
            ErrorView,
        >(ErrorView::NotSupported("unknown data layout"@)),
        (layout_number(inode) == 0 || layout_number(inode) == 2 || layout_number(inode) == 4)
            && size_of(inode) <= offset as int - offset as int % core.block_size as int
            ==> core.block_in(img, inode, offset) == Err::<Seq<u8>, ErrorView>(
            ErrorView::OutOfBounds("block index out of range"@),
        ),
{
    let bs = core.block_size as int;
    let o = offset as int;
    let size = size_of(inode);
    inode_says_what_it_holds(inode);
    if size <= o - o % bs {
        lemma_fundamental_div_mod(o, bs);
        lemma_mod_bound(o, bs);
        let q = o / bs;
        assert(q * bs == bs * q) by (nonlinear_arith);
        if q < units(size, bs) {
            vstd::arithmetic::div_mod::lemma_div_pos_is_pos(o, bs);
            lemma_block_start(size, bs, q);
        }
    }
}

/// All offsets within a block lead to that block.
pub proof fn a_block_is_the_same_from_each_of_its_bytes(
    core: EroFSCore,
    img: Seq<u8>,
    inode: Inode,
    a: usize,
    b: usize,
)
    requires
        core.wf(),
        a as int / core.block_size as int == b as int / core.block_size as int,
    ensures
        core.plan(inode, a) == core.plan(inode, b),
        core.block_in(img, inode, a) == core.block_in(img, inode, b),
{
}

/// Whether the blocks of a file are the pieces of `content`.
pub open spec fn holds(r: Reads, bs: usize, inode: Inode, content: Seq<u8>) -> bool {
    &&& 1 < bs
    &&& content.len() == inode.data_size_spec()
    &&& forall|i: int|
        0 <= i && i * bs < content.len() ==> #[trigger] piece(r, bs, inode, i) == Ok::<
            Seq<u8>,
            ErrorView,
        >(
            content.subrange(
                i * bs,
                if i * bs + bs < content.len() {
                    i * bs + bs
                } else {
                    content.len() as int
                },
            ),
        )
}

/// What a file gives that is read again and again, into one buffer after the other.
pub open spec fn read_in_turn(r: Reads, bs: usize, v: FileView, buffers: Seq<Seq<u8>>) -> Seq<u8>
    decreases buffers.len(),
{
    if buffers.len() == 0 {
        seq![]
    } else {
        let (after, bytes, x) = file_read(r, bs, v, buffers.first());
        match x {
            Ok(n) => bytes.subrange(0, n as int) + read_in_turn(
                r,
                bs,
                after,
                buffers.drop_first(),
            ),
            Err(_) => seq![],
        }
    }
}

/// Where reading comes to with buffers of these sizes: a read goes on to the end of its
/// buffer, of the block or of the file, whichever comes first.
pub open spec fn comes_to(bs: int, size: int, from: int, buffers: Seq<Seq<u8>>) -> int
    decreases buffers.len(),
{
    if buffers.len() == 0 {
        from
    } else {
        comes_to(
            bs,
            size,
            one_read(bs, size, from, buffers.first().len() as int),
            buffers.drop_first(),
        )
    }
}

/// Where one read comes to.
pub open spec fn one_read(bs: int, size: int, from: int, room: int) -> int {
    let block_end = from - from % bs + bs;
    if from >= size {
        from
    } else if from + room < block_end && from + room < size {
        from + room
    } else if block_end < size {
        block_end
    } else {
        size
    }
}

proof fn lemma_held(r: Reads, bs: usize, inode: Inode, content: Seq<u8>, offset: int)
    requires
        holds(r, bs, inode, content),
        0 <= offset < content.len(),
    ensures
        readable_block(r, bs, inode, offset / bs as int),
        file_content(r, bs, inode)[offset] == content[offset],
{
    let b = bs as int;
    let i = offset / b;
    lemma_block_index(content.len() as int, b, offset);
    assert(i * b < content.len());
    assert(piece(r, bs, inode, i) is Ok);
}

proof fn lemma_content(r: Reads, bs: usize, inode: Inode, content: Seq<u8>)
    requires
        holds(r, bs, inode, content),
    ensures
        file_content(r, bs, inode) == content,
{
    assert forall|j: int| 0 <= j < content.len() implies file_content(r, bs, inode)[j]
        == content[j] by {
        lemma_held(r, bs, inode, content, j);
    }
    assert(file_content(r, bs, inode) =~= content);
}

proof fn lemma_one_read(r: Reads, bs: usize, v: FileView, content: Seq<u8>, out: Seq<u8>)
    requires
        holds(r, bs, v.inode, content),
        v.in_step(r, bs),
        out.len() <= usize::MAX,
    ensures
        ({
            let (after, bytes, x) = file_read(r, bs, v, out);
            &&& x is Ok
            &&& after.in_step(r, bs)
            &&& after.inode == v.inode
            &&& after.offset == one_read(
                bs as int,
                content.len() as int,
                v.offset as int,
                out.len() as int,
            )
            &&& after.offset == v.offset + x->Ok_0
            &&& x->Ok_0 <= out.len()
            &&& bytes.len() == out.len()
            &&& bytes.subrange(0, x->Ok_0 as int) == content.subrange(
                v.offset as int,
                after.offset as int,
            )
            &&& bytes.subrange(x->Ok_0 as int, out.len() as int) == out.subrange(
                x->Ok_0 as int,
                out.len() as int,
            )
        }),
{
    let b = bs as int;
    let size = content.len() as int;
    let o = v.offset as int;
    lemma_content(r, bs, v.inode, content);
    let (after, bytes, x) = file_read(r, bs, v, out);
    if o < size {
        lemma_held(r, bs, v.inode, content, o);
        lemma_block_index(size, b, o);
    }
    reading_gives_the_content(r, bs, v, out);
    let n = x->Ok_0 as int;
    assert(bytes.take(n) =~= bytes.subrange(0, n));
    assert(bytes.skip(n) =~= bytes.subrange(n, out.len() as int));
    assert(out.skip(n) =~= out.subrange(n, out.len() as int));
}

/// Reading a file from its start, into buffers of any sizes, gives its bytes in order and
/// without a gap. Each read goes on to the end of its buffer, of the block or of the file,
/// whichever comes first.
pub proof fn a_file_gives_its_bytes_in_order(
    r: Reads,
    bs: usize,
    inode: Inode,
    content: Seq<u8>,
    buffers: Seq<Seq<u8>>,
)
    requires
        holds(r, bs, inode, content),
        forall|k: int| 0 <= k < buffers.len() ==> (#[trigger] buffers[k]).len() <= usize::MAX,
    ensures
        ({
            let start = FileView { inode, offset: 0, buf: None };
            let end = comes_to(bs as int, content.len() as int, 0, buffers);
            &&& 0 <= end <= content.len()
            &&& read_in_turn(r, bs, start, buffers) == content.subrange(0, end)
        }),
{
    vstd::arithmetic::div_mod::lemma_small_mod(0, bs as nat);
    lemma_in_turn(r, bs, FileView { inode, offset: 0, buf: None }, content, buffers);
}

proof fn lemma_in_turn(
    r: Reads,
    bs: usize,
    v: FileView,
    content: Seq<u8>,
    buffers: Seq<Seq<u8>>,
)
    requires
        holds(r, bs, v.inode, content),
        v.in_step(r, bs),
        forall|k: int| 0 <= k < buffers.len() ==> (#[trigger] buffers[k]).len() <= usize::MAX,
    ensures
        ({
            let end = comes_to(bs as int, content.len() as int, v.offset as int, buffers);
            &&& v.offset <= end <= content.len()
            &&& read_in_turn(r, bs, v, buffers) == content.subrange(v.offset as int, end)
        }),
    decreases buffers.len(),
{
    if buffers.len() > 0 {
        let out = buffers.first();
        assert(buffers[0].len() <= usize::MAX);
        let rest = buffers.drop_first();
        assert forall|k: int| 0 <= k < rest.len() implies (#[trigger] rest[k]).len()
            <= usize::MAX by {
            assert(rest[k] == buffers[k + 1]);
        }
        lemma_one_read(r, bs, v, content, out);
        let (after, bytes, x) = file_read(r, bs, v, out);
        lemma_in_turn(r, bs, after, content, rest);
        let end = comes_to(bs as int, content.len() as int, v.offset as int, buffers);
        assert(read_in_turn(r, bs, v, buffers) =~= content.subrange(v.offset as int, end));
    } else {
        assert(read_in_turn(r, bs, v, buffers) =~= content.subrange(
            v.offset as int,
            v.offset as int,
        ));
    }
}

/// A file that can be read is read to its end, and what was read are its bytes.
pub proof fn a_file_is_read_to_its_end(
    r: Reads,
    bs: usize,
    inode: Inode,
    content: Seq<u8>,
    from: int,
)
    requires
        holds(r, bs, inode, content),
        0 <= from <= content.len(),
    ensures
        file_content(r, bs, inode) == content,
        readable_end(r, bs, inode, from) == content.len(),
{
    lemma_content(r, bs, inode, content);
    let size = content.len() as int;
    let b = bs as int;
    if from < size {
        lemma_block_index(size, b, from);
        lemma_no_unreadable(r, bs, inode, content, from / b);
        lemma_block_index(size, b, size - 1);
        let last = units(size, b) - 1;
        lemma_block_rest(size, b, last);
        assert((last + 1) * b == last * b + b) by (nonlinear_arith);
    }
}

proof fn lemma_no_unreadable(r: Reads, bs: usize, inode: Inode, content: Seq<u8>, i: int)
    requires
        holds(r, bs, inode, content),
        0 <= i <= units(content.len() as int, bs as int),
    ensures
        first_unreadable(r, bs, inode, i) == units(content.len() as int, bs as int),
    decreases units(content.len() as int, bs as int) - i,
{
    let count = units(content.len() as int, bs as int);
    if i < count {
        lemma_block_start(content.len() as int, bs as int, i);
        assert(piece(r, bs, inode, i) is Ok);
        lemma_no_unreadable(r, bs, inode, content, i + 1);
    }
}

/// Where a block cannot be read, reading stops at its start, with the blocks before it read:
/// all of them from the position on can be read, and that one cannot.
pub proof fn reading_stops_before_what_cannot_be_read(r: Reads, bs: usize, inode: Inode, from: int)
    requires
        1 < bs,
        0 <= from < inode.data_size_spec(),
    ensures
        ({
            let size = inode.data_size_spec() as int;
            let end = readable_end(r, bs, inode, from);
            &&& from - from % bs as int <= end <= size
            &&& end < size ==> end % bs as int == 0 && piece(r, bs, inode, end / bs as int) is Err
            &&& forall|i: int|
                from / bs as int <= i && i * bs < end ==> #[trigger] piece(r, bs, inode, i) is Ok
        }),
{
    let size = inode.data_size_spec() as int;
    let b = bs as int;
    let q = from / b;
    lemma_block_index(size, b, from);
    lemma_first(r, bs, inode, q);
    let first = first_unreadable(r, bs, inode, q);
    let end = readable_end(r, bs, inode, from);
    assert(first * b >= q * b) by (nonlinear_arith)
        requires
            first >= q,
            b >= 1,
    ;
    if first < units(size, b) {
        lemma_block_start(size, b, first);
        lemma_fundamental_div_mod_converse(first * b, b, first, 0);
    } else {
        lemma_block_index(size, b, size - 1);
        let last = units(size, b) - 1;
        lemma_block_rest(size, b, last);
        assert((last + 1) * b == last * b + b) by (nonlinear_arith);
    }
    assert forall|i: int| q <= i && i * b < end implies #[trigger] piece(r, bs, inode, i) is Ok by {
        assert(i < first) by (nonlinear_arith)
            requires
                i * b < end,
                end <= first * b,
                b >= 1,
        ;
    }
}

proof fn lemma_first(r: Reads, bs: usize, inode: Inode, i: int)
    requires
        0 <= i <= units(inode.data_size_spec() as int, bs as int),
    ensures
        i <= first_unreadable(r, bs, inode, i) <= units(inode.data_size_spec() as int, bs as int),
        first_unreadable(r, bs, inode, i) < units(inode.data_size_spec() as int, bs as int)
            ==> piece(r, bs, inode, first_unreadable(r, bs, inode, i)) is Err,
        forall|j: int|
            i <= j < first_unreadable(r, bs, inode, i) ==> #[trigger] piece(r, bs, inode, j) is Ok,
    decreases units(inode.data_size_spec() as int, bs as int) - i,
{
    if i < units(inode.data_size_spec() as int, bs as int) {
        if piece(r, bs, inode, i) is Ok {
            lemma_first(r, bs, inode, i + 1);
        }
    }
}

} // verus!
