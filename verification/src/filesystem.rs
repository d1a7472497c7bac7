//! Where the parts of an image lie: its inodes and the blocks of their data.

use crate::error::{corrupted, not_supported, out_of_bounds, Error};
use crate::le::get_i32_le;
use crate::text::to_decimal;
use crate::types::{Inode, Layout, SuperBlock, EROFS_MAGIC};
use vstd::prelude::*;
use vstd::string::StringExecFns;

#[allow(unused_imports)]
use crate::error::{outcome, ErrorView};
#[allow(unused_imports)]
use crate::le::{le32, le_i32};
#[allow(unused_imports)]
use crate::text::decimal;
#[allow(unused_imports)]
use crate::types::{inode_of, layout_of_format};

verus! {

/// How a block of a file is to be read.
#[derive(Debug, Clone, Copy, PartialEq, Eq, Structural)]
pub enum BlockPlan {
    /// The block lies at `offset` and has `size` bytes.
    Direct { offset: usize, size: usize },
    /// The block belongs to a chunk, whose address has to be read first.
    Chunked {
        /// Where the address of the chunk lies; it takes 4 bytes.
        addr_offset: usize,
        /// Which block of the chunk it is.
        chunk_fixed: usize,
        /// How many bytes the file has from the block on.
        data_size: usize,
        /// Which chunk of the file it is.
        chunk_index: usize,
        /// How many chunks the file has.
        chunk_count: usize,
    },
}

impl View for BlockPlan {
    type V = BlockPlan;

    open spec fn view(&self) -> BlockPlan {
        *self
    }
}

/// How many units of `unit` it takes to hold `size`.
pub open spec fn units(size: int, unit: int) -> int {
    if size % unit == 0 {
        size / unit
    } else {
        size / unit + 1
    }
}

/// How many units of `unit` it takes to hold `size`.
pub fn count_units(size: usize, unit: usize) -> (n: usize)
    requires
        unit > 1,
    ensures
        n == units(size as int, unit as int),
{
    proof {
        let s = size as int;
        let u = unit as int;
        assert(s / u <= s / 2) by (nonlinear_arith)
            requires
                s >= 0,
                u >= 2,
        ;
    }
    if size % unit == 0 {
        size / unit
    } else {
        size / unit + 1
    }
}

pub open spec fn min_int(a: int, b: int) -> int {
    if a <= b {
        a
    } else {
        b
    }
}

/// A block of `size` bytes at `position`, where such positions exist.
pub open spec fn direct_plan(position: int, size: int) -> Result<BlockPlan, ErrorView> {
    if position + size > usize::MAX {
        Err(ErrorView::OutOfBounds("block position out of range"@))
    } else {
        Ok(BlockPlan::Direct { offset: position as usize, size: size as usize })
    }
}

/// What is the same for every file of an image.
#[derive(Debug, Clone, Copy)]
pub struct EroFSCore {
    pub super_block: SuperBlock,
    pub block_size: usize,
}

/// Why the bytes `s` do not start with a super block that can be used, where they do not.
pub open spec fn super_block_error(s: Seq<u8>) -> Option<ErrorView> {
    if s.len() < 128 {
        Some(ErrorView::UnexpectedEof)
    } else if le32(s, 0) != EROFS_MAGIC {
        Some(ErrorView::InvalidSuperblock("invalid magic number"@))
    } else if !(9 <= s[12] <= 24) {
        Some(ErrorView::InvalidSuperblock("invalid block size"@))
    } else {
        None
    }
}

/// Why an image cannot be used, where it cannot: the super block lies behind its first
/// 1024 bytes.
pub open spec fn image_error(img: Seq<u8>) -> Option<ErrorView> {
    if img.len() < 1024 {
        Some(ErrorView::InvalidSuperblock("failed to read super block"@))
    } else {
        super_block_error(img.skip(1024))
    }
}

/// Whether a super block can be used: its magic number is right, and a block
/// has between 2^9 and 2^24 bytes.
pub open spec fn usable_super_block(sb: SuperBlock) -> bool {
    sb.magic == EROFS_MAGIC && 9 <= sb.blk_size_bits <= 24
}

impl EroFSCore {
    /// Whether the super block can be used and the block size is the one it gives.
    pub open spec fn wf(self) -> bool {
        &&& usable_super_block(self.super_block)
        &&& self.block_size == 1usize << self.super_block.blk_size_bits
        &&& 512 <= self.block_size <= 0x100_0000
    }

    /// Where the inode of a node lies, or `u64::MAX` where that is less.
    pub open spec fn inode_offset_spec(self, nid: u64) -> u64 {
        min_int(
            self.super_block.meta_blk_addr * self.block_size + 32 * nid,
            u64::MAX as int,
        ) as u64
    }

    /// Where the extended attributes behind an inode end.
    pub open spec fn inode_end_spec(self, inode: Inode) -> int {
        self.inode_offset_spec(inode.nid) + inode.size_spec() + inode.xattr_size_spec()
    }

    /// How the block of a file that holds the byte at `offset` is to be read.
    pub open spec fn plan(self, inode: Inode, offset: usize) -> Result<BlockPlan, ErrorView> {
        let bs = self.block_size as int;
        let size = inode.data_size_spec() as int;
        let index = offset as int / bs;
        let count = units(size, bs);
        match layout_of_format(inode.format_spec()) {
            Err(e) => Err(e),
            Ok(Layout::CompressedFull) => Err(
                ErrorView::NotSupported("compressed data is not supported"@),
            ),
            Ok(Layout::CompressedCompact) => Err(
                ErrorView::NotSupported("compressed data is not supported"@),
            ),
            Ok(layout) => if index >= count {
                Err(ErrorView::OutOfBounds("block index out of range"@))
            } else if layout == Layout::ChunkBased {
                self.chunk_plan(inode, index)
            } else if layout == Layout::FlatInline && index == count - 1 {
                direct_plan(self.inode_end_spec(inode), size - index * bs)
            } else {
                direct_plan(
                    (inode.raw_block_addr_spec() + index) * bs,
                    min_int(bs, size - index * bs),
                )
            },
        }
    }

    /// How the block number `index` of a file in chunks is to be read. Bits 0 to
    /// 4 of the chunk format give the base-2 logarithm of the number of blocks
    /// in a chunk, bit 5 tells of an index.
    pub open spec fn chunk_plan(self, inode: Inode, index: int) -> Result<BlockPlan, ErrorView> {
        let bs = self.block_size as int;
        let size = inode.data_size_spec() as int;
        let format = inode.raw_block_addr_spec();
        if format >= 64 {
            Err(ErrorView::CorruptedData("invalid chunk format"@))
        } else if format >= 32 {
            Err(ErrorView::NotSupported("chunk indexes are not supported"@))
        } else {
            let per_chunk = (1usize << format) as int;
            let position = self.inode_end_spec(inode) + 4 * (index / per_chunk);
            if position + 4 > usize::MAX {
                Err(ErrorView::OutOfBounds("block position out of range"@))
            } else {
                Ok(
                    BlockPlan::Chunked {
                        addr_offset: position as usize,
                        chunk_fixed: (index % per_chunk) as usize,
                        data_size: (size - index * bs) as usize,
                        chunk_index: (index / per_chunk) as usize,
                        chunk_count: (units(units(size, bs), per_chunk)) as usize,
                    },
                )
            }
        }
    }

    /// Where a block of a chunk lies, and how many bytes it has.
    pub open spec fn chunk_block(
        self,
        chunk_addr: i32,
        chunk_fixed: usize,
        data_size: usize,
        chunk_index: usize,
        chunk_count: usize,
    ) -> Result<(usize, usize), ErrorView> {
        let position = (chunk_addr + chunk_fixed) * self.block_size;
        let size = min_int(self.block_size as int, data_size as int);
        if chunk_index >= chunk_count {
            Err(ErrorView::OutOfBounds("chunk index out of range"@))
        } else if chunk_addr == -1 {
            Err(ErrorView::NotSupported("sparse chunks are not supported"@))
        } else if chunk_addr < 0 {
            Err(ErrorView::CorruptedData("invalid chunk address"@))
        } else if position + size > usize::MAX {
            Err(ErrorView::OutOfBounds("block position out of range"@))
        } else {
            Ok((position as usize, size as usize))
        }
    }
}

/// A block of `size` bytes at `position`.
fn plan_direct(position: u128, size: usize) -> (r: Result<BlockPlan, Error>)
    ensures
        outcome(r) == direct_plan(position as int, size as int),
{
    let limit = usize::MAX as u128;
    if position > limit || size as u128 > limit - position {
        Err(out_of_bounds("block position out of range"))
    } else {
        Ok(BlockPlan::Direct { offset: position as usize, size })
    }
}

impl EroFSCore {
    /// Takes what is needed from the super block that `sb_data` starts with.
    pub fn new(sb_data: &[u8]) -> (r: Result<Self, Error>)
        ensures
            match super_block_error(sb_data@) {
                None => r is Ok && r->Ok_0.wf() && r->Ok_0.super_block.stored_in(sb_data@),
                Some(e) => r is Err && r->Err_0@ == e,
            },
    {
        let super_block = SuperBlock::read(sb_data)?;
        if super_block.magic != EROFS_MAGIC {
            return Err(Error::InvalidSuperblock("invalid magic number".to_string()));
        }
        let bits = super_block.blk_size_bits;
        if bits < 9 || bits > 24 {
            return Err(Error::InvalidSuperblock("invalid block size".to_string()));
        }
        assert(512 <= (1usize << bits) <= 0x100_0000) by (bit_vector)
            requires
                9 <= bits <= 24,
        ;
        Ok(EroFSCore { super_block, block_size: 1usize << bits })
    }

    /// Where the inode of a node lies, or `u64::MAX` where that is less.
    pub fn get_inode_offset(&self, nid: u64) -> (o: u64)
        requires
            self.wf(),
        ensures
            o == self.inode_offset_spec(nid),
    {
        let meta = self.super_block.meta_blk_addr as u128;
        let bs = self.block_size as u128;
        assert(0 <= meta * bs <= 0xffff_ffff * 0x100_0000) by (nonlinear_arith)
            requires
                0 <= meta <= 0xffff_ffff,
                0 <= bs <= 0x100_0000,
        ;
        let position = meta * bs + 32 * (nid as u128);
        if position > u64::MAX as u128 {
            u64::MAX
        } else {
            position as u64
        }
    }

    /// Reads the inode of node `nid` that `data` starts with.
    pub fn parse_inode(&self, data: &[u8], nid: u64) -> (r: Result<Inode, Error>)
        ensures
            outcome(r) == inode_of(data@, nid),
    {
        Inode::read(data, nid)
    }

    fn inode_end(&self, inode: &Inode) -> (e: u128)
        requires
            self.wf(),
        ensures
            e == self.inode_end_spec(*inode),
            e <= 0x1_0000_0000_0100_0000,
    {
        self.get_inode_offset(inode.id()) as u128 + inode.size() as u128 + inode.xattr_size() as u128
    }

    /// Tells how the block of a file that holds the byte at `offset` is to be read.
    pub fn plan_inode_block_read(&self, inode: &Inode, offset: usize) -> (r: Result<
        BlockPlan,
        Error,
    >)
        requires
            self.wf(),
        ensures
            outcome(r) == self.plan(*inode, offset),
    {
        let layout = inode.layout()?;
        match layout {
            Layout::CompressedFull => {
                return Err(not_supported("compressed data is not supported"));
            },
            Layout::CompressedCompact => {
                return Err(not_supported("compressed data is not supported"));
            },
            _ => {},
        }
        let bs = self.block_size;
        let size = inode.data_size();
        let index = offset / bs;
        let count = count_units(size, bs);
        if index >= count {
            return Err(out_of_bounds("block index out of range"));
        }
        proof {
            lemma_block_start(size as int, bs as int, index as int);
        }
        match layout {
            Layout::ChunkBased => self.plan_chunk_read(inode, index),
            Layout::FlatInline if index == count - 1 => {
                plan_direct(self.inode_end(inode), size - index * bs)
            },
            _ => {
                let rest = size - index * bs;
                let blocks = inode.raw_block_addr() as u128 + index as u128;
                assert(0 <= blocks * bs <= 0x1_0000_0000_ffff_ffff * 0x100_0000) by (nonlinear_arith)
                    requires
                        0 <= blocks <= 0x1_0000_0000_ffff_ffff,
                        0 <= bs <= 0x100_0000,
                ;
                plan_direct(
                    blocks * (bs as u128),
                    if bs <= rest {
                        bs
                    } else {
                        rest
                    },
                )
            },
        }
    }

    fn plan_chunk_read(&self, inode: &Inode, index: usize) -> (r: Result<BlockPlan, Error>)
        requires
            self.wf(),
            index < units(inode.data_size_spec() as int, self.block_size as int),
        ensures
            outcome(r) == self.chunk_plan(*inode, index as int),
    {
        let bs = self.block_size;
        let size = inode.data_size();
        let format = inode.raw_block_addr();
        if format >= 64 {
            return Err(corrupted("invalid chunk format"));
        }
        if format >= 32 {
            return Err(not_supported("chunk indexes are not supported"));
        }
        assert(1 <= (1usize << format) <= 0x8000_0000) by (bit_vector)
            requires
                format < 32,
        ;
        let per_chunk = 1usize << format;
        let count = count_units(size, bs);
        proof {
            lemma_block_start(size as int, bs as int, index as int);
            let i = index as int;
            let p = per_chunk as int;
            assert(0 <= i / p <= i) by (nonlinear_arith)
                requires
                    0 <= i,
                    1 <= p,
            ;
        }
        let chunk_index = index / per_chunk;
        let chunk_count = if per_chunk == 1 {
            count
        } else {
            count_units(count, per_chunk)
        };
        let position = self.inode_end(inode) + 4 * (chunk_index as u128);
        if position > usize::MAX as u128 - 4 {
            return Err(out_of_bounds("block position out of range"));
        }
        Ok(
            BlockPlan::Chunked {
                addr_offset: position as usize,
                chunk_fixed: index % per_chunk,
                data_size: size - index * bs,
                chunk_index,
                chunk_count,
            },
        )
    }

    /// Tells where a block of a chunk lies, and how many bytes it has.
    pub fn resolve_chunk_read(
        &self,
        chunk_addr: i32,
        chunk_fixed: usize,
        data_size: usize,
        chunk_index: usize,
        chunk_count: usize,
    ) -> (r: Result<(usize, usize), Error>)
        requires
            self.wf(),
        ensures
            outcome(r) == self.chunk_block(
                chunk_addr,
                chunk_fixed,
                data_size,
                chunk_index,
                chunk_count,
            ),
    {
        if chunk_index >= chunk_count {
            return Err(out_of_bounds("chunk index out of range"));
        }
        if chunk_addr == -1 {
            return Err(not_supported("sparse chunks are not supported"));
        }
        if chunk_addr < 0 {
            return Err(corrupted("invalid chunk address"));
        }
        let bs = self.block_size;
        let blocks = chunk_addr as u128 + chunk_fixed as u128;
        assert(0 <= blocks * bs <= 0x1_0000_0000_ffff_ffff * 0x100_0000) by (nonlinear_arith)
            requires
                0 <= blocks <= 0x1_0000_0000_ffff_ffff,
                0 <= bs <= 0x100_0000,
        ;
        let position = blocks * (bs as u128);
        let size = if bs <= data_size {
            bs
        } else {
            data_size
        };
        if position + size as u128 > usize::MAX as u128 {
            return Err(out_of_bounds("block position out of range"));
        }
        Ok((position as usize, size))
    }
}

/// A block of a file starts before the file ends.
pub(crate) proof fn lemma_block_start(size: int, bs: int, index: int)
    requires
        0 <= size,
        1 <= bs,
        0 <= index < units(size, bs),
    ensures
        0 <= index * bs < size,
{
    assert(0 <= index * bs < size) by (nonlinear_arith)
        requires
            0 <= size,
            1 <= bs,
            0 <= index,
            size % bs == 0 ==> index < size / bs,
            size % bs != 0 ==> index <= size / bs,
    {
        assert(size == bs * (size / bs) + size % bs);
        assert(0 <= size % bs);
    }
}

/// Nothing takes more units than it has bytes.
pub(crate) proof fn lemma_units_bound(size: int, unit: int)
    requires
        0 <= size,
        1 <= unit,
    ensures
        0 <= units(size, unit) <= size,
{
    vstd::arithmetic::div_mod::lemma_div_pos_is_pos(size, unit);
    if units(size, unit) > 0 {
        let last = units(size, unit) - 1;
        lemma_block_start(size, unit, last);
        assert(last <= last * unit) by (nonlinear_arith)
            requires
                0 <= last,
                1 <= unit,
        ;
    }
}

impl EroFSCore {
    /// The inode of a node in the image `img`.
    pub open spec fn inode_in(self, img: Seq<u8>, nid: u64) -> Result<Inode, ErrorView> {
        let offset = self.inode_offset_spec(nid) as usize;
        if offset > img.len() {
            Err(ErrorView::OutOfBounds("failed to read inode format"@))
        } else {
            inode_of(img.skip(offset as int), nid)
        }
    }

    /// The block of a file that holds the byte at `offset`, in the image `img`.
    pub open spec fn block_in(self, img: Seq<u8>, inode: Inode, offset: usize) -> Result<
        Seq<u8>,
        ErrorView,
    > {
        match self.plan(inode, offset) {
            Err(e) => Err(e),
            Ok(BlockPlan::Direct { offset, size }) => data_in(img, offset as int, size as int),
            Ok(
                BlockPlan::Chunked { addr_offset, chunk_fixed, data_size, chunk_index, chunk_count },
            ) => if addr_offset + 4 > img.len() {
                Err(ErrorView::OutOfBounds("failed to get chunk address"@))
            } else {
                match self.chunk_block(
                    le_i32(img, addr_offset as int),
                    chunk_fixed,
                    data_size,
                    chunk_index,
                    chunk_count,
                ) {
                    Err(e) => Err(e),
                    Ok((offset, size)) => data_in(img, offset as int, size as int),
                }
            },
        }
    }

    /// Checks the size of a block before it is read into memory: no block is
    /// larger than the block size.
    pub fn check_direct_read(&self, offset: usize, size: usize) -> (r: Result<(), Error>)
        ensures
            r is Ok <==> size <= self.block_size,
            r is Err ==> r->Err_0@ == ErrorView::CorruptedData(
                "invalid direct block size "@ + decimal(size as nat) + " at offset "@ + decimal(
                    offset as nat,
                ),
            ),
    {
        if size > self.block_size {
            let mut text = "invalid direct block size ".to_string();
            text.append(to_decimal(size as u64).as_str());
            text.append(" at offset ");
            text.append(to_decimal(offset as u64).as_str());
            return Err(Error::CorruptedData(text));
        }
        Ok(())
    }

    /// Tells where a block of a chunk lies, and how many bytes it has. The
    /// address of the chunk is in the first four bytes of `address`.
    pub fn locate_chunk_block(
        &self,
        address: &[u8],
        chunk_fixed: usize,
        data_size: usize,
        chunk_index: usize,
        chunk_count: usize,
    ) -> (r: Result<(usize, usize), Error>)
        requires
            self.wf(),
            address@.len() >= 4,
        ensures
            outcome(r) == self.chunk_block(
                le_i32(address@, 0),
                chunk_fixed,
                data_size,
                chunk_index,
                chunk_count,
            ),
    {
        let chunk_addr = get_i32_le(address);
        self.resolve_chunk_read(chunk_addr, chunk_fixed, data_size, chunk_index, chunk_count)
    }
}

/// The `size` bytes at `offset` of an image.
pub open spec fn data_in(img: Seq<u8>, offset: int, size: int) -> Result<Seq<u8>, ErrorView> {
    if offset + size > img.len() {
        Err(ErrorView::OutOfBounds("failed to get inode data"@))
    } else {
        Ok(img.subrange(offset, offset + size))
    }
}

/// No block that is to be read directly is larger than the block size, so
/// `check_direct_read` passes all of them. No planned read goes beyond the
/// positions that there are.
pub proof fn direct_reads_fit_a_block(core: EroFSCore, inode: Inode, offset: usize)
    requires
        core.wf(),
    ensures
        core.plan(inode, offset) matches Ok(BlockPlan::Direct { offset: o, size }) ==> size
            <= core.block_size && o + size <= usize::MAX,
        core.plan(inode, offset) matches Ok(BlockPlan::Chunked { addr_offset, .. }) ==> addr_offset
            + 4 <= usize::MAX,
{
    let bs = core.block_size as int;
    let size = inode.data_size_spec() as int;
    let index = offset as int / bs;
    let count = units(size, bs);
    if 0 <= index < count {
        lemma_block_start(size, bs, index);
        lemma_block_rest(size, bs, index);
        let format = inode.raw_block_addr_spec();
        if format < 32 {
            assert(1 <= (1usize << format)) by (bit_vector)
                requires
                    format < 32,
            ;
            vstd::arithmetic::div_mod::lemma_div_pos_is_pos(index, (1usize << format) as int);
        }
    }
}

/// Behind the start of the last block no more than a block is left.
pub(crate) proof fn lemma_block_rest(size: int, bs: int, index: int)
    requires
        0 <= size,
        1 <= bs,
        0 <= index < units(size, bs),
    ensures
        index == units(size, bs) - 1 ==> size - index * bs <= bs,
        index < units(size, bs) - 1 ==> size - index * bs > bs,
{
    assert(size == bs * (size / bs) + size % bs) by {
        vstd::arithmetic::div_mod::lemma_fundamental_div_mod(size, bs);
    }
    vstd::arithmetic::div_mod::lemma_mod_bound(size, bs);
    let q = size / bs;
    if index == units(size, bs) - 1 {
        if size % bs == 0 {
            assert(index * bs == bs * q - bs) by (nonlinear_arith)
                requires
                    index == q - 1,
            ;
        } else {
            assert(index * bs == bs * q) by (nonlinear_arith)
                requires
                    index == q,
            ;
        }
    } else {
        assert(index * bs + bs < size) by (nonlinear_arith)
            requires
                size == bs * q + size % bs,
                0 <= size % bs < bs,
                1 <= bs,
                index < units(size, bs) - 1,
                units(size, bs) == if size % bs == 0 {
                    q
                } else {
                    q + 1
                },
        {
            if size % bs == 0 {
                assert(index <= q - 2);
                assert((index + 1) * bs <= (q - 1) * bs);
                assert((q - 1) * bs == q * bs - bs);
            } else {
                assert(index <= q - 1);
                assert((index + 1) * bs <= q * bs);
            }
        }
    }
}

} // verus!
