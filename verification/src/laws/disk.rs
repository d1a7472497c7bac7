//! Where the structures of an image lie, byte by byte.

use vstd::prelude::*;

#[allow(unused_imports)]
use crate::error::ErrorView;
#[allow(unused_imports)]
use crate::filesystem::{data_in, image_error, super_block_error, EroFSCore};
#[allow(unused_imports)]
use crate::le::{le16, le32, le64, le_i32};
#[allow(unused_imports)]
use crate::types::{
    file_type_of_code, inode_of, DirentFileType, Inode, InodeBody, SuperBlock,
};
#[allow(unused_imports)]
use vstd::arithmetic::power2::pow2;

verus! {

/// The number in the two bytes at `o`, the low one first.
pub open spec fn u16_at(s: Seq<u8>, o: int) -> int {
    s[o] + 0x100 * s[o + 1]
}

/// The number in the four bytes at `o`, the low ones first.
pub open spec fn u32_at(s: Seq<u8>, o: int) -> int {
    s[o] + 0x100 * s[o + 1] + 0x1_0000 * s[o + 2] + 0x100_0000 * s[o + 3]
}

/// The number in the eight bytes at `o`, the low ones first.
pub open spec fn u64_at(s: Seq<u8>, o: int) -> int {
    s[o] + 0x100 * s[o + 1] + 0x1_0000 * s[o + 2] + 0x100_0000 * s[o + 3] + 0x1_0000_0000 * s[o + 4]
        + 0x100_0000_0000 * s[o + 5] + 0x1_0000_0000_0000 * s[o + 6] + 0x100_0000_0000_0000 * s[o
        + 7]
}

/// Numbers are stored with their low bytes first, and signed ones in two's complement.
pub proof fn numbers_have_their_low_bytes_first(s: Seq<u8>, o: int)
    ensures
        le16(s, o) == u16_at(s, o),
        le32(s, o) == u32_at(s, o),
        le64(s, o) == u64_at(s, o),
        u32_at(s, o) < 0x8000_0000 ==> le_i32(s, o) == u32_at(s, o),
        u32_at(s, o) >= 0x8000_0000 ==> le_i32(s, o) == u32_at(s, o) - 0x1_0000_0000,
        0 <= u16_at(s, o) < 0x1_0000,
        0 <= u32_at(s, o) < 0x1_0000_0000,
{
}

/// The fields of a super block lie at their bytes.
pub proof fn super_block_lies_at_its_bytes(sb: SuperBlock, s: Seq<u8>)
    requires
        sb.stored_in(s),
    ensures
        s.len() >= 128,
        sb.magic == u32_at(s, 0),
        sb.checksum == u32_at(s, 4),
        sb.feature_compat == u32_at(s, 8),
        sb.blk_size_bits == s[12],
        sb.ext_slots == s[13],
        sb.root_nid == u16_at(s, 14),
        sb.inos == u64_at(s, 16),
        sb.build_time == u64_at(s, 24),
        sb.build_time_ns == u32_at(s, 32),
        sb.blocks == u32_at(s, 36),
        sb.meta_blk_addr == u32_at(s, 40),
        sb.xattr_blk_addr == u32_at(s, 44),
        forall|i: int| 0 <= i < 16 ==> #[trigger] sb.uuid@[i] == s[48 + i],
        forall|i: int| 0 <= i < 16 ==> #[trigger] sb.volume_name@[i] == s[64 + i],
        sb.feature_incompat == u32_at(s, 80),
        sb.compr_algs == u16_at(s, 84),
        sb.extra_devices == u16_at(s, 86),
        sb.devt_slot_off == u16_at(s, 88),
        sb.dir_blk_bits == s[90],
        sb.xattr_prefix_count == s[91],
        sb.xattr_prefix_start == u32_at(s, 92),
        sb.packed_nid == u64_at(s, 96),
        sb.xattr_filter_res == s[104],
{
}

/// An image can be used where its super block lies within it, has the right magic number and
/// gives a block size of two to the power of 9 to 24. The super block lies behind the first
/// 1024 bytes and has 128 bytes.
pub proof fn images_start_with_their_super_block(img: Seq<u8>)
    ensures
        img.len() < 1024 ==> image_error(img) == Some(
            ErrorView::InvalidSuperblock("failed to read super block"@),
        ),
        1024 <= img.len() < 1152 ==> image_error(img) == Some(ErrorView::UnexpectedEof),
        img.len() >= 1152 && u32_at(img, 1024) != 0xe0f5_e1e2 ==> image_error(img) == Some(
            ErrorView::InvalidSuperblock("invalid magic number"@),
        ),
        img.len() >= 1152 && u32_at(img, 1024) == 0xe0f5_e1e2 && (img[1036] < 9 || img[1036] > 24)
            ==> image_error(img) == Some(ErrorView::InvalidSuperblock("invalid block size"@)),
        img.len() >= 1152 && u32_at(img, 1024) == 0xe0f5_e1e2 && 9 <= img[1036] <= 24
            ==> image_error(img) is None,
        img.len() >= 1024 ==> image_error(img) == super_block_error(
            img.subrange(1024, img.len() as int),
        ),
{
    if img.len() >= 1024 {
        assert(img.subrange(1024, img.len() as int) =~= img.skip(1024));
        if img.len() >= 1152 {
            numbers_have_their_low_bytes_first(img.skip(1024), 0);
        }
    }
}

/// The bytes of an image are where they are asked for, and out of bounds where they do not
/// lie within it.
pub proof fn bytes_are_where_they_are_asked_for(img: Seq<u8>, offset: int, size: int)
    requires
        0 <= offset,
        0 <= size,
    ensures
        offset + size <= img.len() ==> data_in(img, offset, size) is Ok && data_in(
            img,
            offset,
            size,
        )->Ok_0.len() == size && forall|i: int|
            0 <= i < size ==> #[trigger] data_in(img, offset, size)->Ok_0[i] == img[offset + i],
        offset + size > img.len() ==> data_in(img, offset, size) == Err::<Seq<u8>, ErrorView>(
            ErrorView::OutOfBounds("failed to get inode data"@),
        ),
{
}

/// A block has two to the power of `blk_size_bits` bytes, with a power of 9 to 24, and an
/// image starts with the right magic number.
pub proof fn block_size_is_a_power_of_two(core: EroFSCore)
    requires
        core.wf(),
    ensures
        core.super_block.magic == 0xe0f5_e1e2,
        9 <= core.super_block.blk_size_bits <= 24,
        core.block_size == pow2(core.super_block.blk_size_bits as nat),
        512 <= core.block_size <= 0x100_0000,
{
    let bits = core.super_block.blk_size_bits;
    let n = bits as usize;
    assert(1usize << bits == 1usize << n);
    vstd::arithmetic::power2::lemma2_to64();
    vstd::bits::lemma_usize_pow2_no_overflow(n as nat);
    vstd::bits::lemma_usize_shl_is_mul(1, n);
}

/// An inode is read from its bytes: an even first byte tells of the short form of 32
/// bytes, an odd one of the long form of 64 bytes. Fewer bytes hold no inode.
pub proof fn inode_lies_at_its_bytes(s: Seq<u8>, nid: u64)
    ensures
        s.len() >= 32 && s[0] % 2 == 0 ==> {
            &&& inode_of(s, nid) is Ok
            &&& inode_of(s, nid)->Ok_0.nid == nid
            &&& inode_of(s, nid)->Ok_0.body matches InodeBody::Compact(b) && {
                &&& b.format == u16_at(s, 0)
                &&& b.xattr_count == u16_at(s, 2)
                &&& b.mode == u16_at(s, 4)
                &&& b.nlink == u16_at(s, 6)
                &&& b.size == u32_at(s, 8)
                &&& b.inode_data == u32_at(s, 16)
                &&& b.inode == u32_at(s, 20)
                &&& b.uid == u16_at(s, 24)
                &&& b.gid == u16_at(s, 26)
            }
        },
        s.len() >= 64 && s[0] % 2 == 1 ==> {
            &&& inode_of(s, nid) is Ok
            &&& inode_of(s, nid)->Ok_0.nid == nid
            &&& inode_of(s, nid)->Ok_0.body matches InodeBody::Extended(b) && {
                &&& b.format == u16_at(s, 0)
                &&& b.xattr_count == u16_at(s, 2)
                &&& b.mode == u16_at(s, 4)
                &&& b.size == u64_at(s, 8)
                &&& b.inode_data == u32_at(s, 16)
                &&& b.inode == u32_at(s, 20)
                &&& b.uid == u32_at(s, 24)
                &&& b.gid == u32_at(s, 28)
                &&& b.mtime == u64_at(s, 32)
                &&& b.mtime_ns == u32_at(s, 40)
                &&& b.nlink == u32_at(s, 44)
            }
        },
        s.len() < 32 || s.len() < 64 && s[0] % 2 == 1 ==> inode_of(s, nid) == Err::<
            Inode,
            ErrorView,
        >(ErrorView::UnexpectedEof),
{
}

/// The inode of the node `nid` of an image is read from the bytes 32 * `nid` behind the
/// start of the block `meta_blk_addr`, where that lies within the image. The image
/// ends before the positions that there are.
pub proof fn inodes_lie_behind_the_meta_block(core: EroFSCore, img: Seq<u8>, nid: u64)
    requires
        core.wf(),
        img.len() < u64::MAX,
        img.len() < usize::MAX,
    ensures
        ({
            let at = core.super_block.meta_blk_addr * core.block_size + 32 * nid;
            &&& at <= img.len() ==> core.inode_in(img, nid) == inode_of(
                img.subrange(at, img.len() as int),
                nid,
            )
            &&& img.len() < at && (at <= usize::MAX || usize::MAX == u64::MAX) ==> core.inode_in(
                img,
                nid,
            ) == Err::<Inode, ErrorView>(ErrorView::OutOfBounds("failed to read inode format"@))
        }),
{
    let at = core.super_block.meta_blk_addr * core.block_size + 32 * nid;
    assert(0 <= core.super_block.meta_blk_addr * core.block_size) by (nonlinear_arith)
        requires
            0 <= core.super_block.meta_blk_addr,
            0 <= core.block_size,
    ;
    if at <= img.len() {
        assert(img.subrange(at, img.len() as int) =~= img.skip(at));
    }
}

/// What an inode says is what its bytes hold. The first four bits of the mode tell the
/// type, 8 is a regular file and 4 a directory, and the last nine bits are the permissions.
/// It takes 32 or 64 bytes, and the attributes behind it take none, or 12 and 4 for each
/// but the first. Only the long form tells when the data was last changed.
pub proof fn inode_says_what_it_holds(inode: Inode)
    ensures
        inode.body matches InodeBody::Compact(b) ==> {
            &&& inode.format_spec() == b.format
            &&& inode.mode_spec() == b.mode
            &&& inode.data_size_spec() == b.size
            &&& inode.raw_block_addr_spec() == b.inode_data
            &&& inode.size_spec() == 32
            &&& inode.xattr_size_spec() == if b.xattr_count == 0 {
                0
            } else {
                12 + 4 * (b.xattr_count - 1)
            }
            &&& inode.file_spec() <==> b.mode / 0x1000 == 8
            &&& inode.dir_spec() <==> b.mode / 0x1000 == 4
            &&& inode.permissions_spec() == b.mode % 0x200
            &&& inode.modified_spec() is None
        },
        inode.body matches InodeBody::Extended(b) ==> {
            &&& inode.format_spec() == b.format
            &&& inode.mode_spec() == b.mode
            &&& b.size <= usize::MAX ==> inode.data_size_spec() == b.size
            &&& inode.raw_block_addr_spec() == b.inode_data
            &&& inode.size_spec() == 64
            &&& inode.xattr_size_spec() == if b.xattr_count == 0 {
                0
            } else {
                12 + 4 * (b.xattr_count - 1)
            }
            &&& inode.file_spec() <==> b.mode / 0x1000 == 8
            &&& inode.dir_spec() <==> b.mode / 0x1000 == 4
            &&& inode.permissions_spec() == b.mode % 0x200
            &&& inode.modified_spec() == Some((b.mtime, b.mtime_ns))
        },
{
    let mode = inode.mode_spec();
    assert((mode & 0xf000 == 0x8000) == (mode / 0x1000 == 8)) by (bit_vector);
    assert((mode & 0xf000 == 0x4000) == (mode / 0x1000 == 4)) by (bit_vector);
    assert(mode & 0x1ff == mode % 0x200) by (bit_vector);
}

/// The number of a file type in a directory entry.
pub open spec fn type_number(t: DirentFileType) -> int {
    match t {
        DirentFileType::Unknown => 0,
        DirentFileType::RegularFile => 1,
        DirentFileType::Directory => 2,
        DirentFileType::CharacterDevice => 3,
        DirentFileType::BlockDevice => 4,
        DirentFileType::Fifo => 5,
        DirentFileType::Socket => 6,
        DirentFileType::Symlink => 7,
    }
}

/// The numbers 0 to 7 stand for a file type each, and no other does.
pub proof fn file_types_have_their_numbers(code: u8)
    ensures
        code < 8 ==> file_type_of_code(code) is Ok && type_number(file_type_of_code(code)->Ok_0)
            == code,
        code >= 8 ==> file_type_of_code(code) == Err::<DirentFileType, ErrorView>(
            ErrorView::InvalidFileType(code),
        ),
{
}

} // verus!
