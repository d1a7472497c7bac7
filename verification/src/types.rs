//! The structures of an EROFS image, and how they are laid out in bytes.

use crate::error::{not_supported, Error};
use crate::le::{read_u16, read_u32, read_u64};
use vstd::prelude::*;

#[allow(unused_imports)]
use crate::error::ErrorView;
#[allow(unused_imports)]
use crate::le::{le16, le32, le64};

verus! {

/// Where the super block starts in an image.
pub const SUPER_BLOCK_OFFSET: usize = 1024;

/// The number that every EROFS super block starts with.
pub const EROFS_MAGIC: u32 = 0xe0f5_e1e2;

/// The first bits of an inode's mode: its file type.
pub const MODE_TYPE_MASK: u16 = 0xf000;

/// A directory entry as stored in a directory block. The names follow the
/// entries of the block; each entry tells where its name starts.
#[derive(Debug, Clone, Copy, PartialEq, Eq, Structural)]
pub struct Dirent {
    /// The node that the entry names.
    pub nid: u64,
    /// Where in the block the name starts.
    pub name_off: u16,
    /// The code of the file type.
    pub file_type: u8,
    pub reserved: u8,
}

/// The directory entry that the bytes at `o` hold.
pub open spec fn dirent_at(s: Seq<u8>, o: int) -> Dirent {
    Dirent {
        nid: le64(s, o),
        name_off: le16(s, o + 8),
        file_type: s[o + 10],
        reserved: s[o + 11],
    }
}

impl Dirent {
    /// The size of an entry on disk.
    pub fn size() -> (n: usize)
        ensures
            n == 12,
    {
        12
    }

    /// Reads the entry that `data` starts with.
    pub fn read(data: &[u8]) -> (r: Result<Dirent, Error>)
        ensures
            data@.len() >= 12 ==> r == Ok::<Dirent, Error>(dirent_at(data@, 0)),
            data@.len() < 12 ==> r is Err && r->Err_0@ == ErrorView::UnexpectedEof,
    {
        if data.len() < 12 {
            return Err(Error::UnexpectedEof);
        }
        Ok(
            Dirent {
                nid: read_u64(data, 0),
                name_off: read_u16(data, 8),
                file_type: data[10],
                reserved: data[11],
            },
        )
    }
}

impl View for Dirent {
    type V = Dirent;

    open spec fn view(&self) -> Dirent {
        *self
    }
}

/// The type of a file.
#[derive(Debug, Clone, Copy, PartialEq, Eq, Structural)]
pub enum DirentFileType {
    Unknown,
    RegularFile,
    Directory,
    CharacterDevice,
    BlockDevice,
    Fifo,
    Socket,
    Symlink,
}

/// The file type that a directory entry's code stands for.
pub open spec fn file_type_of_code(code: u8) -> Result<DirentFileType, ErrorView> {
    if code == 0 {
        Ok(DirentFileType::Unknown)
    } else if code == 1 {
        Ok(DirentFileType::RegularFile)
    } else if code == 2 {
        Ok(DirentFileType::Directory)
    } else if code == 3 {
        Ok(DirentFileType::CharacterDevice)
    } else if code == 4 {
        Ok(DirentFileType::BlockDevice)
    } else if code == 5 {
        Ok(DirentFileType::Fifo)
    } else if code == 6 {
        Ok(DirentFileType::Socket)
    } else if code == 7 {
        Ok(DirentFileType::Symlink)
    } else {
        Err(ErrorView::InvalidFileType(code))
    }
}

impl DirentFileType {
    /// The file type that a directory entry's code stands for.
    pub fn from_code(code: u8) -> (r: Result<DirentFileType, Error>)
        ensures
            crate::error::outcome(r) == file_type_of_code(code),
    {
        match code {
            0 => Ok(DirentFileType::Unknown),
            1 => Ok(DirentFileType::RegularFile),
            2 => Ok(DirentFileType::Directory),
            3 => Ok(DirentFileType::CharacterDevice),
            4 => Ok(DirentFileType::BlockDevice),
            5 => Ok(DirentFileType::Fifo),
            6 => Ok(DirentFileType::Socket),
            7 => Ok(DirentFileType::Symlink),
            _ => Err(Error::InvalidFileType(code)),
        }
    }

    /// Whether this is the type of a directory.
    pub fn is_dir(&self) -> (b: bool)
        ensures
            b == (*self == DirentFileType::Directory),
    {
        match self {
            DirentFileType::Directory => true,
            _ => false,
        }
    }
}

impl View for DirentFileType {
    type V = DirentFileType;

    open spec fn view(&self) -> DirentFileType {
        *self
    }
}

/// The super block: what an image says of itself as a whole.
#[derive(Debug, Clone, Copy)]
pub struct SuperBlock {
    pub magic: u32,
    pub checksum: u32,
    pub feature_compat: u32,
    /// The base-2 logarithm of the block size.
    pub blk_size_bits: u8,
    pub ext_slots: u8,
    /// The node of the root directory.
    pub root_nid: u16,
    /// How many inodes there are.
    pub inos: u64,
    pub build_time: u64,
    pub build_time_ns: u32,
    pub blocks: u32,
    /// The block where the inodes start.
    pub meta_blk_addr: u32,
    /// The block where the shared extended attributes start.
    pub xattr_blk_addr: u32,
    pub uuid: [u8; 16],
    pub volume_name: [u8; 16],
    pub feature_incompat: u32,
    pub compr_algs: u16,
    pub extra_devices: u16,
    pub devt_slot_off: u16,
    pub dir_blk_bits: u8,
    pub xattr_prefix_count: u8,
    pub xattr_prefix_start: u32,
    pub packed_nid: u64,
    pub xattr_filter_res: u8,
}

fn read_16(data: &[u8], o: usize) -> (a: [u8; 16])
    requires
        o + 16 <= data@.len(),
    ensures
        a@ == data@.subrange(o as int, o + 16),
{
    assert(data.len() == data@.len());
    let a: [u8; 16] = [
        data[o],
        data[o + 1],
        data[o + 2],
        data[o + 3],
        data[o + 4],
        data[o + 5],
        data[o + 6],
        data[o + 7],
        data[o + 8],
        data[o + 9],
        data[o + 10],
        data[o + 11],
        data[o + 12],
        data[o + 13],
        data[o + 14],
        data[o + 15],
    ];
    assert(a@ =~= data@.subrange(o as int, o + 16));
    a
}

impl SuperBlock {
    /// The size of a super block on disk.
    pub fn size() -> (n: usize)
        ensures
            n == 128,
    {
        128
    }

    /// Whether `s` starts with this super block.
    pub open spec fn stored_in(self, s: Seq<u8>) -> bool {
        &&& s.len() >= 128
        &&& self.magic == le32(s, 0)
        &&& self.checksum == le32(s, 4)
        &&& self.feature_compat == le32(s, 8)
        &&& self.blk_size_bits == s[12]
        &&& self.ext_slots == s[13]
        &&& self.root_nid == le16(s, 14)
        &&& self.inos == le64(s, 16)
        &&& self.build_time == le64(s, 24)
        &&& self.build_time_ns == le32(s, 32)
        &&& self.blocks == le32(s, 36)
        &&& self.meta_blk_addr == le32(s, 40)
        &&& self.xattr_blk_addr == le32(s, 44)
        &&& self.uuid@ == s.subrange(48, 64)
        &&& self.volume_name@ == s.subrange(64, 80)
        &&& self.feature_incompat == le32(s, 80)
        &&& self.compr_algs == le16(s, 84)
        &&& self.extra_devices == le16(s, 86)
        &&& self.devt_slot_off == le16(s, 88)
        &&& self.dir_blk_bits == s[90]
        &&& self.xattr_prefix_count == s[91]
        &&& self.xattr_prefix_start == le32(s, 92)
        &&& self.packed_nid == le64(s, 96)
        &&& self.xattr_filter_res == s[104]
    }

    /// Reads the super block that `data` starts with.
    pub fn read(data: &[u8]) -> (r: Result<SuperBlock, Error>)
        ensures
            data@.len() >= 128 ==> r is Ok && r->Ok_0.stored_in(data@),
            data@.len() < 128 ==> r is Err && r->Err_0@ == ErrorView::UnexpectedEof,
    {
        if data.len() < 128 {
            return Err(Error::UnexpectedEof);
        }
        Ok(
            SuperBlock {
                magic: read_u32(data, 0),
                checksum: read_u32(data, 4),
                feature_compat: read_u32(data, 8),
                blk_size_bits: data[12],
                ext_slots: data[13],
                root_nid: read_u16(data, 14),
                inos: read_u64(data, 16),
                build_time: read_u64(data, 24),
                build_time_ns: read_u32(data, 32),
                blocks: read_u32(data, 36),
                meta_blk_addr: read_u32(data, 40),
                xattr_blk_addr: read_u32(data, 44),
                uuid: read_16(data, 48),
                volume_name: read_16(data, 64),
                feature_incompat: read_u32(data, 80),
                compr_algs: read_u16(data, 84),
                extra_devices: read_u16(data, 86),
                devt_slot_off: read_u16(data, 88),
                dir_blk_bits: data[90],
                xattr_prefix_count: data[91],
                xattr_prefix_start: read_u32(data, 92),
                packed_nid: read_u64(data, 96),
                xattr_filter_res: data[104],
            },
        )
    }
}

/// An inode in its short form, 32 bytes on disk.
#[derive(Debug, Clone, Copy, PartialEq, Eq, Structural)]
pub struct InodeCompact {
    pub format: u16,
    pub xattr_count: u16,
    pub mode: u16,
    pub nlink: u16,
    pub size: u32,
    /// Where the data is: a block address, or the format of the chunks.
    pub inode_data: u32,
    pub inode: u32,
    pub uid: u16,
    pub gid: u16,
}

/// An inode in its long form, 64 bytes on disk.
#[derive(Debug, Clone, Copy, PartialEq, Eq, Structural)]
pub struct InodeExtended {
    pub format: u16,
    pub xattr_count: u16,
    pub mode: u16,
    pub size: u64,
    /// Where the data is: a block address, or the format of the chunks.
    pub inode_data: u32,
    pub inode: u32,
    pub uid: u32,
    pub gid: u32,
    pub mtime: u64,
    pub mtime_ns: u32,
    pub nlink: u32,
}

/// The short inode that `s` starts with.
pub open spec fn inode_compact(s: Seq<u8>) -> InodeCompact {
    InodeCompact {
        format: le16(s, 0),
        xattr_count: le16(s, 2),
        mode: le16(s, 4),
        nlink: le16(s, 6),
        size: le32(s, 8),
        inode_data: le32(s, 16),
        inode: le32(s, 20),
        uid: le16(s, 24),
        gid: le16(s, 26),
    }
}

/// The long inode that `s` starts with.
pub open spec fn inode_extended(s: Seq<u8>) -> InodeExtended {
    InodeExtended {
        format: le16(s, 0),
        xattr_count: le16(s, 2),
        mode: le16(s, 4),
        size: le64(s, 8),
        inode_data: le32(s, 16),
        inode: le32(s, 20),
        uid: le32(s, 24),
        gid: le32(s, 28),
        mtime: le64(s, 32),
        mtime_ns: le32(s, 40),
        nlink: le32(s, 44),
    }
}

impl InodeCompact {
    /// The size of a short inode on disk.
    pub fn size() -> (n: usize)
        ensures
            n == 32,
    {
        32
    }
}

impl InodeExtended {
    /// The size of a long inode on disk.
    pub fn size() -> (n: usize)
        ensures
            n == 64,
    {
        64
    }
}

/// Whether an inode of this format is stored in the short form: bit 0 tells.
pub open spec fn compact_format(format: u16) -> bool {
    format % 2 == 0
}

/// Whether an inode of this format is stored in the short form.
pub fn is_compact(format: u16) -> (b: bool)
    ensures
        b == compact_format(format),
{
    assert(((format & 0x01) == 0) == (format % 2 == 0)) by (bit_vector);
    (format & 0x01) == 0
}

/// How the data of a file is stored.
#[derive(Debug, Clone, Copy, PartialEq, Eq, Structural)]
pub enum Layout {
    /// In consecutive blocks.
    FlatPlain,
    /// Compressed, with full indexes.
    CompressedFull,
    /// In consecutive blocks, with the last one behind the inode.
    FlatInline,
    /// Compressed, with compacted indexes.
    CompressedCompact,
    /// In chunks of blocks; their addresses are behind the inode.
    ChunkBased,
}

/// The layout that an inode's format names in its bits 1 to 3.
pub open spec fn layout_of_format(format: u16) -> Result<Layout, ErrorView> {
    let code = format / 2 % 8;
    if code == 0 {
        Ok(Layout::FlatPlain)
    } else if code == 1 {
        Ok(Layout::CompressedFull)
    } else if code == 2 {
        Ok(Layout::FlatInline)
    } else if code == 3 {
        Ok(Layout::CompressedCompact)
    } else if code == 4 {
        Ok(Layout::ChunkBased)
    } else {
        Err(ErrorView::NotSupported("unknown data layout"@))
    }
}

impl View for Layout {
    type V = Layout;

    open spec fn view(&self) -> Layout {
        *self
    }
}

/// What an inode says, in either form.
#[derive(Debug, Clone, Copy, PartialEq, Eq, Structural)]
pub enum InodeBody {
    Compact(InodeCompact),
    Extended(InodeExtended),
}

/// A file of the image: its node and what its inode says.
#[derive(Debug, Clone, Copy, PartialEq, Eq, Structural)]
pub struct Inode {
    pub nid: u64,
    pub body: InodeBody,
}

impl View for Inode {
    type V = Inode;

    open spec fn view(&self) -> Inode {
        *self
    }
}

/// The inode of node `nid` that `s` starts with.
pub open spec fn inode_of(s: Seq<u8>, nid: u64) -> Result<Inode, ErrorView> {
    if s.len() < 2 {
        Err(ErrorView::UnexpectedEof)
    } else if compact_format(le16(s, 0)) {
        if s.len() < 32 {
            Err(ErrorView::UnexpectedEof)
        } else {
            Ok(Inode { nid, body: InodeBody::Compact(inode_compact(s)) })
        }
    } else if s.len() < 64 {
        Err(ErrorView::UnexpectedEof)
    } else {
        Ok(Inode { nid, body: InodeBody::Extended(inode_extended(s)) })
    }
}

impl Inode {
    /// Reads the inode of node `nid` that `data` starts with.
    pub fn read(data: &[u8], nid: u64) -> (r: Result<Inode, Error>)
        ensures
            crate::error::outcome(r) == inode_of(data@, nid),
    {
        if data.len() < 2 {
            return Err(Error::UnexpectedEof);
        }
        let format = read_u16(data, 0);
        if is_compact(format) {
            if data.len() < InodeCompact::size() {
                return Err(Error::UnexpectedEof);
            }
            let body = InodeCompact {
                format,
                xattr_count: read_u16(data, 2),
                mode: read_u16(data, 4),
                nlink: read_u16(data, 6),
                size: read_u32(data, 8),
                inode_data: read_u32(data, 16),
                inode: read_u32(data, 20),
                uid: read_u16(data, 24),
                gid: read_u16(data, 26),
            };
            Ok(Inode { nid, body: InodeBody::Compact(body) })
        } else {
            if data.len() < InodeExtended::size() {
                return Err(Error::UnexpectedEof);
            }
            let body = InodeExtended {
                format,
                xattr_count: read_u16(data, 2),
                mode: read_u16(data, 4),
                size: read_u64(data, 8),
                inode_data: read_u32(data, 16),
                inode: read_u32(data, 20),
                uid: read_u32(data, 24),
                gid: read_u32(data, 28),
                mtime: read_u64(data, 32),
                mtime_ns: read_u32(data, 40),
                nlink: read_u32(data, 44),
            };
            Ok(Inode { nid, body: InodeBody::Extended(body) })
        }
    }

    pub open spec fn format_spec(self) -> u16 {
        match self.body {
            InodeBody::Compact(b) => b.format,
            InodeBody::Extended(b) => b.format,
        }
    }

    pub open spec fn mode_spec(self) -> u16 {
        match self.body {
            InodeBody::Compact(b) => b.mode,
            InodeBody::Extended(b) => b.mode,
        }
    }

    /// The size of the file's data.
    pub open spec fn data_size_spec(self) -> usize {
        match self.body {
            InodeBody::Compact(b) => b.size as usize,
            InodeBody::Extended(b) => b.size as usize,
        }
    }

    pub open spec fn raw_block_addr_spec(self) -> u32 {
        match self.body {
            InodeBody::Compact(b) => b.inode_data,
            InodeBody::Extended(b) => b.inode_data,
        }
    }

    pub open spec fn xattr_count_spec(self) -> u16 {
        match self.body {
            InodeBody::Compact(b) => b.xattr_count,
            InodeBody::Extended(b) => b.xattr_count,
        }
    }

    /// How many bytes the inode itself takes on disk.
    pub open spec fn size_spec(self) -> int {
        match self.body {
            InodeBody::Compact(_) => 32,
            InodeBody::Extended(_) => 64,
        }
    }

    /// How many bytes of extended attributes follow the inode: a header of 12
    /// bytes and units of 4 bytes, where there are any.
    pub open spec fn xattr_size_spec(self) -> int {
        if self.xattr_count_spec() == 0 {
            0
        } else {
            12 + 4 * (self.xattr_count_spec() - 1)
        }
    }

    pub open spec fn file_spec(self) -> bool {
        self.mode_spec() & MODE_TYPE_MASK == 0x8000
    }

    pub open spec fn dir_spec(self) -> bool {
        self.mode_spec() & MODE_TYPE_MASK == 0x4000
    }

    /// The permission bits of the mode.
    pub open spec fn permissions_spec(self) -> u16 {
        self.mode_spec() & 0x1ff
    }

    /// When the data was last changed, where the inode tells.
    pub open spec fn modified_spec(self) -> Option<(u64, u32)> {
        match self.body {
            InodeBody::Compact(_) => None,
            InodeBody::Extended(b) => Some((b.mtime, b.mtime_ns)),
        }
    }

    /// The node ID (inode number).
    pub fn id(&self) -> (nid: u64)
        ensures
            nid == self.nid,
    {
        self.nid
    }

    /// The mode: the file type and the permissions.
    pub fn mode(&self) -> (m: u16)
        ensures
            m == self.mode_spec(),
    {
        match self.body {
            InodeBody::Compact(b) => b.mode,
            InodeBody::Extended(b) => b.mode,
        }
    }

    /// The format: whether the inode is short, and the layout of the data.
    pub fn format(&self) -> (f: u16)
        ensures
            f == self.format_spec(),
    {
        match self.body {
            InodeBody::Compact(b) => b.format,
            InodeBody::Extended(b) => b.format,
        }
    }

    /// Whether this is a regular file.
    pub fn is_file(&self) -> (b: bool)
        ensures
            b == self.file_spec(),
    {
        self.mode() & MODE_TYPE_MASK == 0x8000
    }

    /// Whether this is a directory.
    pub fn is_dir(&self) -> (b: bool)
        ensures
            b == self.dir_spec(),
    {
        self.mode() & MODE_TYPE_MASK == 0x4000
    }

    /// The permission bits of the mode.
    pub fn permissions(&self) -> (p: u16)
        ensures
            p == self.permissions_spec(),
    {
        self.mode() & 0x1ff
    }

    /// When the data was last changed, in seconds and nanoseconds since the
    /// epoch. A short inode does not tell.
    pub fn modified(&self) -> (t: Option<(u64, u32)>)
        ensures
            t == self.modified_spec(),
    {
        match self.body {
            InodeBody::Compact(_) => None,
            InodeBody::Extended(b) => Some((b.mtime, b.mtime_ns)),
        }
    }

    /// The size of the file's data in bytes.
    pub fn data_size(&self) -> (n: usize)
        ensures
            n == self.data_size_spec(),
    {
        match self.body {
            InodeBody::Compact(b) => b.size as usize,
            InodeBody::Extended(b) => b.size as usize,
        }
    }

    /// Where the data is: a block address, or the format of the chunks.
    pub fn raw_block_addr(&self) -> (a: u32)
        ensures
            a == self.raw_block_addr_spec(),
    {
        match self.body {
            InodeBody::Compact(b) => b.inode_data,
            InodeBody::Extended(b) => b.inode_data,
        }
    }

    /// How many bytes the inode itself takes on disk.
    pub fn size(&self) -> (n: usize)
        ensures
            n == self.size_spec(),
    {
        match self.body {
            InodeBody::Compact(_) => InodeCompact::size(),
            InodeBody::Extended(_) => InodeExtended::size(),
        }
    }

    /// How many bytes of extended attributes follow the inode.
    pub fn xattr_size(&self) -> (n: usize)
        ensures
            n == self.xattr_size_spec(),
    {
        let count = match self.body {
            InodeBody::Compact(b) => b.xattr_count,
            InodeBody::Extended(b) => b.xattr_count,
        };
        if count == 0 {
            0
        } else {
            12 + 4 * (count as usize - 1)
        }
    }

    /// How the data is stored.
    pub fn layout(&self) -> (r: Result<Layout, Error>)
        ensures
            crate::error::outcome(r) == layout_of_format(self.format_spec()),
    {
        match self.format() / 2 % 8 {
            0 => Ok(Layout::FlatPlain),
            1 => Ok(Layout::CompressedFull),
            2 => Ok(Layout::FlatInline),
            3 => Ok(Layout::CompressedCompact),
            4 => Ok(Layout::ChunkBased),
            _ => Err(not_supported("unknown data layout")),
        }
    }
}

} // verus!
