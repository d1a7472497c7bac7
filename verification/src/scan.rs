//! Finding the inodes that may have an extended attribute of some name.

use crate::error::Error;
use crate::text::to_hex32;
use crate::types::{
    is_compact, InodeCompact, InodeExtended, SuperBlock, EROFS_MAGIC, SUPER_BLOCK_OFFSET,
};
use crate::xattr::{bloom_filter_admits, xxh32, InodeHeader, XattrBodyHeader};
use vstd::prelude::*;
use vstd::string::StringExecFns;

#[allow(unused_imports)]
use crate::error::ErrorView;
#[allow(unused_imports)]
use crate::le::{le32, le64};
#[allow(unused_imports)]
use crate::text::hex32;
#[allow(unused_imports)]
use crate::types::compact_format;
#[allow(unused_imports)]
use crate::xattr::{body_header_at, filter_admits, inode_header_at, xxh32_of};

verus! {

/// An inode whose attributes may hold a name.
#[derive(Debug, Clone, Copy, PartialEq, Eq, Structural)]
pub struct XattrInode {
    /// Its node.
    pub nid: u64,
    /// How many attributes it has, with the shared ones.
    pub xattr_count: u16,
    /// Its bloom filter.
    pub name_filter: u32,
    /// Where its attributes start in the image.
    pub xattr_start: usize,
}

/// How far the inodes of an image have been looked at.
pub struct ScanView {
    /// The image.
    pub data: Seq<u8>,
    /// Where the inodes start.
    pub meta_base: int,
    /// How many inodes there are.
    pub inos: int,
    /// The inode that comes next.
    pub nid: int,
}

impl ScanView {
    pub open spec fn wf(self) -> bool {
        &&& self.data.len() <= usize::MAX
        &&& 0 <= self.meta_base <= 0x8000_0000_0000_0000_0000_0000
        &&& 0 <= self.nid <= self.inos <= u64::MAX
    }

    /// Where the inode of the node `nid` starts.
    pub open spec fn inode_at(self, nid: int) -> int {
        self.meta_base + 32 * nid
    }

    /// Where the attributes of the node `nid` start.
    pub open spec fn xattrs_at(self, nid: int) -> int {
        self.inode_at(nid) + if compact_format(inode_header_at(self.data, self.inode_at(nid)).format) {
            32
        } else {
            64int
        }
    }

    /// Whether the header of the inode `nid` lies within the image.
    pub open spec fn has_inode(self, nid: int) -> bool {
        self.inode_at(nid) + 4 <= self.data.len()
    }

    /// Whether the inode `nid` has attributes within the image whose bloom filter
    /// lets the hash pass.
    pub open spec fn admits(self, nid: int, hash: u32) -> bool {
        &&& inode_header_at(self.data, self.inode_at(nid)).xattr_count > 0
        &&& self.xattrs_at(nid) + 12 <= self.data.len()
        &&& filter_admits(body_header_at(self.data, self.xattrs_at(nid)).name_filter, hash)
    }

    /// What is known of the inode `nid`.
    pub open spec fn inode(self, nid: int) -> XattrInode {
        XattrInode {
            nid: nid as u64,
            xattr_count: inode_header_at(self.data, self.inode_at(nid)).xattr_count,
            name_filter: body_header_at(self.data, self.xattrs_at(nid)).name_filter,
            xattr_start: self.xattrs_at(nid) as usize,
        }
    }

    /// The first inode from the next one on that lets the hash pass. The search ends
    /// with the last inode, or before the first that is not within the image.
    pub open spec fn first_match(self, hash: u32) -> Option<int>
        decreases self.inos - self.nid,
    {
        if self.nid >= self.inos || !self.has_inode(self.nid) {
            None
        } else if self.admits(self.nid, hash) {
            Some(self.nid)
        } else {
            (ScanView { nid: self.nid + 1, ..self }).first_match(hash)
        }
    }
}

/// What starting to look at the inodes of the image `data` gives.
pub open spec fn scan_start(data: Seq<u8>) -> Result<ScanView, ErrorView> {
    let sb = data.skip(1024);
    if data.len() < 1024 {
        Err(ErrorView::InvalidSuperblock("failed to read super block"@))
    } else if sb.len() < 128 {
        Err(ErrorView::UnexpectedEof)
    } else if le32(sb, 0) != EROFS_MAGIC {
        Err(ErrorView::InvalidSuperblock("bad magic: "@ + hex32(le32(sb, 0))))
    } else if sb[12] >= 64 {
        Err(ErrorView::InvalidSuperblock("invalid block size"@))
    } else {
        Ok(
            ScanView {
                data,
                meta_base: le32(sb, 40) * (1u64 << sb[12]),
                inos: le64(sb, 16) as int,
                nid: 0,
            },
        )
    }
}

/// What finding the next inode that lets the hash pass gives: the scan behind it, and
/// the inode.
pub open spec fn scan_next(v: ScanView, hash: u32) -> (ScanView, Option<XattrInode>) {
    match v.first_match(hash) {
        None => (ScanView { nid: v.inos, ..v }, None),
        Some(k) => (ScanView { nid: k + 1, ..v }, Some(v.inode(k))),
    }
}

/// A scan passes over no inode within the image that lets the hash pass: it finds
/// the first one, and none only where there is none.
pub proof fn scan_finds_the_first(v: ScanView, hash: u32)
    requires
        0 <= v.nid,
    ensures
        match v.first_match(hash) {
            Some(k) => {
                &&& v.nid <= k < v.inos
                &&& v.has_inode(k)
                &&& v.admits(k, hash)
                &&& forall|j: int| v.nid <= j < k ==> !#[trigger] v.admits(j, hash)
            },
            None => forall|j: int|
                v.nid <= j < v.inos && v.has_inode(j) ==> !#[trigger] v.admits(j, hash),
        },
    decreases v.inos - v.nid,
{
    if v.nid < v.inos && v.has_inode(v.nid) && !v.admits(v.nid, hash) {
        let next = ScanView { nid: v.nid + 1, ..v };
        scan_finds_the_first(next, hash);
        assert forall|j: int| #[trigger] v.admits(j, hash) == next.admits(j, hash) by {}
    }
}

/// The inodes of an image, looked at one after the other.
#[derive(Debug)]
pub struct XattrScan<'a> {
    data: &'a [u8],
    super_block: SuperBlock,
    meta_base: u128,
    nid: u64,
}

impl<'a> View for XattrScan<'a> {
    type V = ScanView;

    closed spec fn view(&self) -> ScanView {
        ScanView {
            data: self.data@,
            meta_base: self.meta_base as int,
            inos: self.super_block.inos as int,
            nid: self.nid as int,
        }
    }
}

impl<'a> XattrScan<'a> {
    /// The super block of the image.
    pub closed spec fn super_block_spec(&self) -> SuperBlock {
        self.super_block
    }

    /// Starts to look at the inodes of the image `data`.
    pub fn new(data: &'a [u8]) -> (r: Result<Self, Error>)
        ensures
            match scan_start(data@) {
                Err(e) => r is Err && r->Err_0@ == e,
                Ok(v) => {
                    &&& r is Ok
                    &&& r->Ok_0@ == v
                    &&& v.wf()
                    &&& r->Ok_0.super_block_spec().stored_in(data@.skip(1024))
                },
            },
    {
        if data.len() < SUPER_BLOCK_OFFSET {
            return Err(Error::InvalidSuperblock("failed to read super block".to_string()));
        }
        let rest = &data[SUPER_BLOCK_OFFSET..data.len()];
        assert(rest@ =~= data@.skip(1024));
        let super_block = SuperBlock::read(rest)?;
        if super_block.magic != EROFS_MAGIC {
            let mut text = "bad magic: ".to_string();
            text.append(to_hex32(super_block.magic).as_str());
            return Err(Error::InvalidSuperblock(text));
        }
        let bits = super_block.blk_size_bits;
        if bits >= 64 {
            return Err(Error::InvalidSuperblock("invalid block size".to_string()));
        }
        assert((1u64 << bits) <= 0x8000_0000_0000_0000) by (bit_vector)
            requires
                bits < 64,
        ;
        let block_size = (1u64 << bits) as u128;
        let meta = super_block.meta_blk_addr as u128;
        assert(0 <= meta * block_size <= 0x1_0000_0000 * 0x8000_0000_0000_0000) by (nonlinear_arith)
            requires
                0 <= meta <= 0x1_0000_0000,
                0 <= block_size <= 0x8000_0000_0000_0000,
        ;
        assert(data.len() == data@.len());
        Ok(XattrScan { data, super_block, meta_base: meta * block_size, nid: 0 })
    }

    /// The super block of the image.
    pub fn super_block(&self) -> (sb: &SuperBlock)
        ensures
            *sb == self.super_block_spec(),
    {
        &self.super_block
    }

    /// Finds the next inode whose bloom filter lets a name pass: `name_index` is the
    /// number of its prefix.
    pub fn next_inode(&mut self, name_index: u8, name: &[u8]) -> (x: Option<XattrInode>)
        requires
            old(self)@.wf(),
        ensures
            final(self)@.wf(),
            final(self).super_block_spec() == old(self).super_block_spec(),
            (final(self)@, x) == scan_next(old(self)@, xxh32_of(name_index as u32, name@)),
    {
        self.next_match(xxh32(name_index as u32, name))
    }

    /// Finds the next inode whose bloom filter lets a hash pass.
    pub fn next_match(&mut self, hash: u32) -> (x: Option<XattrInode>)
        requires
            old(self)@.wf(),
        ensures
            final(self)@.wf(),
            final(self).super_block_spec() == old(self).super_block_spec(),
            (final(self)@, x) == scan_next(old(self)@, hash),
    {
        while self.nid < self.super_block.inos
            invariant
                self@.wf(),
                self.super_block_spec() == old(self).super_block_spec(),
                self@ == (ScanView { nid: self@.nid, ..old(self)@ }),
                self@.first_match(hash) == old(self)@.first_match(hash),
            decreases self@.inos - self@.nid,
        {
            let nid = self.nid;
            let offset = self.meta_base + 32 * (nid as u128);
            let len = self.data.len() as u128;
            if offset + 4 > len {
                self.nid = self.super_block.inos;
                return None;
            }
            self.nid = nid + 1;
            if let Some(inode) = self.inode_at(nid, offset as usize, hash) {
                return Some(inode);
            }
        }
        None
    }

    fn inode_at(&self, nid: u64, offset: usize, hash: u32) -> (x: Option<XattrInode>)
        requires
            self@.wf(),
            offset == self@.inode_at(nid as int),
            self@.has_inode(nid as int),
        ensures
            x == (if self@.admits(nid as int, hash) {
                Some(self@.inode(nid as int))
            } else {
                None
            }),
    {
        let header = match InodeHeader::read_at(self.data, offset) {
            Ok(header) => header,
            Err(_) => {
                return None;
            },
        };
        if header.xattr_count == 0 {
            return None;
        }
        let inode_size = if is_compact(header.format) {
            InodeCompact::size()
        } else {
            InodeExtended::size()
        };
        if inode_size + XattrBodyHeader::size() > self.data.len() - offset {
            return None;
        }
        let xattr_start = offset + inode_size;
        let body = match XattrBodyHeader::read_at(self.data, xattr_start) {
            Ok(body) => body,
            Err(_) => {
                return None;
            },
        };
        if !bloom_filter_admits(body.name_filter, hash) {
            return None;
        }
        Some(
            XattrInode {
                nid,
                xattr_count: header.xattr_count,
                name_filter: body.name_filter,
                xattr_start,
            },
        )
    }
}

} // verus!
