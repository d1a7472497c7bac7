//! The filesystem of an image.

use crate::backend::Image;
use crate::error::{out_of_bounds, Error};
use crate::filesystem::{BlockPlan, EroFSCore};
use crate::lookup::{require_file, require_regular_file, LookupStep, PathLookup};
use crate::path::{path_parts, PathPart};
use crate::sync::file::File;
use crate::sync::walkdir::WalkDir;
use crate::types::{Inode, SuperBlock, SUPER_BLOCK_OFFSET};
use vstd::prelude::*;

#[allow(unused_imports)]
use crate::error::{outcome, ErrorView};
#[allow(unused_imports)]
use crate::filesystem::{direct_reads_fit_a_block, image_error};
#[allow(unused_imports)]
use crate::le::le_i32;
#[allow(unused_imports)]
use crate::lookup::{
    block_keeps_the_result, file_at, inode_keeps_the_result, lookup_starts_at_the_path,
    path_target, regular_file, resolve, Reads,
};
#[allow(unused_imports)]
use crate::path::{part_views, root_directory_has_one_part};
#[allow(unused_imports)]
use crate::reader::FileView;
#[allow(unused_imports)]
use crate::sync::walkdir::walk_start;
#[allow(unused_imports)]
use crate::walk::WalkView;

verus! {

/// The main entry point for reading EROFS filesystem images.
///
/// `EroFS` provides methods to traverse directories, open files, and access
/// filesystem metadata from EROFS images.
#[derive(Debug, Clone)]
pub struct EroFS<I: Image> {
    image: I,
    core: EroFSCore,
}

/// The file with this inode, before anything was read.
pub open spec fn opened(inode: Result<Inode, ErrorView>) -> Result<FileView, ErrorView> {
    match inode {
        Err(e) => Err(e),
        Ok(inode) => Ok(FileView { inode, offset: 0, buf: None }),
    }
}

/// The walk that stays in its directory.
pub open spec fn listed(walk: Result<WalkView, ErrorView>) -> Result<WalkView, ErrorView> {
    match walk {
        Err(e) => Err(e),
        Ok(w) => Ok(WalkView { max_depth: 1, ..w }),
    }
}

impl<I: Image> EroFS<I> {
    /// What the super block says.
    pub closed spec fn meta(&self) -> EroFSCore {
        self.core
    }

    /// The bytes of the image.
    pub closed spec fn img(&self) -> Seq<u8> {
        self.image.content()
    }

    /// What reading from the image gives.
    pub open spec fn reads(&self) -> Reads {
        self.meta().reads(self.img())
    }

    /// Whether what the super block says can be used.
    pub open spec fn wf(&self) -> bool {
        self.meta().wf()
    }

    /// Creates a new `EroFS` instance from an image.
    ///
    /// # Errors
    ///
    /// Returns an error if:
    /// - The super block cannot be read
    /// - The magic number doesn't match EROFS format (0xE0F5E1E2)
    /// - The block size is invalid (must be 2^n where 9 <= n <= 24)
    pub fn new(image: I) -> (r: Result<Self, Error>)
        ensures
            match image_error(image.content()) {
                Some(e) => r is Err && r->Err_0@ == e,
                None => {
                    &&& r is Ok
                    &&& r->Ok_0.wf()
                    &&& r->Ok_0.img() == image.content()
                    &&& r->Ok_0.meta().super_block.stored_in(image.content().skip(1024))
                },
            },
    {
        let core = match image.get_cursor(SUPER_BLOCK_OFFSET) {
            None => {
                return Err(Error::InvalidSuperblock("failed to read super block".to_string()));
            },
            Some(sb_data) => EroFSCore::new(sb_data)?,
        };
        Ok(EroFS { image, core })
    }

    /// Recursively walks a directory tree starting from the given path.
    ///
    /// The walk hands out all entries (files and directories) under the path.
    pub fn walk_dir(&self, root: &[u8]) -> (r: Result<WalkDir<'_, I>, Error>)
        requires
            self.wf(),
        ensures
            outcome(r) == walk_start(self.meta(), self.reads(), root@),
            r is Ok ==> r->Ok_0.fs() == self && r->Ok_0@.wf() && r->Ok_0@.below(root@),
    {
        WalkDir::new(self, root)
    }

    /// Lists the immediate contents of a directory.
    ///
    /// This is equivalent to `walk_dir` with `max_depth(1)`.
    pub fn read_dir(&self, path: &[u8]) -> (r: Result<WalkDir<'_, I>, Error>)
        requires
            self.wf(),
        ensures
            outcome(r) == listed(walk_start(self.meta(), self.reads(), path@)),
            r is Ok ==> r->Ok_0.fs() == self && r->Ok_0@.wf() && r->Ok_0@.below(path@),
    {
        let walk = WalkDir::new(self, path)?;
        let shallow = walk.max_depth(1);
        assert forall|k: int| 0 <= k < shallow@.stack.len() implies #[trigger] shallow@.nested(
            path@,
            k,
        ) by {
            assert(walk@.nested(path@, k));
        }
        Ok(shallow)
    }

    /// Opens a file at the given path for reading.
    ///
    /// # Errors
    ///
    /// Returns an error if the path doesn't exist or is not a regular file.
    pub fn open(&self, path: &[u8]) -> (r: Result<File<'_, I>, Error>)
        requires
            self.wf(),
        ensures
            outcome(r) == (match path_target(self.meta(), self.reads(), path@) {
                Err(e) => Err(e),
                Ok(found) => opened(file_at(found, path@)),
            }),
            r is Ok ==> r->Ok_0.fs() == self,
            r is Ok ==> r->Ok_0@.in_step(self.reads(), self.meta().block_size),
    {
        let inode = require_file(self.get_path_inode(path)?, path)?;
        self.open_inode_file(inode)
    }

    /// Opens a file from an inode directly.
    ///
    /// This is useful when you already have an inode from directory traversal.
    pub fn open_inode_file(&self, inode: Inode) -> (r: Result<File<'_, I>, Error>)
        requires
            self.wf(),
        ensures
            outcome(r) == opened(regular_file(inode)),
            r is Ok ==> r->Ok_0.fs() == self,
            r is Ok ==> r->Ok_0@.in_step(self.reads(), self.meta().block_size),
    {
        proof {
            vstd::arithmetic::div_mod::lemma_small_mod(0, self.core.block_size as nat);
        }
        Ok(File::new(require_regular_file(inode)?, self))
    }

    /// Returns a reference to the filesystem super block.
    pub fn super_block(&self) -> (sb: &SuperBlock)
        ensures
            *sb == self.meta().super_block,
    {
        &self.core.super_block
    }

    /// The block size in bytes.
    pub fn block_size(&self) -> (n: usize)
        ensures
            n == self.meta().block_size,
    {
        self.core.block_size
    }

    /// Reads the inode of a node.
    pub fn get_inode(&self, nid: u64) -> (r: Result<Inode, Error>)
        requires
            self.wf(),
        ensures
            outcome(r) == self.meta().inode_in(self.img(), nid),
    {
        let offset = self.core.get_inode_offset(nid) as usize;
        match self.image.get_cursor(offset) {
            None => Err(out_of_bounds("failed to read inode format")),
            Some(data) => self.core.parse_inode(data, nid),
        }
    }

    /// The block of a file that holds the byte at `offset`.
    pub fn get_inode_block(&self, inode: &Inode, offset: usize) -> (r: Result<&[u8], Error>)
        requires
            self.wf(),
        ensures
            outcome(r) == self.meta().block_in(self.img(), *inode, offset),
    {
        proof {
            direct_reads_fit_a_block(self.core, *inode, offset);
        }
        match self.core.plan_inode_block_read(inode, offset)? {
            BlockPlan::Direct { offset, size } => self.get_data(offset, size),
            BlockPlan::Chunked {
                addr_offset,
                chunk_fixed,
                data_size,
                chunk_index,
                chunk_count,
            } => {
                let address = match self.image.get(addr_offset..addr_offset + 4) {
                    None => {
                        return Err(out_of_bounds("failed to get chunk address"));
                    },
                    Some(address) => address,
                };
                assert(le_i32(address@, 0) == le_i32(self.img(), addr_offset as int));
                let (offset, size) = self.core.locate_chunk_block(
                    address,
                    chunk_fixed,
                    data_size,
                    chunk_index,
                    chunk_count,
                )?;
                self.get_data(offset, size)
            },
        }
    }

    fn get_data(&self, offset: usize, size: usize) -> (r: Result<&[u8], Error>)
        requires
            offset + size <= usize::MAX,
        ensures
            outcome(r) == crate::filesystem::data_in(self.img(), offset as int, size as int),
    {
        match self.image.get(offset..offset + size) {
            None => Err(out_of_bounds("failed to get inode data")),
            Some(data) => Ok(data),
        }
    }

    /// The inode that a path leads to, or `None` where there is none. The path `/`
    /// leads to the root directory.
    pub fn get_path_inode(&self, path: &[u8]) -> (r: Result<Option<Inode>, Error>)
        requires
            self.wf(),
        ensures
            outcome(r) == path_target(self.meta(), self.reads(), path@),
            path@ == seq![47u8] ==> outcome(r) == (match self.meta().inode_in(
                self.img(),
                self.meta().super_block.root_nid as u64,
            ) {
                Ok(inode) => Ok(Some(inode)),
                Err(e) => Err(e),
            }),
    {
        let parts = path_parts(path);
        proof {
            if path@ == seq![47u8] {
                root_directory_has_one_part();
                reveal_with_fuel(resolve, 2);
            }
        }
        self.get_parts_inode(parts)
    }

    /// The inode that the parts of a path lead to, or `None` where there is none.
    pub fn get_parts_inode(&self, parts: Vec<PathPart>) -> (r: Result<Option<Inode>, Error>)
        requires
            self.wf(),
        ensures
            outcome(r) == resolve(
                self.reads(),
                self.meta().block_size,
                part_views(parts@),
                0,
                self.meta().super_block.root_nid as u64,
            ),
    {
        let ghost reads = self.reads();
        let ghost path = part_views(parts@);
        let root_nid = self.core.super_block.root_nid as u64;
        let mut lookup = PathLookup::new(parts, root_nid, self.core.block_size);
        proof {
            lookup_starts_at_the_path(reads, path, root_nid, self.core.block_size);
        }
        while !lookup.is_finished()
            invariant
                self.wf(),
                reads == self.reads(),
                path == part_views(parts@),
                root_nid == self.core.super_block.root_nid as u64,
                lookup@.wf(),
                lookup@.result(reads) == resolve(reads, self.core.block_size, path, 0, root_nid),
            decreases lookup@.parts_left(), lookup@.reads_left(),
        {
            self.advance(&mut lookup)?;
        }
        Ok(lookup.found())
    }

    /// Reads what a lookup needs next.
    fn advance(&self, lookup: &mut PathLookup) -> (r: Result<(), Error>)
        requires
            self.wf(),
            old(lookup)@.wf(),
            !(old(lookup)@.state is Finished),
        ensures
            r is Ok ==> {
                &&& final(lookup)@.wf()
                &&& final(lookup)@.result(self.reads()) == old(lookup)@.result(self.reads())
                &&& final(lookup)@.further_than(old(lookup)@)
            },
            r is Err ==> old(lookup)@.result(self.reads()) == Err::<Option<Inode>, ErrorView>(
                r->Err_0@,
            ),
    {
        let ghost reads = self.reads();
        match lookup.step() {
            LookupStep::ReadInode(nid) => {
                proof {
                    inode_keeps_the_result(reads, lookup@);
                }
                let inode = self.get_inode(nid)?;
                lookup.inode_read(inode);
            },
            LookupStep::ReadBlock(dir, offset) => {
                proof {
                    block_keeps_the_result(reads, lookup@);
                }
                let block = self.get_inode_block(&dir, offset)?;
                lookup.block_read(block)?;
            },
            LookupStep::Finished(_) => {},
        }
        Ok(())
    }
}

} // verus!
