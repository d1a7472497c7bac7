//! Reading a file.

use crate::backend::Image;
use crate::error::Error;
use crate::reader::{FileReader, ReadStep};
use crate::sync::filesystem::EroFS;
use crate::types::Inode;
use vstd::prelude::*;

#[allow(unused_imports)]
use crate::error::outcome;
#[allow(unused_imports)]
use crate::reader::{
    blocks_have_their_size, file_content, file_read, lemma_block_index, lemma_readable_end, nth_block,
    readable_end, reading_gives_the_content, FileView,
};

verus! {

/// A handle to a file within an EROFS filesystem.
///
/// Use [`read`](File::read) to read file contents.
#[derive(Debug)]
pub struct File<'a, I: Image> {
    erofs: &'a EroFS<I>,
    reader: FileReader<&'a [u8]>,
}

impl<'a, I: Image> View for File<'a, I> {
    type V = FileView;

    closed spec fn view(&self) -> FileView {
        self.reader@
    }
}

impl<'a, I: Image> File<'a, I> {
    /// The filesystem of the file.
    pub closed spec fn fs(&self) -> &'a EroFS<I> {
        self.erofs
    }

    pub(crate) fn new(inode: Inode, erofs: &'a EroFS<I>) -> (f: Self)
        ensures
            f.fs() == erofs,
            f@ == (FileView { inode, offset: 0, buf: None }),
    {
        File { erofs, reader: FileReader::new(inode) }
    }

    /// Returns the size of the file in bytes.
    pub fn size(&self) -> (n: usize)
        ensures
            n == self@.inode.data_size_spec(),
    {
        self.reader.size()
    }

    /// Reads file contents into `buf`.
    ///
    /// Returns the number of bytes read, or `0` if the end of the file has been
    /// reached.
    pub fn read(&mut self, buf: &mut [u8]) -> (r: Result<usize, Error>)
        requires
            old(self).fs().wf(),
        ensures
            final(self).fs() == old(self).fs(),
            (final(self)@, final(buf)@, outcome(r)) == file_read(
                old(self).fs().reads(),
                old(self).fs().meta().block_size,
                old(self)@,
                old(buf)@,
            ),
    {
        let block_size = self.erofs.block_size();
        match self.reader.step(block_size, buf) {
            ReadStep::Done(n) => Ok(n),
            ReadStep::ReadBlock(offset) => {
                let inode = self.reader.inode();
                let block = self.erofs.get_inode_block(&inode, offset)?;
                Ok(self.reader.block_read(block_size, buf, block))
            },
        }
    }

    /// Reads the rest of the file behind the bytes of `out`.
    ///
    /// Returns the number of bytes read. Where a block cannot be read, `out` has
    /// the bytes up to that block.
    pub fn read_to_end(&mut self, out: &mut Vec<u8>) -> (r: Result<usize, Error>)
        requires
            old(self).fs().wf(),
            old(self)@.in_step(old(self).fs().reads(), old(self).fs().meta().block_size),
        ensures
            final(self).fs() == old(self).fs(),
            final(self)@.inode == old(self)@.inode,
            final(self)@.in_step(final(self).fs().reads(), final(self).fs().meta().block_size),
            ({
                let reads = old(self).fs().reads();
                let bs = old(self).fs().meta().block_size;
                let v = old(self)@;
                let end = readable_end(reads, bs, v.inode, v.offset as int);
                &&& final(self)@.offset == end
                &&& final(out)@ == old(out)@ + file_content(reads, bs, v.inode).subrange(
                    v.offset as int,
                    end,
                )
                &&& outcome(r) == (if end == v.inode.data_size_spec() {
                    Ok((end - v.offset) as usize)
                } else {
                    Err(nth_block(reads, bs, v.inode, end / bs as int)->Err_0)
                })
            }),
    {
        let ghost reads = self.fs().reads();
        let ghost bs = self.fs().meta().block_size;
        let ghost start = self@.offset as int;
        let ghost content = file_content(reads, bs, self@.inode);
        let ghost end = readable_end(reads, bs, self@.inode, start);
        let mut chunk: Vec<u8> = vec![0; 4096];
        let mut total: usize = 0;
        assert(out@ =~= old(out)@ + content.subrange(start, start));
        loop
            invariant
                self.fs() == old(self).fs(),
                self.fs().wf(),
                reads == self.fs().reads(),
                bs == self.fs().meta().block_size,
                self@.in_step(reads, bs),
                self@.inode == old(self)@.inode,
                start == old(self)@.offset,
                content == file_content(reads, bs, self@.inode),
                end == readable_end(reads, bs, self@.inode, start),
                readable_end(reads, bs, self@.inode, self@.offset as int) == end,
                start + total == self@.offset,
                out@ == old(out)@ + content.subrange(start, self@.offset as int),
                chunk@.len() == 4096,
            decreases self@.inode.data_size_spec() - self@.offset,
        {
            let ghost v = self@;
            let ghost before = chunk@;
            proof {
                if v.offset < v.inode.data_size_spec() {
                    let i = v.offset as int / bs as int;
                    lemma_block_index(v.inode.data_size_spec() as int, bs as int, v.offset as int);
                    blocks_have_their_size(self.fs().meta(), self.fs().img(), v.inode, i);
                    lemma_readable_end(reads, bs, v, before);
                    if nth_block(reads, bs, v.inode, i) is Ok {
                        reading_gives_the_content(reads, bs, v, before);
                    }
                } else {
                    reading_gives_the_content(reads, bs, v, before);
                }
            }
            let n = self.read(chunk.as_mut_slice())?;
            if n == 0 {
                return Ok(total);
            }
            out.extend_from_slice(&chunk[0..n]);
            assert(out@ =~= old(out)@ + content.subrange(start, self@.offset as int)) by {
                assert(chunk@.take(n as int) =~= chunk@.subrange(0, n as int));
                assert(content.subrange(start, self@.offset as int) =~= content.subrange(
                    start,
                    v.offset as int,
                ) + content.subrange(v.offset as int, self@.offset as int));
            }
            total = total + n;
        }
    }
}

} // verus!
