//! Byte-range reads and writes of a file, block by block.

use vstd::prelude::*;
use crate::codec::{copy_into, overwrite};
use crate::error::FsError;
use crate::inode::Inode;
use crate::resolve::{lemma_alloc_page_keeps, lemma_with_data_keeps_records};
use crate::sound::lemma_read_after_write;
use crate::span::{
    ceil_div, chunk_len, chunk_offset, chunk_start, lemma_chunks_tile, lemma_span_pages,
    lemma_span_small, span_blocks,
};
use crate::store::{lemma_stored_after_with_inode, FileSystem, Image};

verus! {

/// The larger of two sizes.
pub open spec fn larger(a: int, b: int) -> int {
    if a >= b {
        a
    } else {
        b
    }
}

impl Image {
    /// The store after chunk `i` of a write went through: its page is
    /// resolved, the page's block is read, the chunk's bytes replace their
    /// range of it, and the block is written back.
    pub open spec fn write_chunk(self, inum: usize, offset: int, data: Seq<u8>, i: int) -> (
        Result<(), FsError>,
        Image,
    ) {
        let bs = self.cfg.block_size as int;
        let resolved = self.alloc_page(inum, (offset / bs + i) as usize);
        match resolved.0 {
            Err(e) => (Err(e), resolved.1),
            Ok(p) => {
                if !resolved.1.has_data(p) {
                    (Err(FsError::DeviceIoFailed), resolved.1)
                } else {
                    (
                        Ok(()),
                        resolved.1.with_data(
                            p,
                            overwrite(
                                resolved.1.data(p),
                                chunk_offset(bs, offset, i),
                                data.subrange(
                                    chunk_start(bs, offset, i),
                                    chunk_start(bs, offset, i) + chunk_len(
                                        bs,
                                        offset,
                                        data.len() as int,
                                        i,
                                    ),
                                ),
                            ),
                        ),
                    )
                }
            },
        }
    }

    /// The store after the first `n` chunks of a write, in order; the first
    /// failure ends the write and leaves what was done before it.
    pub open spec fn write_chunks(self, inum: usize, offset: int, data: Seq<u8>, n: nat) -> (
        Result<(), FsError>,
        Image,
    )
        decreases n,
    {
        if n == 0 {
            (Ok(()), self)
        } else {
            let before = self.write_chunks(inum, offset, data, (n - 1) as nat);
            match before.0 {
                Err(e) => before,
                Ok(_) => before.1.write_chunk(inum, offset, data, n - 1),
            }
        }
    }

    /// A whole write: every chunk, then the record with the size raised to
    /// the end of the write where that lies beyond it.
    pub open spec fn write_file(self, inum: usize, offset: int, data: Seq<u8>) -> (
        Result<usize, FsError>,
        Image,
    ) {
        let bs = self.cfg.block_size as int;
        let done = self.write_chunks(
            inum,
            offset,
            data,
            span_blocks(bs, offset, data.len() as int) as nat,
        );
        match done.0 {
            Err(e) => (Err(e), done.1),
            Ok(_) => match done.1.stored(inum) {
                None => (Err(FsError::CorruptRecord), done.1),
                Some(inode) => (
                    Ok(data.len() as usize),
                    done.1.with_inode(
                        Inode { size: larger(inode.size as int, offset + data.len()) as usize, ..inode },
                    ),
                ),
            },
        }
    }
}

/// One chunk of a write keeps the store well formed and its device as
/// large as it was, and leaves size and kind of every record alone.
pub proof fn lemma_write_chunk_keeps(
    img: Image,
    inum: usize,
    offset: int,
    data: Seq<u8>,
    i: int,
    other: usize,
)
    requires
        img.wf(),
        offset >= 0,
        0 <= i < span_blocks(img.cfg.block_size as int, offset, data.len() as int),
    ensures
        img.write_chunk(inum, offset, data, i).1.wf(),
        img.write_chunk(inum, offset, data, i).1.cfg == img.cfg,
        img.write_chunk(inum, offset, data, i).1.blocks.len() == img.blocks.len(),
        img.write_chunk(inum, offset, data, i).1.next_free >= img.next_free,
        other != inum ==> img.write_chunk(inum, offset, data, i).1.stored(other) == img.stored(
            other,
        ),
        img.stored(inum) is Some ==> {
            &&& img.write_chunk(inum, offset, data, i).1.stored(inum) is Some
            &&& img.write_chunk(inum, offset, data, i).1.stored(inum)->Some_0.size == img.stored(
                inum,
            )->Some_0.size
            &&& img.write_chunk(inum, offset, data, i).1.stored(inum)->Some_0.dirtype
                == img.stored(inum)->Some_0.dirtype
            &&& img.stored(inum)->Some_0.single is Some ==> img.write_chunk(inum, offset, data, i).1.stored(
                inum,
            )->Some_0.single == img.stored(inum)->Some_0.single
            &&& img.stored(inum)->Some_0.double is Some ==> img.write_chunk(inum, offset, data, i).1.stored(
                inum,
            )->Some_0.double == img.stored(inum)->Some_0.double
        },
        img.write_chunk(inum, offset, data, i).0 is Ok ==> img.stored(inum) is Some,
{
    let bs = img.cfg.block_size as int;
    let num = (offset / bs + i) as usize;
    lemma_alloc_page_keeps(img, inum, num, other);
    lemma_alloc_page_keeps(img, inum, num, inum);
    lemma_chunks_tile(bs, offset, data.len() as int, i);
    let resolved = img.alloc_page(inum, num);
    if resolved.0 is Ok && resolved.1.has_data(resolved.0->Ok_0) {
        let p = resolved.0->Ok_0;
        let content = overwrite(
            resolved.1.data(p),
            chunk_offset(bs, offset, i),
            data.subrange(
                chunk_start(bs, offset, i),
                chunk_start(bs, offset, i) + chunk_len(bs, offset, data.len() as int, i),
            ),
        );
        assert(content.len() == bs);
        lemma_with_data_keeps_records(resolved.1, p, content, inum);
        lemma_with_data_keeps_records(resolved.1, p, content, other);
    }
}

/// The same of any number of chunks.
pub proof fn lemma_write_chunks_keeps(
    img: Image,
    inum: usize,
    offset: int,
    data: Seq<u8>,
    n: nat,
    other: usize,
)
    requires
        img.wf(),
        offset >= 0,
        n <= span_blocks(img.cfg.block_size as int, offset, data.len() as int),
    ensures
        img.write_chunks(inum, offset, data, n).1.wf(),
        img.write_chunks(inum, offset, data, n).1.cfg == img.cfg,
        img.write_chunks(inum, offset, data, n).1.blocks.len() == img.blocks.len(),
        img.write_chunks(inum, offset, data, n).1.next_free >= img.next_free,
        other != inum ==> img.write_chunks(inum, offset, data, n).1.stored(other) == img.stored(
            other,
        ),
        img.stored(inum) is Some ==> {
            &&& img.write_chunks(inum, offset, data, n).1.stored(inum) is Some
            &&& img.write_chunks(inum, offset, data, n).1.stored(inum)->Some_0.size == img.stored(
                inum,
            )->Some_0.size
            &&& img.write_chunks(inum, offset, data, n).1.stored(inum)->Some_0.dirtype
                == img.stored(inum)->Some_0.dirtype
            &&& img.stored(inum)->Some_0.single is Some ==> img.write_chunks(inum, offset, data, n).1.stored(
                inum,
            )->Some_0.single == img.stored(inum)->Some_0.single
            &&& img.stored(inum)->Some_0.double is Some ==> img.write_chunks(inum, offset, data, n).1.stored(
                inum,
            )->Some_0.double == img.stored(inum)->Some_0.double
        },
        n > 0 && img.write_chunks(inum, offset, data, n).0 is Ok ==> img.stored(inum) is Some,
    decreases n,
{
    if n > 0 {
        lemma_write_chunks_keeps(img, inum, offset, data, (n - 1) as nat, other);
        let before = img.write_chunks(inum, offset, data, (n - 1) as nat);
        if before.0 is Ok {
            lemma_write_chunk_keeps(before.1, inum, offset, data, n - 1, other);
        }
    }
}

/// Once a chunk has failed, the write stays where it failed.
pub proof fn lemma_write_chunks_stuck(
    img: Image,
    inum: usize,
    offset: int,
    data: Seq<u8>,
    k: nat,
    n: nat,
)
    requires
        k <= n,
        img.write_chunks(inum, offset, data, k).0 is Err,
    ensures
        img.write_chunks(inum, offset, data, n) == img.write_chunks(inum, offset, data, k),
    decreases n,
{
    if k < n {
        lemma_write_chunks_stuck(img, inum, offset, data, k, (n - 1) as nat);
    }
}

/// A write that starts on page 0 leaves the direct pointer set.
pub proof fn lemma_write_chunks_set_direct(
    img: Image,
    inum: usize,
    offset: int,
    data: Seq<u8>,
    n: nat,
)
    requires
        img.wf(),
        0 <= offset < img.cfg.block_size,
        1 <= n <= span_blocks(img.cfg.block_size as int, offset, data.len() as int),
        img.write_chunks(inum, offset, data, n).0 is Ok,
    ensures
        img.write_chunks(inum, offset, data, n).1.stored(inum) is Some,
        img.write_chunks(inum, offset, data, n).1.stored(inum)->Some_0.single is Some,
    decreases n,
{
    let bs = img.cfg.block_size as int;
    let before = img.write_chunks(inum, offset, data, (n - 1) as nat);
    lemma_write_chunks_keeps(img, inum, offset, data, (n - 1) as nat, inum);
    lemma_write_chunk_keeps(before.1, inum, offset, data, n - 1, inum);
    if n == 1 {
        assert(before.1 == img);
        assert(offset / bs == 0) by (nonlinear_arith)
            requires
                0 <= offset < bs,
        ;
        lemma_alloc_page_keeps(img, inum, 0, inum);
        let resolved = img.alloc_page(inum, 0);
        let p = resolved.0->Ok_0;
        lemma_chunks_tile(bs, offset, data.len() as int, 0);
        let content = overwrite(
            resolved.1.data(p),
            chunk_offset(bs, offset, 0),
            data.subrange(
                chunk_start(bs, offset, 0),
                chunk_start(bs, offset, 0) + chunk_len(bs, offset, data.len() as int, 0),
            ),
        );
        lemma_with_data_keeps_records(resolved.1, p, content, inum);
    } else {
        lemma_write_chunks_set_direct(img, inum, offset, data, (n - 1) as nat);
    }
}

/// Writing to the file's start a second time allocates nothing for page
/// 0: the direct pointer that the first write set is the one that the
/// record holds after the second.
pub proof fn lemma_second_write_reuses_direct(
    img: Image,
    inum: usize,
    first: Seq<u8>,
    second: Seq<u8>,
)
    requires
        img.wf(),
        first.len() > 0,
        first.len() <= usize::MAX,
        second.len() <= usize::MAX,
        img.write_file(inum, 0, first).0 is Ok,
        img.write_file(inum, 0, first).1.write_file(inum, 0, second).0 is Ok,
    ensures
        img.write_file(inum, 0, first).1.stored(inum) is Some,
        img.write_file(inum, 0, first).1.stored(inum)->Some_0.single is Some,
        img.write_file(inum, 0, first).1.write_file(inum, 0, second).1.stored(inum) is Some,
        img.write_file(inum, 0, first).1.write_file(inum, 0, second).1.stored(
            inum,
        )->Some_0.single == img.write_file(inum, 0, first).1.stored(inum)->Some_0.single,
{
    lemma_write_size(img, inum, 0, first);
    lemma_write_size(img.write_file(inum, 0, first).1, inum, 0, second);
}

/// After a write that succeeds, the file's size is the larger of its size
/// before and the end of the write; so a write never shrinks a file. The
/// kind stays, and the count returned is the number of bytes given.
pub proof fn lemma_write_size(img: Image, inum: usize, offset: int, data: Seq<u8>)
    requires
        img.wf(),
        offset >= 0,
        offset + data.len() <= usize::MAX,
        img.write_file(inum, offset, data).0 is Ok,
    ensures
        img.stored(inum) is Some,
        img.write_file(inum, offset, data).0 == Ok::<usize, FsError>(data.len() as usize),
        img.write_file(inum, offset, data).1.wf(),
        img.write_file(inum, offset, data).1.stored(inum) is Some,
        img.write_file(inum, offset, data).1.stored(inum)->Some_0.size == larger(
            img.stored(inum)->Some_0.size as int,
            offset + data.len(),
        ),
        img.write_file(inum, offset, data).1.stored(inum)->Some_0.size >= img.stored(
            inum,
        )->Some_0.size,
        img.write_file(inum, offset, data).1.stored(inum)->Some_0.dirtype == img.stored(
            inum,
        )->Some_0.dirtype,
        img.stored(inum)->Some_0.single is Some ==> img.write_file(inum, offset, data).1.stored(
            inum,
        )->Some_0.single == img.stored(inum)->Some_0.single,
        img.stored(inum)->Some_0.double is Some ==> img.write_file(inum, offset, data).1.stored(
            inum,
        )->Some_0.double == img.stored(inum)->Some_0.double,
        data.len() > 0 && offset < img.cfg.block_size ==> img.write_file(inum, offset, data).1.stored(
            inum,
        )->Some_0.single is Some,
{
    let bs = img.cfg.block_size as int;
    let n = span_blocks(bs, offset, data.len() as int);
    lemma_span_small(bs, offset, data.len() as int);
    lemma_write_chunks_keeps(img, inum, offset, data, n as nat, inum);
    if data.len() > 0 && offset < img.cfg.block_size {
        lemma_span_pages(bs, offset, data.len() as int);
        lemma_write_chunks_set_direct(img, inum, offset, data, n as nat);
    }
    let done = img.write_chunks(inum, offset, data, n as nat);
    let inode = done.1.stored(inum)->Some_0;
    let next = Inode { size: larger(inode.size as int, offset + data.len()) as usize, ..inode };
    lemma_stored_after_with_inode(done.1, next, inum);
}

impl Inode {
    /// Chunk `i` of a write: resolves the chunk's page, reads its block,
    /// replaces the chunk's range of it and writes it back. `written` is
    /// the number of bytes that the chunks before took. Returns the number
    /// of bytes that this chunk took.
    pub fn write_chunk(
        &mut self,
        fs: &mut FileSystem,
        offset: usize,
        data: &[u8],
        i: usize,
        written: usize,
    ) -> (r: Result<usize, FsError>)
        requires
            old(fs)@.wf(),
            offset + data.len() <= usize::MAX,
            i < span_blocks(old(fs)@.cfg.block_size as int, offset as int, data.len() as int),
            written == chunk_start(old(fs)@.cfg.block_size as int, offset as int, i as int),
        ensures
            final(fs)@.wf(),
            final(fs)@.cfg == old(fs)@.cfg,
            final(self).inum == old(self).inum,
            final(fs)@ == old(fs)@.write_chunk(old(self).inum, offset as int, data@, i as int).1,
            r matches Ok(n) ==> n == chunk_len(
                old(fs)@.cfg.block_size as int,
                offset as int,
                data.len() as int,
                i as int,
            ) && old(fs)@.write_chunk(old(self).inum, offset as int, data@, i as int).0 is Ok,
            r matches Err(e) ==> old(fs)@.write_chunk(old(self).inum, offset as int, data@, i as int).0
                == Err::<(), FsError>(e),
    {
        let bs = fs.cfg.block_size;
        let len = data.len();
        proof {
            lemma_span_small(bs as int, offset as int, len as int);
            lemma_chunks_tile(bs as int, offset as int, len as int, i as int);
            if len > 0 {
                lemma_span_pages(bs as int, offset as int, len as int);
                assert((offset + len - 1) / (bs as int) <= offset + len - 1) by (nonlinear_arith)
                    requires
                        offset + len - 1 >= 0,
                        bs > 0,
                ;
            }
        }
        let blocks = ceil_div(offset % bs + len, bs);
        let block_offset: usize = if i == 0 {
            offset % bs
        } else {
            0
        };
        let num_bytes: usize = if i == blocks - 1 {
            len - written
        } else {
            bs - block_offset
        };
        let page = match self.get_or_alloc_page(fs, offset / bs + i) {
            Ok(p) => p,
            Err(e) => {
                return Err(e);
            },
        };
        let mut raw = match fs.read_data(page) {
            Ok(raw) => raw,
            Err(e) => {
                return Err(e);
            },
        };
        copy_into(&mut raw, block_offset, data, written, num_bytes);
        match fs.write_data(page, raw) {
            Ok(()) => Ok(num_bytes),
            Err(e) => Err(e),
        }
    }

    /// Writes `data` into the file from byte `offset` on, allocating the
    /// pages it touches, and records the new size. Returns the number of
    /// bytes written. A failure ends the write where it occurs; blocks
    /// written before it stay written. Where the file's pages had blocks
    /// of their own, they still have, and a read of the same range gives
    /// `data` back.
    pub fn write(&mut self, fs: &mut FileSystem, offset: usize, data: &[u8]) -> (r: Result<
        usize,
        FsError,
    >)
        requires
            old(fs)@.wf(),
            offset + data.len() <= usize::MAX,
        ensures
            final(fs)@.wf(),
            r == old(fs)@.write_file(old(self).inum, offset as int, data@).0,
            final(fs)@ == old(fs)@.write_file(old(self).inum, offset as int, data@).1,
            final(self).inum == old(self).inum,
            r is Ok ==> {
                &&& r == Ok::<usize, FsError>(data.len())
                &&& final(fs)@.stored(old(self).inum) == Some(*final(self))
                &&& old(fs)@.stored(old(self).inum) is Some
                &&& final(self).size == larger(
                    old(fs)@.stored(old(self).inum)->Some_0.size as int,
                    offset + data.len(),
                )
            },
            r is Ok && data.len() > 0 && old(fs)@.sound(old(self).inum) ==> {
                &&& final(fs)@.sound(old(self).inum)
                &&& final(fs)@.read_file(old(self).inum, offset as int, data.len() as int)
                    == Ok::<Seq<u8>, FsError>(data@)
            },
    {
        let bs = fs.cfg.block_size;
        let len = data.len();
        proof {
            lemma_span_small(bs as int, offset as int, len as int);
        }
        let blocks = ceil_div(offset % bs + len, bs);
        let ghost start = fs@;
        let ghost inum = self.inum;
        let mut written: usize = 0;
        let mut i: usize = 0;
        while i < blocks
            invariant
                i <= blocks,
                bs == start.cfg.block_size,
                len == data@.len(),
                offset + len <= usize::MAX,
                blocks == span_blocks(bs as int, offset as int, len as int),
                start.wf(),
                fs@.wf(),
                fs@.cfg == start.cfg,
                self.inum == inum,
                inum == old(self).inum,
                start == old(fs)@,
                start.write_chunks(inum, offset as int, data@, i as nat) == (Ok::<(), FsError>(()), fs@),
                i < blocks ==> written == chunk_start(bs as int, offset as int, i as int),
                i == blocks ==> written == len,
            decreases blocks - i,
        {
            proof {
                lemma_chunks_tile(bs as int, offset as int, len as int, i as int);
            }
            let ghost before = fs@;
            match self.write_chunk(fs, offset, data, i, written) {
                Ok(num_bytes) => {
                    assert(start.write_chunks(inum, offset as int, data@, (i + 1) as nat)
                        == before.write_chunk(inum, offset as int, data@, i as int));
                    written = written + num_bytes;
                },
                Err(e) => {
                    proof {
                        assert(start.write_chunks(inum, offset as int, data@, (i + 1) as nat)
                            == before.write_chunk(inum, offset as int, data@, i as int));
                        lemma_write_chunks_stuck(
                            start,
                            inum,
                            offset as int,
                            data@,
                            (i + 1) as nat,
                            blocks as nat,
                        );
                    }
                    return Err(e);
                },
            }
            i = i + 1;
        }
        proof {
            lemma_write_chunks_keeps(start, inum, offset as int, data@, blocks as nat, inum);
        }
        let mut stored = match fs.load_inode(self.inum) {
            Ok(inode) => inode,
            Err(e) => {
                return Err(e);
            },
        };
        let last_byte = offset + len;
        if stored.size < last_byte {
            stored.size = last_byte;
        }
        proof {
            lemma_stored_after_with_inode(fs@, stored, inum);
        }
        match fs.store_inode(&stored) {
            Ok(()) => {},
            Err(e) => {
                return Err(e);
            },
        }
        *self = stored;
        proof {
            if len > 0 && start.sound(inum) {
                lemma_read_after_write(start, inum, offset as int, data@);
            }
        }
        Ok(len)
    }
}

impl Image {
    /// The bytes that chunk `i` of a read of `len` bytes from `offset` on
    /// takes from its page.
    pub open spec fn read_chunk(self, inum: usize, offset: int, len: int, i: int) -> Result<
        Seq<u8>,
        FsError,
    > {
        let bs = self.cfg.block_size as int;
        match self.page_of(inum, (offset / bs + i) as usize) {
            Err(e) => Err(e),
            Ok(p) => {
                if !self.has_data(p) {
                    Err(FsError::DeviceIoFailed)
                } else {
                    Ok(
                        self.data(p).subrange(
                            chunk_offset(bs, offset, i),
                            chunk_offset(bs, offset, i) + chunk_len(bs, offset, len, i),
                        ),
                    )
                }
            },
        }
    }

    /// The bytes of the first `n` chunks of a read, in order, or the first
    /// failure among them.
    pub open spec fn read_chunks(self, inum: usize, offset: int, len: int, n: nat) -> Result<
        Seq<u8>,
        FsError,
    >
        decreases n,
    {
        if n == 0 {
            Ok(Seq::empty())
        } else {
            match self.read_chunks(inum, offset, len, (n - 1) as nat) {
                Err(e) => Err(e),
                Ok(bytes) => match self.read_chunk(inum, offset, len, n - 1) {
                    Err(e) => Err(e),
                    Ok(more) => Ok(bytes + more),
                },
            }
        }
    }

    /// A whole read: it must start inside the file, and every page it
    /// touches must begin inside the file and have a block.
    pub open spec fn read_file(self, inum: usize, offset: int, len: int) -> Result<
        Seq<u8>,
        FsError,
    > {
        match self.stored(inum) {
            None => Err(FsError::CorruptRecord),
            Some(inode) => {
                if offset >= inode.size {
                    Err(FsError::PageNotAllocated)
                } else {
                    self.read_chunks(
                        inum,
                        offset,
                        len,
                        span_blocks(self.cfg.block_size as int, offset, len) as nat,
                    )
                }
            },
        }
    }
}

/// Once a chunk has failed, the read has failed with that chunk's error.
pub proof fn lemma_read_chunks_stuck(img: Image, inum: usize, offset: int, len: int, k: nat, n: nat)
    requires
        k <= n,
        img.read_chunks(inum, offset, len, k) is Err,
    ensures
        img.read_chunks(inum, offset, len, n) == img.read_chunks(inum, offset, len, k),
    decreases n,
{
    if k < n {
        lemma_read_chunks_stuck(img, inum, offset, len, k, (n - 1) as nat);
    }
}

impl Inode {
    /// Chunk `i` of a read: finds the chunk's page, reads its block and
    /// copies the chunk's range of it into `data` at index `read`, the
    /// number of bytes that the chunks before gave. Returns the number of
    /// bytes copied.
    pub fn read_chunk(
        &self,
        fs: &FileSystem,
        offset: usize,
        data: &mut Vec<u8>,
        i: usize,
        read: usize,
    ) -> (r: Result<usize, FsError>)
        requires
            fs@.wf(),
            offset + old(data).len() <= usize::MAX,
            i < span_blocks(fs@.cfg.block_size as int, offset as int, old(data).len() as int),
            read == chunk_start(fs@.cfg.block_size as int, offset as int, i as int),
        ensures
            final(data)@.len() == old(data)@.len(),
            match fs@.read_chunk(self.inum, offset as int, old(data)@.len() as int, i as int) {
                Ok(bytes) => r == Ok::<usize, FsError>(bytes.len() as usize) && bytes.len()
                    == chunk_len(
                    fs@.cfg.block_size as int,
                    offset as int,
                    old(data)@.len() as int,
                    i as int,
                ) && final(data)@ == overwrite(old(data)@, read as int, bytes),
                Err(e) => r == Err::<usize, FsError>(e) && final(data)@ == old(data)@,
            },
    {
        let bs = fs.cfg.block_size;
        let len = data.len();
        proof {
            lemma_span_small(bs as int, offset as int, len as int);
            lemma_chunks_tile(bs as int, offset as int, len as int, i as int);
            if len > 0 {
                lemma_span_pages(bs as int, offset as int, len as int);
                assert((offset + len - 1) / (bs as int) <= offset + len - 1) by (nonlinear_arith)
                    requires
                        offset + len - 1 >= 0,
                        bs > 0,
                ;
            }
        }
        let blocks = ceil_div(offset % bs + len, bs);
        let block_offset: usize = if i == 0 {
            offset % bs
        } else {
            0
        };
        let num_bytes: usize = if i == blocks - 1 {
            len - read
        } else {
            bs - block_offset
        };
        let page = match self.get_page(fs, offset / bs + i) {
            Ok(p) => p,
            Err(e) => {
                return Err(e);
            },
        };
        let raw = match fs.read_data(page) {
            Ok(raw) => raw,
            Err(e) => {
                return Err(e);
            },
        };
        copy_into(data, read, raw.as_slice(), block_offset, num_bytes);
        Ok(num_bytes)
    }

    /// Reads `data.len()` bytes of the file from byte `offset` on into
    /// `data`, and returns their number. The read must start inside the
    /// file as the device records it, and every page it touches must
    /// begin inside the file and have a block; else it fails, with `data`
    /// as long as it was.
    pub fn read(&self, fs: &FileSystem, offset: usize, data: &mut Vec<u8>) -> (r: Result<
        usize,
        FsError,
    >)
        requires
            fs@.wf(),
            offset + old(data).len() <= usize::MAX,
        ensures
            final(data)@.len() == old(data)@.len(),
            match fs@.read_file(self.inum, offset as int, old(data)@.len() as int) {
                Ok(bytes) => r == Ok::<usize, FsError>(old(data).len()) && final(data)@ == bytes,
                Err(e) => r == Err::<usize, FsError>(e),
            },
            fs@.stored(self.inum) is Some && offset >= fs@.stored(self.inum)->Some_0.size ==> r
                == Err::<usize, FsError>(FsError::PageNotAllocated),
    {
        let stored = match fs.load_inode(self.inum) {
            Ok(inode) => inode,
            Err(e) => {
                return Err(e);
            },
        };
        if offset >= stored.size {
            return Err(FsError::PageNotAllocated);
        }
        let bs = fs.cfg.block_size;
        let len = data.len();
        proof {
            lemma_span_small(bs as int, offset as int, len as int);
        }
        let blocks = ceil_div(offset % bs + len, bs);
        let mut read: usize = 0;
        let mut i: usize = 0;
        assert(data@.subrange(0, 0) =~= Seq::<u8>::empty());
        while i < blocks
            invariant
                i <= blocks,
                fs@.wf(),
                fs@.stored(self.inum) is Some,
                offset < fs@.stored(self.inum)->Some_0.size,
                bs == fs@.cfg.block_size,
                len == data@.len(),
                len == old(data)@.len(),
                offset + len <= usize::MAX,
                blocks == span_blocks(bs as int, offset as int, len as int),
                i < blocks ==> read == chunk_start(bs as int, offset as int, i as int),
                i == blocks ==> read == len,
                read <= len,
                fs@.read_chunks(self.inum, offset as int, len as int, i as nat) == Ok::<
                    Seq<u8>,
                    FsError,
                >(data@.subrange(0, read as int)),
            decreases blocks - i,
        {
            proof {
                lemma_chunks_tile(bs as int, offset as int, len as int, i as int);
            }
            let ghost before = data@;
            match self.read_chunk(fs, offset, data, i, read) {
                Ok(num_bytes) => {
                    proof {
                        let bytes = fs@.read_chunk(
                            self.inum,
                            offset as int,
                            len as int,
                            i as int,
                        )->Ok_0;
                        assert(data@.subrange(0, read + num_bytes) =~= before.subrange(
                            0,
                            read as int,
                        ) + bytes);
                    }
                    read = read + num_bytes;
                },
                Err(e) => {
                    proof {
                        assert(fs@.read_chunks(self.inum, offset as int, len as int, (i + 1) as nat)
                            == Err::<Seq<u8>, FsError>(e));
                        lemma_read_chunks_stuck(
                            fs@,
                            self.inum,
                            offset as int,
                            len as int,
                            (i + 1) as nat,
                            blocks as nat,
                        );
                    }
                    return Err(e);
                },
            }
            i = i + 1;
        }
        assert(data@.subrange(0, len as int) =~= data@);
        Ok(read)
    }
}

} // verus!
