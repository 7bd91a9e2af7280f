//! The store: a block device held in memory, with the allocator's mark.

use vstd::prelude::*;
use crate::codec::overwrite;
use crate::error::FsError;
use crate::inode::{lemma_record_round_trip, Inode};
use crate::layout::{Config, RECORD_BYTES};

verus! {

/// The store as contracts see it: the geometry, what every device block
/// holds, and the first data block that was never handed out.
pub struct Image {
    pub cfg: Config,
    pub blocks: Seq<Seq<u8>>,
    pub next_free: usize,
}

impl Image {
    /// The geometry is usable, the machine can count the blocks, every
    /// block has the block size, and data block 0 is never free.
    pub open spec fn wf(self) -> bool {
        &&& self.cfg.wf()
        &&& self.next_free >= 1
        &&& self.blocks.len() <= usize::MAX
        &&& forall|i: int| 0 <= i < self.blocks.len() ==> (#[trigger] self.blocks[i]).len() == self.cfg.block_size
    }

    /// The inode table holds a record for `inum`, inside the device.
    pub open spec fn has_record(self, inum: usize) -> bool {
        inum < self.cfg.inode_capacity() && self.cfg.inode_block(inum as int) < self.blocks.len()
    }

    /// The bytes of the record of inode `inum`.
    pub open spec fn record_bytes(self, inum: usize) -> Seq<u8> {
        self.blocks[self.cfg.inode_block(inum as int)].subrange(
            self.cfg.inode_offset(inum as int),
            self.cfg.inode_offset(inum as int) + RECORD_BYTES,
        )
    }

    /// The inode that the table holds under `inum`, if it can be read.
    pub open spec fn stored(self, inum: usize) -> Option<Inode> {
        if self.has_record(inum) {
            Inode::parse(inum, self.record_bytes(inum))
        } else {
            None
        }
    }

    /// The store after device block `blk` was overwritten with `content`.
    pub open spec fn with_block(self, blk: int, content: Seq<u8>) -> Image {
        Image { blocks: self.blocks.update(blk, content), ..self }
    }

    /// The store after the record of `inode` was written into its block.
    pub open spec fn with_inode(self, inode: Inode) -> Image {
        let blk = self.cfg.inode_block(inode.inum as int);
        self.with_block(
            blk,
            overwrite(self.blocks[blk], self.cfg.inode_offset(inode.inum as int), inode.record()),
        )
    }

    /// The device has a block behind data block `phys`.
    pub open spec fn has_data(self, phys: usize) -> bool {
        self.cfg.data_block(phys as int) < self.blocks.len()
    }

    /// What data block `phys` holds.
    pub open spec fn data(self, phys: usize) -> Seq<u8> {
        self.blocks[self.cfg.data_block(phys as int)]
    }

    /// The store after data block `phys` was overwritten with `content`.
    pub open spec fn with_data(self, phys: usize, content: Seq<u8>) -> Image {
        self.with_block(self.cfg.data_block(phys as int), content)
    }

    /// The store after the allocator handed out one more block.
    pub open spec fn bumped(self) -> Image {
        Image { next_free: (self.next_free + 1) as usize, ..self }
    }
}

/// A block device in memory together with the allocator of its data region.
pub struct FileSystem {
    pub cfg: Config,
    pub blocks: Vec<Vec<u8>>,
    pub next_free: usize,
}

impl View for FileSystem {
    type V = Image;

    open spec fn view(&self) -> Image {
        Image {
            cfg: self.cfg,
            blocks: Seq::new(self.blocks@.len(), |i: int| self.blocks@[i]@),
            next_free: self.next_free,
        }
    }
}

impl FileSystem {
    /// A device of `total_blocks` zeroed blocks. Every inode record then
    /// reads as an empty inode, and the allocator starts at data block 1.
    /// Where the device reaches into the data region, every inode of the
    /// table is a file whose pages have blocks of their own, and no two of
    /// them share a block.
    pub fn format(cfg: Config, total_blocks: usize) -> (fs: FileSystem)
        requires
            cfg.wf(),
        ensures
            fs@.wf(),
            fs@.cfg == cfg,
            fs@.next_free == 1,
            fs@.blocks.len() == total_blocks,
            forall|i: int, k: int|
                0 <= i < total_blocks && 0 <= k < cfg.block_size ==> #[trigger] fs@.blocks[i][k] == 0,
            forall|inum: usize|
                cfg.data_block(0) < total_blocks && #[trigger] fs@.has_record(inum) ==> fs@.sound(
                    inum,
                ),
            forall|a: usize, b: usize|
                cfg.data_block(0) < total_blocks && fs@.has_record(a) && fs@.has_record(b)
                    ==> #[trigger] fs@.apart(a, b),
    {
        let mut blocks: Vec<Vec<u8>> = Vec::new();
        let mut i: usize = 0;
        while i < total_blocks
            invariant
                i <= total_blocks,
                blocks@.len() == i,
                forall|j: int| 0 <= j < i ==> (#[trigger] blocks@[j])@.len() == cfg.block_size,
                forall|j: int, k: int|
                    0 <= j < i && 0 <= k < cfg.block_size ==> #[trigger] blocks@[j]@[k] == 0,
            decreases total_blocks - i,
        {
            blocks.push(zeroed(cfg.block_size));
            i += 1;
        }
        let fs = FileSystem { cfg, blocks, next_free: 1 };
        proof {
            assert forall|inum: usize|
                cfg.data_block(0) < total_blocks && #[trigger] fs@.has_record(inum) implies fs@.sound(
                inum,
            ) by {
                crate::sound::lemma_blank_is_sound(fs@, inum);
            }
            assert forall|a: usize, b: usize|
                cfg.data_block(0) < total_blocks && fs@.has_record(a) && fs@.has_record(
                    b,
                ) implies #[trigger] fs@.apart(a, b) by {
                crate::apart::lemma_blank_apart(fs@, a, b);
            }
        }
        fs
    }

    /// Tells whether the store is well formed: a usable geometry, every
    /// block of the block size, and data block 0 not free.
    pub fn is_well_formed(&self) -> (ok: bool)
        ensures
            ok == self@.wf(),
    {
        let total = self.blocks.len();
        if self.next_free < 1 {
            return false;
        }
        let valid = Config::new(
            self.cfg.block_size,
            self.cfg.inode_size,
            self.cfg.list_size,
            self.cfg.inode_base,
            self.cfg.data_base,
        );
        if valid.is_none() {
            return false;
        }
        let mut i: usize = 0;
        while i < total
            invariant
                i <= total,
                total == self.blocks@.len(),
                forall|j: int| 0 <= j < i ==> (#[trigger] self@.blocks[j]).len() == self.cfg.block_size,
            decreases total - i,
        {
            if self.blocks[i].len() != self.cfg.block_size {
                assert(self@.blocks[i as int].len() != self.cfg.block_size);
                return false;
            }
            i += 1;
        }
        true
    }

    /// Number of blocks of the device.
    pub fn block_count(&self) -> (n: usize)
        ensures
            n == self@.blocks.len(),
    {
        self.blocks.len()
    }

    /// The first data block that was never handed out.
    pub fn next_free(&self) -> (n: usize)
        ensures
            n == self@.next_free,
    {
        self.next_free
    }

    /// Reads device block `blk` whole.
    pub fn read_block(&self, blk: usize) -> (r: Result<Vec<u8>, FsError>)
        ensures
            blk < self@.blocks.len() ==> r is Ok && r->Ok_0@ == self@.blocks[blk as int],
            blk >= self@.blocks.len() ==> r == Err::<Vec<u8>, FsError>(FsError::DeviceIoFailed),
    {
        if blk >= self.blocks.len() {
            return Err(FsError::DeviceIoFailed);
        }
        let src = &self.blocks[blk];
        let mut out: Vec<u8> = Vec::new();
        let mut k: usize = 0;
        while k < src.len()
            invariant
                k <= src@.len(),
                out@ == src@.subrange(0, k as int),
            decreases src@.len() - k,
        {
            out.push(src[k]);
            assert(out@ =~= src@.subrange(0, k + 1));
            k += 1;
        }
        assert(out@ =~= src@);
        Ok(out)
    }

    /// Writes device block `blk` whole. The device takes whole blocks
    /// only: content of another length is refused.
    pub fn write_block(&mut self, blk: usize, content: Vec<u8>) -> (r: Result<(), FsError>)
        requires
            old(self)@.wf(),
        ensures
            final(self)@.wf(),
            old(self)@.blocks.len() > blk && content@.len() == old(self)@.cfg.block_size ==> r is Ok
                && final(self)@ == old(self)@.with_block(blk as int, content@),
            old(self)@.blocks.len() <= blk || content@.len() != old(self)@.cfg.block_size ==> r
                == Err::<(), FsError>(FsError::DeviceIoFailed) && final(self)@ == old(self)@,
    {
        if blk >= self.blocks.len() || content.len() != self.cfg.block_size {
            return Err(FsError::DeviceIoFailed);
        }
        let ghost before = self@;
        let ghost bytes = content@;
        self.blocks.set(blk, content);
        proof {
            assert(self@.blocks =~= before.with_block(blk as int, bytes).blocks);
        }
        Ok(())
    }

    /// Hands out the next free data block, while the device has one.
    pub fn alloc_block(&mut self) -> (r: Result<usize, FsError>)
        requires
            old(self)@.wf(),
        ensures
            final(self)@.wf(),
            old(self)@.has_data(old(self)@.next_free) ==> r == Ok::<usize, FsError>(
                old(self)@.next_free,
            ) && final(self)@ == old(self)@.bumped() && final(self)@.next_free == old(self)@.next_free
                + 1,
            !old(self)@.has_data(old(self)@.next_free) ==> r == Err::<usize, FsError>(
                FsError::AllocationFailed,
            ) && final(self)@ == old(self)@,
    {
        let blk = self.next_free;
        let total = self.blocks.len();
        match self.cfg.locate_data(blk) {
            Some(dev) => {
                if dev < self.blocks.len() {
                    self.next_free = blk + 1;
                    assert(self@.blocks =~= old(self)@.blocks);
                    Ok(blk)
                } else {
                    Err(FsError::AllocationFailed)
                }
            },
            None => Err(FsError::AllocationFailed),
        }
    }

    /// Reads data block `phys` whole.
    pub fn read_data(&self, phys: usize) -> (r: Result<Vec<u8>, FsError>)
        requires
            self@.wf(),
        ensures
            self@.has_data(phys) ==> r is Ok && r->Ok_0@ == self@.data(phys) && r->Ok_0@.len()
                == self@.cfg.block_size,
            !self@.has_data(phys) ==> r == Err::<Vec<u8>, FsError>(FsError::DeviceIoFailed),
    {
        let total = self.blocks.len();
        match self.cfg.locate_data(phys) {
            Some(dev) => {
                let r = self.read_block(dev);
                proof {
                    if self@.has_data(phys) {
                        assert(self@.blocks[dev as int].len() == self@.cfg.block_size);
                    }
                }
                r
            },
            None => Err(FsError::DeviceIoFailed),
        }
    }

    /// Writes data block `phys` whole; content of another length than a
    /// block's is refused.
    pub fn write_data(&mut self, phys: usize, content: Vec<u8>) -> (r: Result<(), FsError>)
        requires
            old(self)@.wf(),
        ensures
            final(self)@.wf(),
            old(self)@.has_data(phys) && content@.len() == old(self)@.cfg.block_size ==> r is Ok
                && final(self)@ == old(self)@.with_data(phys, content@),
            !old(self)@.has_data(phys) || content@.len() != old(self)@.cfg.block_size ==> r
                == Err::<(), FsError>(FsError::DeviceIoFailed) && final(self)@ == old(self)@,
    {
        let total = self.blocks.len();
        match self.cfg.locate_data(phys) {
            Some(dev) => self.write_block(dev, content),
            None => Err(FsError::DeviceIoFailed),
        }
    }

    /// Reads the record of inode `inum` from the table.
    pub fn load_inode(&self, inum: usize) -> (r: Result<Inode, FsError>)
        requires
            self@.wf(),
        ensures
            r == (match self@.stored(inum) {
                Some(inode) => Ok::<Inode, FsError>(inode),
                None => Err(FsError::CorruptRecord),
            }),
    {
        match self.cfg.locate_inode(inum) {
            Some((blk, off)) => {
                match self.read_block(blk) {
                    Ok(raw) => Inode::decode(inum, raw.as_slice(), off),
                    Err(_) => Err(FsError::CorruptRecord),
                }
            },
            None => Err(FsError::CorruptRecord),
        }
    }

    /// Writes the record of `inode` into the table: its block is read,
    /// the record's bytes are replaced, and the block is written back.
    pub fn store_inode(&mut self, inode: &Inode) -> (r: Result<(), FsError>)
        requires
            old(self)@.wf(),
        ensures
            final(self)@.wf(),
            old(self)@.has_record(inode.inum) ==> r is Ok && final(self)@ == old(self)@.with_inode(
                *inode,
            ),
            !old(self)@.has_record(inode.inum) ==> r == Err::<(), FsError>(FsError::CorruptRecord)
                && final(self)@ == old(self)@,
    {
        match self.cfg.locate_inode(inode.inum) {
            Some((blk, off)) => {
                match self.read_block(blk) {
                    Ok(mut raw) => {
                        inode.encode(&mut raw, off);
                        self.write_block(blk, raw)
                    },
                    Err(_) => Err(FsError::CorruptRecord),
                }
            },
            None => Err(FsError::CorruptRecord),
        }
    }
}

/// A block of `n` zero bytes.
pub fn zeroed(n: usize) -> (v: Vec<u8>)
    ensures
        v@.len() == n,
        forall|k: int| 0 <= k < n ==> v@[k] == 0,
{
    let mut v: Vec<u8> = Vec::new();
    let mut k: usize = 0;
    while k < n
        invariant
            k <= n,
            v@.len() == k,
            forall|j: int| 0 <= j < k ==> v@[j] == 0,
        decreases n - k,
    {
        v.push(0u8);
        k += 1;
    }
    v
}

/// Writing a record and reading the table back gives the inode that was
/// written, and leaves every other inode's record as it was.
pub proof fn lemma_stored_after_with_inode(img: Image, inode: Inode, other: usize)
    requires
        img.wf(),
        inode.valid(),
        img.has_record(inode.inum),
    ensures
        img.with_inode(inode).wf(),
        img.with_inode(inode).stored(inode.inum) == Some(inode),
        other != inode.inum ==> img.with_inode(inode).stored(other) == img.stored(other),
{
    let cfg = img.cfg;
    let blk = cfg.inode_block(inode.inum as int);
    let off = cfg.inode_offset(inode.inum as int);
    crate::layout::lemma_record_place(cfg, inode.inum as int);
    crate::inode::lemma_decode_after_encode(inode, img.blocks[blk], off);
    let after = img.with_inode(inode);
    assert(after.blocks[blk].len() == cfg.block_size);
    if other != inode.inum && img.has_record(other) {
        crate::layout::lemma_record_place(cfg, other as int);
        let oblk = cfg.inode_block(other as int);
        let ooff = cfg.inode_offset(other as int);
        if oblk == blk {
            crate::layout::lemma_records_apart(cfg, inode.inum as int, other as int);
            lemma_record_round_trip(inode);
            assert(after.blocks[blk].subrange(ooff, ooff + RECORD_BYTES) =~= img.blocks[blk].subrange(
                ooff,
                ooff + RECORD_BYTES,
            ));
        }
    }
}

} // verus!
