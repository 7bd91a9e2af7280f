//! Where things live on the device: the inode table and the data region.

use vstd::prelude::*;
use vstd::arithmetic::div_mod::*;

verus! {

/// Width in bytes of one stored integer field.
pub const FIELD_WIDTH: usize = 8;

/// Bytes of an inode record that carry data: four fields.
pub const RECORD_BYTES: usize = 32;

/// The geometry of a store, fixed when it is created.
#[derive(Clone, Copy, Debug, PartialEq, Eq, Structural)]
pub struct Config {
    /// Bytes per device block.
    pub block_size: usize,
    /// Bytes per inode record, at least `RECORD_BYTES`.
    pub inode_size: usize,
    /// Entries that one indirection block holds.
    pub list_size: usize,
    /// Byte address of the inode table.
    pub inode_base: usize,
    /// Byte address of data block 0.
    pub data_base: usize,
}

impl Config {
    /// The geometry is usable: records tile a block, the entries of an
    /// indirection block fit into one block, and both regions start on a
    /// block boundary, the inode table first.
    pub open spec fn wf(&self) -> bool {
        &&& self.inode_size >= RECORD_BYTES
        &&& self.block_size >= self.inode_size
        &&& self.block_size % self.inode_size == 0
        &&& self.list_size * FIELD_WIDTH <= self.block_size
        &&& self.inode_base % self.block_size == 0
        &&& self.data_base % self.block_size == 0
        &&& self.inode_base <= self.data_base
    }

    /// Inode records per block.
    pub open spec fn records_per_block(&self) -> int {
        self.block_size as int / self.inode_size as int
    }

    /// Number of records that fit between the two bases.
    pub open spec fn inode_capacity(&self) -> int {
        ((self.data_base - self.inode_base) / self.block_size as int) * self.records_per_block()
    }

    /// Device block that holds the record of inode `inum`.
    pub open spec fn inode_block(&self, inum: int) -> int {
        self.inode_base as int / self.block_size as int + inum / self.records_per_block()
    }

    /// Byte offset of that record inside its block.
    pub open spec fn inode_offset(&self, inum: int) -> int {
        (inum % self.records_per_block()) * self.inode_size
    }

    /// Device block that holds data block `phys`.
    pub open spec fn data_block(&self, phys: int) -> int {
        self.data_base as int / self.block_size as int + phys
    }

    /// Checks the geometry; `None` where it is not usable.
    pub fn new(
        block_size: usize,
        inode_size: usize,
        list_size: usize,
        inode_base: usize,
        data_base: usize,
    ) -> (r: Option<Config>)
        ensures
            r == (if (Config { block_size, inode_size, list_size, inode_base, data_base }).wf() {
                Some(Config { block_size, inode_size, list_size, inode_base, data_base })
            } else {
                None
            }),
    {
        let cfg = Config { block_size, inode_size, list_size, inode_base, data_base };
        if inode_size < RECORD_BYTES || block_size < inode_size {
            return None;
        }
        if block_size % inode_size != 0 || list_size > block_size / FIELD_WIDTH {
            return None;
        }
        if inode_base % block_size != 0 || data_base % block_size != 0 || inode_base > data_base {
            return None;
        }
        Some(cfg)
    }

    /// Block and in-block offset of the record of inode `inum`, or `None`
    /// where the inode table has no such record.
    pub fn locate_inode(&self, inum: usize) -> (r: Option<(usize, usize)>)
        requires
            self.wf(),
        ensures
            r is Some <==> inum < self.inode_capacity(),
            r matches Some((blk, off)) ==> {
                &&& blk == self.inode_block(inum as int)
                &&& off == self.inode_offset(inum as int)
                &&& off + self.inode_size <= self.block_size
                &&& blk < self.data_base as int / self.block_size as int
                &&& blk * self.block_size + off == self.inode_base + inum * self.inode_size
            },
    {
        let bs = self.block_size;
        let isz = self.inode_size;
        proof {
            lemma_locate(
                bs as int,
                isz as int,
                self.inode_base as int,
                self.data_base as int,
                inum as int,
            );
        }
        let per_block: usize = bs / isz;
        let first: usize = self.inode_base / bs;
        let table_blocks: usize = (self.data_base - self.inode_base) / bs;
        let q: usize = inum / per_block;
        let r: usize = inum % per_block;
        if q >= table_blocks {
            return None;
        }
        Some((first + q, r * isz))
    }

    /// Device block of data block `phys`, or `None` where the number does
    /// not fit the machine's addresses.
    pub fn locate_data(&self, phys: usize) -> (r: Option<usize>)
        requires
            self.wf(),
        ensures
            r is Some <==> self.data_block(phys as int) <= usize::MAX,
            r matches Some(blk) ==> blk == self.data_block(phys as int),
    {
        (self.data_base / self.block_size).checked_add(phys)
    }
}

/// The arithmetic behind `Config::locate_inode`.
proof fn lemma_locate(bs: int, isz: int, ib: int, db: int, inum: int)
    requires
        isz > 0,
        bs >= isz,
        bs % isz == 0,
        ib % bs == 0,
        db % bs == 0,
        0 <= ib <= db,
        0 <= inum,
    ensures
        bs / isz >= 1,
        (bs / isz) * isz == bs,
        (inum % (bs / isz)) * isz + isz <= bs,
        0 <= (inum % (bs / isz)) * isz,
        (ib / bs) * bs == ib,
        (db / bs) * bs == db,
        ib / bs + (db - ib) / bs == db / bs,
        (ib / bs + inum / (bs / isz)) * bs + (inum % (bs / isz)) * isz == ib + inum * isz,
        inum / (bs / isz) < (db - ib) / bs <==> inum < ((db - ib) / bs) * (bs / isz),
        0 <= inum / (bs / isz),
{
    let rpb = bs / isz;
    let q = inum / rpb;
    let r = inum % rpb;
    let tb = (db - ib) / bs;
    lemma_fundamental_div_mod(bs, isz);
    assert(rpb * isz == bs && rpb >= 1) by (nonlinear_arith)
        requires
            bs == isz * rpb,
            isz > 0,
            bs >= isz,
    ;
    lemma_fundamental_div_mod(ib, bs);
    lemma_fundamental_div_mod(db, bs);
    lemma_fundamental_div_mod(db - ib, bs);
    lemma_fundamental_div_mod(inum, rpb);
    assert((db / bs - ib / bs) * bs == db - ib) by (nonlinear_arith)
        requires
            ib == bs * (ib / bs),
            db == bs * (db / bs),
    ;
    lemma_mod_multiples_basic(db / bs - ib / bs, bs);
    assert((db - ib) % bs == 0);
    assert((ib / bs) * bs == ib && (db / bs) * bs == db && tb * bs == db - ib) by (nonlinear_arith)
        requires
            ib == bs * (ib / bs),
            db == bs * (db / bs),
            db - ib == bs * tb,
    ;
    assert(ib / bs + tb == db / bs) by (nonlinear_arith)
        requires
            (ib / bs) * bs == ib,
            (db / bs) * bs == db,
            tb * bs == db - ib,
            bs > 0,
    ;
    lemma_mod_bound(inum, rpb);
    assert(inum == q * rpb + r && 0 <= q) by (nonlinear_arith)
        requires
            inum == rpb * q + r,
            0 <= r < rpb,
            inum >= 0,
    ;
    assert(r * isz + isz <= rpb * isz && 0 <= r * isz) by (nonlinear_arith)
        requires
            0 <= r < rpb,
            isz > 0,
    ;
    assert((ib / bs + q) * bs + r * isz == ib + inum * isz) by (nonlinear_arith)
        requires
            (ib / bs) * bs == ib,
            rpb * isz == bs,
            inum == q * rpb + r,
    ;
    assert(q < tb <==> inum < tb * rpb) by (nonlinear_arith)
        requires
            inum == q * rpb + r,
            0 <= r < rpb,
            rpb >= 1,
    ;
}

/// A record of the table lies inside its block.
pub proof fn lemma_record_place(cfg: Config, inum: int)
    requires
        cfg.wf(),
        0 <= inum,
    ensures
        0 <= cfg.inode_offset(inum),
        cfg.inode_offset(inum) + cfg.inode_size <= cfg.block_size,
        0 <= cfg.inode_block(inum),
        cfg.inode_block(inum) * cfg.block_size + cfg.inode_offset(inum) == cfg.inode_base + inum
            * cfg.inode_size,
        inum < cfg.inode_capacity() ==> cfg.inode_block(inum) < cfg.data_block(0),
        0 <= cfg.data_block(0),
{
    lemma_fundamental_div_mod(cfg.data_base as int, cfg.block_size as int);
    assert(0 <= cfg.data_base as int / cfg.block_size as int) by (nonlinear_arith)
        requires
            cfg.data_base >= 0,
            cfg.block_size > 0,
    ;
    lemma_locate(
        cfg.block_size as int,
        cfg.inode_size as int,
        cfg.inode_base as int,
        cfg.data_base as int,
        inum,
    );
    lemma_fundamental_div_mod(cfg.inode_base as int, cfg.block_size as int);
    assert(0 <= cfg.inode_base as int / cfg.block_size as int) by (nonlinear_arith)
        requires
            cfg.inode_base >= 0,
            cfg.block_size > 0,
    ;
}

/// The records of two different inodes do not overlap.
pub proof fn lemma_records_apart(cfg: Config, a: int, b: int)
    requires
        cfg.wf(),
        0 <= a,
        0 <= b,
        a != b,
        cfg.inode_block(a) == cfg.inode_block(b),
    ensures
        cfg.inode_offset(a) + cfg.inode_size <= cfg.inode_offset(b) || cfg.inode_offset(b)
            + cfg.inode_size <= cfg.inode_offset(a),
{
    let rpb = cfg.records_per_block();
    let isz = cfg.inode_size as int;
    lemma_locate(
        cfg.block_size as int,
        isz,
        cfg.inode_base as int,
        cfg.data_base as int,
        a,
    );
    lemma_fundamental_div_mod(a, rpb);
    lemma_fundamental_div_mod(b, rpb);
    let ra = a % rpb;
    let rb = b % rpb;
    assert(ra != rb);
    assert(ra * isz + isz <= rb * isz || rb * isz + isz <= ra * isz) by (nonlinear_arith)
        requires
            ra != rb,
            isz > 0,
    ;
}

} // verus!
