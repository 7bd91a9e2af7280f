//! What a write leaves on the device is what a read finds there, as long
//! as the file's pages have blocks of their own.

use vstd::prelude::*;
use vstd::bytes::*;
use crate::codec::{lemma_field_after_put, overwrite};
use crate::error::FsError;
use crate::file::larger;
use crate::inode::Inode;
use crate::span::{
    chunk_len, chunk_offset, chunk_start, lemma_chunks_tile, lemma_page_in_range, lemma_span_small,
    span_blocks,
};
use crate::layout::lemma_record_place;
use crate::resolve::{
    lemma_alloc_entry_keeps_records, lemma_with_data_keeps_records, lemma_zero_entry, zero_block,
};
use crate::store::{lemma_stored_after_with_inode, Image};

verus! {

impl Image {
    /// The block that the record and the indirection block of inode `inum`
    /// give to page `num`, whatever the file's size.
    pub open spec fn block_of(self, inum: usize, num: int) -> Option<usize> {
        match self.stored(inum) {
            None => None,
            Some(inode) => {
                if num == 0 {
                    inode.single
                } else if num < 0 || num > self.cfg.list_size {
                    None
                } else {
                    match inode.double {
                        None => None,
                        Some(d) => {
                            if self.has_data(d) && self.entry(d, num - 1) != 0 && self.entry(
                                d,
                                num - 1,
                            ) <= usize::MAX {
                                Some(self.entry(d, num - 1) as usize)
                            } else {
                                None
                            }
                        },
                    }
                }
            },
        }
    }

    /// The pages of inode `inum` have blocks of their own: every block
    /// that the inode points to was handed out by the allocator and is on
    /// the device, no two pages share a block, and none of them is the
    /// indirection block.
    pub open spec fn sound(self, inum: usize) -> bool {
        &&& self.wf()
        &&& self.stored(inum) is Some
        &&& self.cfg.data_block(self.next_free as int) <= self.blocks.len()
        &&& (self.stored(inum)->Some_0.double matches Some(d) ==> 1 <= d < self.next_free)
        &&& forall|p: int|
            0 <= p <= self.cfg.list_size ==> (#[trigger] self.block_of(inum, p) matches Some(b) ==> 1
                <= b < self.next_free && Some(b) != self.stored(inum)->Some_0.double)
        &&& forall|p: int, q: int|
            0 <= p <= self.cfg.list_size && 0 <= q <= self.cfg.list_size && p != q && (
            #[trigger] self.block_of(inum, p)) is Some ==> self.block_of(inum, p)
                != #[trigger] self.block_of(inum, q)
    }

    /// The store `after` maps the pages of inode `inum` as `self` does, but
    /// for page `num`, which it gives block `b`; and it holds in every data
    /// block that `self` had handed out what `self` holds there, but for
    /// the indirection block. What is new in it, the page's block or the
    /// indirection block, was free in `self`; the records of all other
    /// inodes are as they were.
    pub open spec fn grown_to(self, after: Image, inum: usize, num: int, b: usize) -> bool {
        &&& after.sound(inum)
        &&& after.cfg == self.cfg
        &&& after.block_of(inum, num) == Some(b)
        &&& forall|p: int| p != num ==> #[trigger] after.block_of(inum, p) == self.block_of(inum, p)
        &&& forall|c: usize|
            1 <= c < self.next_free && Some(c) != after.stored(inum)->Some_0.double
                ==> #[trigger] after.data(c) == self.data(c)
        &&& self.block_of(inum, num) is Some ==> self.block_of(inum, num) == Some(b)
        &&& self.block_of(inum, num) is None ==> b >= self.next_free
        &&& after.stored(inum)->Some_0.double == self.stored(inum)->Some_0.double || (
        after.stored(inum)->Some_0.double matches Some(d) && d >= self.next_free)
        &&& after.next_free >= self.next_free
        &&& after.blocks.len() == self.blocks.len()
        &&& forall|other: usize|
            other != inum ==> #[trigger] after.stored(other) == self.stored(other)
    }
}

/// Filling a zero entry of the indirection block gives its page a fresh
/// block and leaves every other page where it was.
pub proof fn lemma_alloc_entry_sound(img: Image, inum: usize, num: int)
    requires
        img.sound(inum),
        1 <= num <= img.cfg.list_size,
        img.stored(inum)->Some_0.double is Some,
        img.alloc_entry(img.stored(inum)->Some_0.double->Some_0, num - 1).0 is Ok,
    ensures
        img.grown_to(
            img.alloc_entry(img.stored(inum)->Some_0.double->Some_0, num - 1).1,
            inum,
            num,
            img.alloc_entry(img.stored(inum)->Some_0.double->Some_0, num - 1).0->Ok_0,
        ),
{
    let d = img.stored(inum)->Some_0.double->Some_0;
    let after = img.alloc_entry(d, num - 1).1;
    let b = img.alloc_entry(d, num - 1).0->Ok_0;
    let bs = img.cfg.block_size as int;
    lemma_record_place(img.cfg, inum as int);
    lemma_alloc_entry_keeps_records(img, d, num - 1, inum);
    assert forall|other: usize| other != inum implies #[trigger] after.stored(other) == img.stored(
        other,
    ) by {
        lemma_alloc_entry_keeps_records(img, d, num - 1, other);
    }
    assert(img.has_data(d));
    if img.entry(d, num - 1) != 0 {
        assert(after == img);
        assert(img.block_of(inum, num) == Some(b));
    } else {
        let nf = img.next_free;
        lemma_auto_spec_u64_to_from_le_bytes();
        let content = overwrite(img.data(d), (num - 1) * 8, spec_u64_to_le_bytes(nf as u64));
        assert((num - 1) * 8 + 8 <= bs) by (nonlinear_arith)
            requires
                1 <= num <= img.cfg.list_size,
                img.cfg.list_size * 8 <= bs,
        ;
        assert(img.data(d).len() == bs);
        assert(after.data(d) == content);
        assert(after.has_data(d));
        lemma_field_after_put(img.data(d), (num - 1) * 8, nf as u64, (num - 1) * 8);
        assert(after.entry(d, num - 1) == nf as u64);
        assert(after.block_of(inum, num) == Some(nf));
        assert forall|p: int| p != num implies #[trigger] after.block_of(inum, p) == img.block_of(
            inum,
            p,
        ) by {
            if 1 <= p <= img.cfg.list_size {
                assert((p - 1) * 8 + 8 <= bs) by (nonlinear_arith)
                    requires
                        1 <= p <= img.cfg.list_size,
                        img.cfg.list_size * 8 <= bs,
                ;
                lemma_field_after_put(img.data(d), (num - 1) * 8, nf as u64, (p - 1) * 8);
                assert(after.entry(d, p - 1) == img.entry(d, p - 1));
            }
        }
        assert forall|c: usize| 1 <= c < img.next_free && Some(c) != after.stored(
            inum,
        )->Some_0.double implies #[trigger] after.data(c) == img.data(c) by {
            assert(img.cfg.data_block(c as int) != img.cfg.data_block(d as int));
        }
        assert(after.sound(inum)) by {
            assert forall|p: int| 0 <= p <= after.cfg.list_size implies (#[trigger] after.block_of(
                inum,
                p,
            ) matches Some(x) ==> 1 <= x < after.next_free && Some(x) != after.stored(
                inum,
            )->Some_0.double) by {
                if p != num {
                    assert(after.block_of(inum, p) == img.block_of(inum, p));
                }
            }
            assert forall|p: int, q: int|
                0 <= p <= after.cfg.list_size && 0 <= q <= after.cfg.list_size && p != q && (
                #[trigger] after.block_of(inum, p)) is Some implies after.block_of(inum, p)
                    != #[trigger] after.block_of(inum, q) by {
                if p != num {
                    assert(after.block_of(inum, p) == img.block_of(inum, p));
                }
                if q != num {
                    assert(after.block_of(inum, q) == img.block_of(inum, q));
                }
            }
        }
    }
}

/// Setting the direct pointer gives page 0 a fresh block and leaves every
/// other page where it was.
pub proof fn lemma_alloc_direct_sound(img: Image, inum: usize)
    requires
        img.sound(inum),
        img.alloc_direct(img.stored(inum)->Some_0).0 is Ok,
    ensures
        img.grown_to(
            img.alloc_direct(img.stored(inum)->Some_0).1,
            inum,
            0,
            img.alloc_direct(img.stored(inum)->Some_0).0->Ok_0,
        ),
{
    let inode = img.stored(inum)->Some_0;
    let after = img.alloc_direct(inode).1;
    lemma_record_place(img.cfg, inum as int);
    if inode.single is None {
        let nf = img.next_free;
        let next = Inode { single: Some(nf), ..inode };
        lemma_stored_after_with_inode(img.bumped(), next, inum);
        assert(after.stored(inum) == Some(next));
        assert forall|other: usize| other != inum implies #[trigger] after.stored(other)
            == img.stored(other) by {
            lemma_stored_after_with_inode(img.bumped(), next, other);
        }
        assert forall|c: usize| after.has_data(c) implies #[trigger] after.data(c) == img.data(
            c,
        ) by {}
        assert forall|p: int| p != 0 implies #[trigger] after.block_of(inum, p) == img.block_of(
            inum,
            p,
        ) by {
            if inode.double is Some {
                let d = inode.double->Some_0;
                assert(after.has_data(d) == img.has_data(d));
                if img.has_data(d) {
                    assert(after.data(d) == img.data(d));
                }
            }
        }
        assert(after.block_of(inum, 0) == Some(nf));
        assert(after.sound(inum)) by {
            assert forall|p: int| 0 <= p <= after.cfg.list_size implies (#[trigger] after.block_of(
                inum,
                p,
            ) matches Some(x) ==> 1 <= x < after.next_free && Some(x) != after.stored(
                inum,
            )->Some_0.double) by {
                if p != 0 {
                    assert(after.block_of(inum, p) == img.block_of(inum, p));
                }
            }
            assert forall|p: int, q: int|
                0 <= p <= after.cfg.list_size && 0 <= q <= after.cfg.list_size && p != q && (
                #[trigger] after.block_of(inum, p)) is Some implies after.block_of(inum, p)
                    != #[trigger] after.block_of(inum, q) by {
                if p != 0 {
                    assert(after.block_of(inum, p) == img.block_of(inum, p));
                }
                if q != 0 {
                    assert(after.block_of(inum, q) == img.block_of(inum, q));
                }
            }
        }
    } else {
        assert(img.block_of(inum, 0) == inode.single);
    }
}

/// A fresh indirection block gives no page a block: every page stays
/// where it was, and what the data blocks hold stays too.
pub proof fn lemma_alloc_table_sound(img: Image, inum: usize)
    requires
        img.sound(inum),
        img.alloc_table(img.stored(inum)->Some_0).0 is Ok,
    ensures
        img.alloc_table(img.stored(inum)->Some_0).1.sound(inum),
        img.alloc_table(img.stored(inum)->Some_0).1.cfg == img.cfg,
        img.alloc_table(img.stored(inum)->Some_0).1.next_free >= img.next_free,
        img.alloc_table(img.stored(inum)->Some_0).1.stored(inum)->Some_0.double == Some(
            img.alloc_table(img.stored(inum)->Some_0).0->Ok_0,
        ),
        forall|p: int| #[trigger]
            img.alloc_table(img.stored(inum)->Some_0).1.block_of(inum, p) == img.block_of(inum, p),
        forall|c: usize|
            1 <= c < img.next_free ==> #[trigger] img.alloc_table(img.stored(inum)->Some_0).1.data(c)
                == img.data(c),
        img.stored(inum)->Some_0.double is Some || img.alloc_table(
            img.stored(inum)->Some_0,
        ).0->Ok_0 >= img.next_free,
        img.stored(inum)->Some_0.double is Some ==> img.alloc_table(img.stored(inum)->Some_0).1
            == img,
        img.alloc_table(img.stored(inum)->Some_0).1.blocks.len() == img.blocks.len(),
        forall|other: usize|
            other != inum ==> #[trigger] img.alloc_table(img.stored(inum)->Some_0).1.stored(other)
                == img.stored(other),
{
    let inode = img.stored(inum)->Some_0;
    let after = img.alloc_table(inode).1;
    let bs = img.cfg.block_size as int;
    lemma_record_place(img.cfg, inum as int);
    if inode.double is None {
        let nf = img.next_free;
        let blank = zero_block(bs);
        let zeroed = img.bumped().with_data(nf, blank);
        let next = Inode { double: Some(nf), ..inode };
        lemma_with_data_keeps_records(img.bumped(), nf, blank, inum);
        lemma_stored_after_with_inode(zeroed, next, inum);
        assert(after.stored(inum) == Some(next));
        assert forall|other: usize| other != inum implies #[trigger] after.stored(other)
            == img.stored(other) by {
            lemma_with_data_keeps_records(img.bumped(), nf, blank, other);
            lemma_stored_after_with_inode(zeroed, next, other);
        }
        assert(after.has_data(nf));
        assert(after.data(nf) == blank);
        assert forall|c: usize| 1 <= c < img.next_free implies #[trigger] after.data(c)
            == img.data(c) by {
            assert(img.cfg.data_block(c as int) != img.cfg.data_block(nf as int));
        }
        assert forall|p: int| #[trigger] after.block_of(inum, p) == img.block_of(inum, p) by {
            if 1 <= p <= img.cfg.list_size {
                assert((p - 1) * 8 + 8 <= bs) by (nonlinear_arith)
                    requires
                        1 <= p <= img.cfg.list_size,
                        img.cfg.list_size * 8 <= bs,
                ;
                lemma_zero_entry(blank, (p - 1) * 8);
                assert(after.entry(nf, p - 1) == 0);
            }
        }
        assert(after.sound(inum)) by {
            assert forall|p: int| 0 <= p <= after.cfg.list_size implies (#[trigger] after.block_of(
                inum,
                p,
            ) matches Some(x) ==> 1 <= x < after.next_free && Some(x) != after.stored(
                inum,
            )->Some_0.double) by {
                assert(after.block_of(inum, p) == img.block_of(inum, p));
            }
            assert forall|p: int, q: int|
                0 <= p <= after.cfg.list_size && 0 <= q <= after.cfg.list_size && p != q && (
                #[trigger] after.block_of(inum, p)) is Some implies after.block_of(inum, p)
                    != #[trigger] after.block_of(inum, q) by {
                assert(after.block_of(inum, p) == img.block_of(inum, p));
                assert(after.block_of(inum, q) == img.block_of(inum, q));
            }
        }
    }
}

/// Resolving a page for writing gives it a block of its own and leaves
/// every other page where it was, with what its block holds.
pub proof fn lemma_alloc_page_sound(img: Image, inum: usize, num: usize)
    requires
        img.sound(inum),
        img.alloc_page(inum, num).0 is Ok,
    ensures
        img.grown_to(img.alloc_page(inum, num).1, inum, num as int, img.alloc_page(inum, num).0->Ok_0),
        img.alloc_page(inum, num).1.has_data(img.alloc_page(inum, num).0->Ok_0),
        img.alloc_page(inum, num).1.next_free >= img.next_free,
        num <= img.cfg.list_size,
{
    let inode = img.stored(inum)->Some_0;
    if num == 0 {
        lemma_alloc_direct_sound(img, inum);
    } else {
        lemma_alloc_table_sound(img, inum);
        let mid = img.alloc_table(inode).1;
        let d = img.alloc_table(inode).0->Ok_0;
        lemma_alloc_entry_sound(mid, inum, num as int);
        lemma_alloc_entry_keeps_records(mid, d, num - 1, inum);
        let after = mid.alloc_entry(d, num - 1).1;
        assert(after == img.alloc_page(inum, num).1);
        assert forall|p: int| p != num implies #[trigger] after.block_of(inum, p) == img.block_of(
            inum,
            p,
        ) by {
            assert(after.block_of(inum, p) == mid.block_of(inum, p));
            assert(mid.block_of(inum, p) == img.block_of(inum, p));
        }
        assert forall|c: usize| 1 <= c < img.next_free && Some(c) != after.stored(
            inum,
        )->Some_0.double implies #[trigger] after.data(c) == img.data(c) by {
            assert(after.data(c) == mid.data(c));
            assert(mid.data(c) == img.data(c));
        }
        assert forall|other: usize| other != inum implies #[trigger] after.stored(other)
            == img.stored(other) by {
            assert(after.stored(other) == mid.stored(other));
            assert(mid.stored(other) == img.stored(other));
        }
        assert(mid.block_of(inum, num as int) == img.block_of(inum, num as int));
    }
    let after = img.alloc_page(inum, num).1;
    let b = img.alloc_page(inum, num).0->Ok_0;
    assert(after.block_of(inum, num as int) == Some(b));
}

/// Chunk `j` of `data` stands on the device where a read from `offset` on
/// looks for it: its page has a block, and the chunk's range of that block
/// holds the chunk's bytes.
pub open spec fn chunk_stored(img: Image, inum: usize, offset: int, data: Seq<u8>, j: int) -> bool {
    let bs = img.cfg.block_size as int;
    match img.block_of(inum, offset / bs + j) {
        None => false,
        Some(b) => img.has_data(b) && img.data(b).subrange(
            chunk_offset(bs, offset, j),
            chunk_offset(bs, offset, j) + chunk_len(bs, offset, data.len() as int, j),
        ) == data.subrange(
            chunk_start(bs, offset, j),
            chunk_start(bs, offset, j) + chunk_len(bs, offset, data.len() as int, j),
        ),
    }
}

/// The first `k` chunks of `data` stand on the device.
pub open spec fn chunks_stored(img: Image, inum: usize, offset: int, data: Seq<u8>, k: int) -> bool {
    forall|j: int| 0 <= j < k ==> #[trigger] chunk_stored(img, inum, offset, data, j)
}

/// Overwriting the block of one page leaves every page where it was.
pub proof fn lemma_data_write_keeps_map(img: Image, inum: usize, num: int, b: usize, content: Seq<u8>)
    requires
        img.sound(inum),
        img.block_of(inum, num) == Some(b),
        img.has_data(b),
        content.len() == img.cfg.block_size,
    ensures
        img.with_data(b, content).sound(inum),
        img.with_data(b, content).data(b) == content,
        forall|p: int| #[trigger]
            img.with_data(b, content).block_of(inum, p) == img.block_of(inum, p),
        forall|c: usize|
            c != b && img.has_data(c) ==> #[trigger] img.with_data(b, content).data(c) == img.data(
                c,
            ),
        forall|c: usize| #[trigger] img.with_data(b, content).has_data(c) == img.has_data(c),
{
    let after = img.with_data(b, content);
    lemma_record_place(img.cfg, inum as int);
    lemma_with_data_keeps_records(img, b, content, inum);
    assert forall|c: usize| c != b && img.has_data(c) implies #[trigger] after.data(c) == img.data(
        c,
    ) by {
        assert(img.cfg.data_block(c as int) != img.cfg.data_block(b as int));
    }
    assert(0 <= num <= img.cfg.list_size);
    assert forall|p: int| #[trigger] after.block_of(inum, p) == img.block_of(inum, p) by {
        if img.stored(inum)->Some_0.double is Some {
            let d = img.stored(inum)->Some_0.double->Some_0;
            assert(d != b);
            assert(after.has_data(d) == img.has_data(d));
            if img.has_data(d) {
                assert(after.data(d) == img.data(d));
            }
        }
    }
    assert(after.sound(inum)) by {
        assert forall|p: int| 0 <= p <= after.cfg.list_size implies (#[trigger] after.block_of(
            inum,
            p,
        ) matches Some(x) ==> 1 <= x < after.next_free && Some(x) != after.stored(
            inum,
        )->Some_0.double) by {
            assert(after.block_of(inum, p) == img.block_of(inum, p));
        }
        assert forall|p: int, q: int|
            0 <= p <= after.cfg.list_size && 0 <= q <= after.cfg.list_size && p != q && (
            #[trigger] after.block_of(inum, p)) is Some implies after.block_of(inum, p)
                != #[trigger] after.block_of(inum, q) by {
            assert(after.block_of(inum, p) == img.block_of(inum, p));
            assert(after.block_of(inum, q) == img.block_of(inum, q));
        }
    }
}

/// A chunk that is written stands on the device afterwards, and so do the
/// chunks written before it.
pub proof fn lemma_write_chunk_sound(img: Image, inum: usize, offset: int, data: Seq<u8>, i: int)
    requires
        img.sound(inum),
        offset >= 0,
        data.len() > 0,
        offset + data.len() <= usize::MAX,
        0 <= i < span_blocks(img.cfg.block_size as int, offset, data.len() as int),
        chunks_stored(img, inum, offset, data, i),
        img.write_chunk(inum, offset, data, i).0 is Ok,
    ensures
        img.write_chunk(inum, offset, data, i).1.sound(inum),
        img.write_chunk(inum, offset, data, i).1.cfg == img.cfg,
        chunks_stored(img.write_chunk(inum, offset, data, i).1, inum, offset, data, i + 1),
{
    let bs = img.cfg.block_size as int;
    let len = data.len() as int;
    lemma_page_in_range(bs, offset, len, i);
    lemma_chunks_tile(bs, offset, len, i);
    let num = (offset / bs + i) as usize;
    lemma_alloc_page_sound(img, inum, num);
    let mid = img.alloc_page(inum, num).1;
    let b = img.alloc_page(inum, num).0->Ok_0;
    let content = overwrite(
        mid.data(b),
        chunk_offset(bs, offset, i),
        data.subrange(chunk_start(bs, offset, i), chunk_start(bs, offset, i) + chunk_len(bs, offset, len, i)),
    );
    assert(mid.data(b).len() == bs);
    assert(content.len() == bs);
    lemma_data_write_keeps_map(mid, inum, num as int, b, content);
    let after = mid.with_data(b, content);
    assert(after == img.write_chunk(inum, offset, data, i).1);
    assert forall|j: int| 0 <= j < i + 1 implies #[trigger] chunk_stored(
        after,
        inum,
        offset,
        data,
        j,
    ) by {
        let pj = offset / bs + j;
        assert(after.block_of(inum, pj) == mid.block_of(inum, pj));
        if j < i {
            assert(chunk_stored(img, inum, offset, data, j));
            assert(mid.block_of(inum, pj) == img.block_of(inum, pj));
            let bj = img.block_of(inum, pj)->Some_0;
            assert(0 <= pj <= img.cfg.list_size);
            assert(mid.block_of(inum, num as int) == Some(b));
            assert(bj != b);
            assert(mid.data(bj) == img.data(bj));
            assert(after.data(bj) == mid.data(bj));
        } else {
            assert(content.subrange(
                chunk_offset(bs, offset, i),
                chunk_offset(bs, offset, i) + chunk_len(bs, offset, len, i),
            ) =~= data.subrange(
                chunk_start(bs, offset, i),
                chunk_start(bs, offset, i) + chunk_len(bs, offset, len, i),
            ));
        }
    }
}

/// The same of any number of chunks.
pub proof fn lemma_write_chunks_sound(img: Image, inum: usize, offset: int, data: Seq<u8>, n: nat)
    requires
        img.sound(inum),
        offset >= 0,
        data.len() > 0,
        offset + data.len() <= usize::MAX,
        n <= span_blocks(img.cfg.block_size as int, offset, data.len() as int),
        img.write_chunks(inum, offset, data, n).0 is Ok,
    ensures
        img.write_chunks(inum, offset, data, n).1.sound(inum),
        img.write_chunks(inum, offset, data, n).1.cfg == img.cfg,
        chunks_stored(img.write_chunks(inum, offset, data, n).1, inum, offset, data, n as int),
    decreases n,
{
    if n > 0 {
        lemma_write_chunks_sound(img, inum, offset, data, (n - 1) as nat);
        let before = img.write_chunks(inum, offset, data, (n - 1) as nat);
        lemma_write_chunk_sound(before.1, inum, offset, data, n - 1);
    }
}

/// Where the first `k` chunks stand on the device and lie inside the
/// file's size, reading them gives the bytes from the start of `data` up to
/// where chunk `k` starts.
pub proof fn lemma_read_chunks_found(img: Image, inum: usize, offset: int, data: Seq<u8>, k: nat)
    requires
        img.wf(),
        img.stored(inum) is Some,
        offset >= 0,
        data.len() > 0,
        offset + data.len() <= img.stored(inum)->Some_0.size,
        k <= span_blocks(img.cfg.block_size as int, offset, data.len() as int),
        chunks_stored(img, inum, offset, data, k as int),
    ensures
        img.read_chunks(inum, offset, data.len() as int, k) == Ok::<Seq<u8>, FsError>(
            data.subrange(
                0,
                if k < span_blocks(img.cfg.block_size as int, offset, data.len() as int) {
                    chunk_start(img.cfg.block_size as int, offset, k as int)
                } else {
                    data.len() as int
                },
            ),
        ),
    decreases k,
{
    let bs = img.cfg.block_size as int;
    let len = data.len() as int;
    if k == 0 {
        assert(data.subrange(0, 0) =~= Seq::<u8>::empty());
        lemma_span_small(bs, offset, len);
    } else {
        let j = k - 1;
        lemma_read_chunks_found(img, inum, offset, data, j as nat);
        lemma_chunks_tile(bs, offset, len, j);
        lemma_page_in_range(bs, offset, len, j);
        assert(chunk_stored(img, inum, offset, data, j));
        let num = (offset / bs + j) as usize;
        let b = img.block_of(inum, num as int)->Some_0;
        assert(img.page_of(inum, num) == Ok::<usize, FsError>(b));
        let before = data.subrange(0, chunk_start(bs, offset, j));
        let more = data.subrange(
            chunk_start(bs, offset, j),
            chunk_start(bs, offset, j) + chunk_len(bs, offset, len, j),
        );
        assert(img.read_chunk(inum, offset, len, j) == Ok::<Seq<u8>, FsError>(more));
        assert(before + more =~= data.subrange(
            0,
            chunk_start(bs, offset, j) + chunk_len(bs, offset, len, j),
        ));
    }
}

/// What was written is what is read: after a write of `data` at `offset`
/// that succeeds, on a file whose pages have blocks of their own, a read
/// of as many bytes from `offset` on gives `data`; and the file's pages
/// still have blocks of their own.
pub proof fn lemma_read_after_write(img: Image, inum: usize, offset: int, data: Seq<u8>)
    requires
        img.sound(inum),
        offset >= 0,
        data.len() > 0,
        offset + data.len() <= usize::MAX,
        img.write_file(inum, offset, data).0 is Ok,
    ensures
        img.write_file(inum, offset, data).1.sound(inum),
        img.write_file(inum, offset, data).1.read_file(inum, offset, data.len() as int) == Ok::<
            Seq<u8>,
            FsError,
        >(data),
{
    let bs = img.cfg.block_size as int;
    let len = data.len() as int;
    let n = span_blocks(bs, offset, len);
    lemma_span_small(bs, offset, len);
    lemma_write_chunks_sound(img, inum, offset, data, n as nat);
    let done = img.write_chunks(inum, offset, data, n as nat).1;
    let inode = done.stored(inum)->Some_0;
    let next = Inode { size: larger(inode.size as int, offset + len) as usize, ..inode };
    let after = done.with_inode(next);
    assert(after == img.write_file(inum, offset, data).1);
    lemma_record_place(img.cfg, inum as int);
    lemma_stored_after_with_inode(done, next, inum);
    assert forall|c: usize| #[trigger] after.has_data(c) == done.has_data(c) by {}
    assert forall|c: usize| done.has_data(c) implies #[trigger] after.data(c) == done.data(c) by {}
    assert forall|p: int| #[trigger] after.block_of(inum, p) == done.block_of(inum, p) by {
        if inode.double is Some {
            let d = inode.double->Some_0;
            assert(after.has_data(d) == done.has_data(d));
            if done.has_data(d) {
                assert(after.data(d) == done.data(d));
            }
        }
    }
    assert(after.sound(inum)) by {
        assert forall|p: int| 0 <= p <= after.cfg.list_size implies (#[trigger] after.block_of(
            inum,
            p,
        ) matches Some(x) ==> 1 <= x < after.next_free && Some(x) != after.stored(
            inum,
        )->Some_0.double) by {
            assert(after.block_of(inum, p) == done.block_of(inum, p));
        }
        assert forall|p: int, q: int|
            0 <= p <= after.cfg.list_size && 0 <= q <= after.cfg.list_size && p != q && (
            #[trigger] after.block_of(inum, p)) is Some implies after.block_of(inum, p)
                != #[trigger] after.block_of(inum, q) by {
            assert(after.block_of(inum, p) == done.block_of(inum, p));
            assert(after.block_of(inum, q) == done.block_of(inum, q));
        }
    }
    assert forall|j: int| 0 <= j < n implies #[trigger] chunk_stored(
        after,
        inum,
        offset,
        data,
        j,
    ) by {
        assert(chunk_stored(done, inum, offset, data, j));
        assert(after.block_of(inum, offset / bs + j) == done.block_of(inum, offset / bs + j));
    }
    lemma_read_chunks_found(after, inum, offset, data, n as nat);
    assert(data.subrange(0, len) =~= data);
}

/// On a store whose inode table is all zero and whose allocator has handed
/// out nothing, every inode of the table is an empty file whose pages have
/// blocks of their own.
pub proof fn lemma_blank_is_sound(img: Image, inum: usize)
    requires
        img.wf(),
        img.next_free == 1,
        img.has_record(inum),
        0 < img.blocks.len(),
        img.cfg.data_block(0) < img.blocks.len(),
        forall|k: int|
            0 <= k < img.cfg.block_size ==> #[trigger] img.blocks[img.cfg.inode_block(
                inum as int,
            )][k] == 0,
    ensures
        img.stored(inum) == Some(Inode { inum, dirtype: 0, single: None, double: None, size: 0 }),
        img.sound(inum),
{
    lemma_record_place(img.cfg, inum as int);
    let s = img.record_bytes(inum);
    let raw = img.blocks[img.cfg.inode_block(inum as int)];
    let off = img.cfg.inode_offset(inum as int);
    lemma_zero_entry(s, 0);
    lemma_zero_entry(s, 8);
    lemma_zero_entry(s, 16);
    lemma_zero_entry(s, 24);
}

/// Writing a record that keeps the pointers of the one on the device, or
/// that has no pointer set, leaves a file whose pages have blocks of
/// their own; and it leaves every page of the file where it was, where
/// the pointers are kept.
pub proof fn lemma_store_inode_sound(img: Image, inode: Inode)
    requires
        img.sound(inode.inum),
        (inode.single == img.stored(inode.inum)->Some_0.single && inode.double == img.stored(
            inode.inum,
        )->Some_0.double) || (inode.single is None && inode.double is None),
    ensures
        img.with_inode(inode).sound(inode.inum),
        img.with_inode(inode).stored(inode.inum) == Some(inode),
        inode.single == img.stored(inode.inum)->Some_0.single && inode.double == img.stored(
            inode.inum,
        )->Some_0.double ==> forall|p: int| #[trigger]
            img.with_inode(inode).block_of(inode.inum, p) == img.block_of(inode.inum, p),
{
    let inum = inode.inum;
    let after = img.with_inode(inode);
    let kept = inode.single == img.stored(inum)->Some_0.single && inode.double == img.stored(
        inum,
    )->Some_0.double;
    lemma_record_place(img.cfg, inum as int);
    lemma_stored_after_with_inode(img, inode, inum);
    assert forall|c: usize| #[trigger] after.has_data(c) == img.has_data(c) by {}
    assert forall|c: usize| img.has_data(c) implies #[trigger] after.data(c) == img.data(c) by {}
    if kept {
        assert forall|p: int| #[trigger] after.block_of(inum, p) == img.block_of(inum, p) by {
            if inode.double is Some {
                let d = inode.double->Some_0;
                if img.has_data(d) {
                    assert(after.data(d) == img.data(d));
                }
            }
        }
    }
    assert(after.sound(inum)) by {
        assert forall|p: int| 0 <= p <= after.cfg.list_size implies (#[trigger] after.block_of(
            inum,
            p,
        ) matches Some(x) ==> 1 <= x < after.next_free && Some(x) != after.stored(
            inum,
        )->Some_0.double) by {
            if kept {
                assert(after.block_of(inum, p) == img.block_of(inum, p));
            }
        }
        assert forall|p: int, q: int|
            0 <= p <= after.cfg.list_size && 0 <= q <= after.cfg.list_size && p != q && (
            #[trigger] after.block_of(inum, p)) is Some implies after.block_of(inum, p)
                != #[trigger] after.block_of(inum, q) by {
            if kept {
                assert(after.block_of(inum, p) == img.block_of(inum, p));
                assert(after.block_of(inum, q) == img.block_of(inum, q));
            }
        }
    }
}

} // verus!
