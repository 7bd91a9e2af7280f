//! Files that share no block do not disturb each other: a write to one
//! leaves what the other holds as it was.

use vstd::prelude::*;
use crate::codec::overwrite;
use crate::file::larger;
use crate::inode::Inode;
use crate::layout::lemma_record_place;
use crate::resolve::lemma_with_data_keeps_records;
use crate::sound::{
    lemma_alloc_page_sound, lemma_blank_is_sound, lemma_data_write_keeps_map,
    lemma_store_inode_sound, lemma_write_chunks_sound,
};
use crate::span::{
    chunk_len, chunk_offset, chunk_start, lemma_chunks_tile, lemma_page_in_range, lemma_span_small,
    span_blocks,
};
use crate::store::{lemma_stored_after_with_inode, Image};

verus! {

impl Image {
    /// The inodes `a` and `b` share no block: no page of one has the block
    /// of a page of the other, nor its indirection block, and their
    /// indirection blocks differ.
    pub open spec fn apart(self, a: usize, b: usize) -> bool {
        &&& forall|p: int, q: int|
            (#[trigger] self.block_of(a, p)) is Some ==> self.block_of(a, p)
                != #[trigger] self.block_of(b, q)
        &&& forall|p: int|
            (#[trigger] self.block_of(a, p)) is Some ==> self.block_of(a, p) != self.stored(
                b,
            )->Some_0.double
        &&& forall|q: int|
            (#[trigger] self.block_of(b, q)) is Some ==> self.block_of(b, q) != self.stored(
                a,
            )->Some_0.double
        &&& self.stored(a)->Some_0.double is Some ==> self.stored(a)->Some_0.double != self.stored(
            b,
        )->Some_0.double
    }

    /// The store `after` holds of inode `other` what `self` holds: its
    /// record, its indirection block and the blocks of its pages.
    pub open spec fn same_file(self, after: Image, other: usize) -> bool {
        &&& after.cfg == self.cfg
        &&& after.blocks.len() == self.blocks.len()
        &&& after.stored(other) == self.stored(other)
        &&& (self.stored(other) matches Some(inode) ==> (inode.double matches Some(d) ==> self.has_data(
            d,
        ) ==> after.data(d) == self.data(d)))
        &&& forall|q: int|
            (#[trigger] self.block_of(other, q) matches Some(c) ==> self.has_data(c) ==> after.data(c)
                == self.data(c))
    }
}

/// On a store whose inode table is all zero and whose allocator has handed
/// out nothing, no two inodes share a block.
pub proof fn lemma_blank_apart(img: Image, a: usize, b: usize)
    requires
        img.wf(),
        img.next_free == 1,
        img.has_record(a),
        img.has_record(b),
        img.cfg.data_block(0) < img.blocks.len(),
        forall|i: int, k: int|
            0 <= i < img.blocks.len() && 0 <= k < img.cfg.block_size ==> #[trigger] img.blocks[i][k]
                == 0,
    ensures
        img.sound(a),
        img.sound(b),
        img.apart(a, b),
{
    lemma_record_place(img.cfg, a as int);
    lemma_record_place(img.cfg, b as int);
    lemma_blank_is_sound(img, a);
    lemma_blank_is_sound(img, b);
}

/// A store that holds of an inode what another holds maps its pages as
/// the other does.
pub proof fn lemma_same_file_same_map(img: Image, after: Image, other: usize, q: int)
    requires
        img.same_file(after, other),
    ensures
        after.block_of(other, q) == img.block_of(other, q),
        after.page_of(other, q as usize) == img.page_of(other, q as usize),
        forall|c: usize| #[trigger] after.has_data(c) == img.has_data(c),
{
}

/// Holding the same of an inode carries over two steps.
pub proof fn lemma_same_file_twice(img: Image, mid: Image, after: Image, other: usize)
    requires
        img.same_file(mid, other),
        mid.same_file(after, other),
    ensures
        img.same_file(after, other),
{
    assert forall|q: int|
        (#[trigger] img.block_of(other, q) matches Some(c) ==> img.has_data(c) ==> after.data(c)
            == img.data(c)) by {
        lemma_same_file_same_map(img, mid, other, q);
    }
}

/// Reads of an inode give in both stores the same.
pub proof fn lemma_same_file_reads(
    img: Image,
    after: Image,
    other: usize,
    offset: int,
    len: int,
    n: nat,
)
    requires
        img.same_file(after, other),
        offset >= 0,
    ensures
        after.read_chunks(other, offset, len, n) == img.read_chunks(other, offset, len, n),
        after.read_file(other, offset, len) == img.read_file(other, offset, len),
    decreases n,
{
    let bs = img.cfg.block_size as int;
    if n > 0 {
        lemma_same_file_reads(img, after, other, offset, len, (n - 1) as nat);
        lemma_same_file_chunk(img, after, other, offset, len, n - 1);
    }
    let all = span_blocks(bs, offset, len) as nat;
    if all != n {
        lemma_same_file_reads_all(img, after, other, offset, len, all);
    }
}

/// Reads of any number of chunks give in both stores the same.
proof fn lemma_same_file_reads_all(
    img: Image,
    after: Image,
    other: usize,
    offset: int,
    len: int,
    n: nat,
)
    requires
        img.same_file(after, other),
        offset >= 0,
    ensures
        after.read_chunks(other, offset, len, n) == img.read_chunks(other, offset, len, n),
    decreases n,
{
    if n > 0 {
        lemma_same_file_reads_all(img, after, other, offset, len, (n - 1) as nat);
        lemma_same_file_chunk(img, after, other, offset, len, n - 1);
    }
}

/// One chunk of a read gives in both stores the same.
proof fn lemma_same_file_chunk(
    img: Image,
    after: Image,
    other: usize,
    offset: int,
    len: int,
    j: int,
)
    requires
        img.same_file(after, other),
    ensures
        after.read_chunk(other, offset, len, j) == img.read_chunk(other, offset, len, j),
{
    let bs = img.cfg.block_size as int;
    let num = (offset / bs + j) as usize;
    lemma_same_file_same_map(img, after, other, num as int);
    if img.page_of(other, num) is Ok {
        let p = img.page_of(other, num)->Ok_0;
        assert(img.block_of(other, num as int) == Some(p));
    }
}

/// Resolving a page of one inode leaves an inode that shares no block
/// with it as it was, and the two still share none.
pub proof fn lemma_alloc_page_apart(img: Image, inum: usize, other: usize, num: usize)
    requires
        img.sound(inum),
        img.sound(other),
        img.apart(inum, other),
        inum != other,
        img.alloc_page(inum, num).0 is Ok,
    ensures
        img.alloc_page(inum, num).1.sound(other),
        img.alloc_page(inum, num).1.apart(inum, other),
        img.same_file(img.alloc_page(inum, num).1, other),
{
    let after = img.alloc_page(inum, num).1;
    let b = img.alloc_page(inum, num).0->Ok_0;
    lemma_alloc_page_sound(img, inum, num);
    assert(after.stored(other) == img.stored(other));
    let mine = after.stored(inum)->Some_0.double;
    let theirs = img.stored(other)->Some_0.double;
    if theirs is Some {
        let d = theirs->Some_0;
        assert(Some(d) != mine);
        assert(after.data(d) == img.data(d));
    }
    assert forall|q: int|
        (#[trigger] img.block_of(other, q) matches Some(c) ==> img.has_data(c) ==> after.data(c)
            == img.data(c)) by {
        if img.block_of(other, q) is Some {
            let c = img.block_of(other, q)->Some_0;
            assert(0 <= q <= img.cfg.list_size);
            assert(1 <= c < img.next_free);
            assert(Some(c) != mine);
        }
    }
    assert(img.same_file(after, other));
    assert forall|q: int| #[trigger] after.block_of(other, q) == img.block_of(other, q) by {
        lemma_same_file_same_map(img, after, other, q);
    }
    assert(after.sound(other)) by {
        assert forall|p: int| 0 <= p <= after.cfg.list_size implies (#[trigger] after.block_of(
            other,
            p,
        ) matches Some(x) ==> 1 <= x < after.next_free && Some(x) != after.stored(
            other,
        )->Some_0.double) by {
            assert(after.block_of(other, p) == img.block_of(other, p));
        }
        assert forall|p: int, q: int|
            0 <= p <= after.cfg.list_size && 0 <= q <= after.cfg.list_size && p != q && (
            #[trigger] after.block_of(other, p)) is Some implies after.block_of(other, p)
                != #[trigger] after.block_of(other, q) by {
            assert(after.block_of(other, p) == img.block_of(other, p));
            assert(after.block_of(other, q) == img.block_of(other, q));
        }
    }
    assert(after.apart(inum, other)) by {
        assert forall|p: int, q: int| (#[trigger] after.block_of(inum, p)) is Some implies after.block_of(
            inum,
            p,
        ) != #[trigger] after.block_of(other, q) by {
            assert(after.block_of(other, q) == img.block_of(other, q));
            if p != num {
                assert(after.block_of(inum, p) == img.block_of(inum, p));
            }
            if img.block_of(other, q) is Some {
                assert(0 <= q <= img.cfg.list_size);
            }
        }
        assert forall|p: int| (#[trigger] after.block_of(inum, p)) is Some implies after.block_of(
            inum,
            p,
        ) != after.stored(other)->Some_0.double by {
            if p != num {
                assert(after.block_of(inum, p) == img.block_of(inum, p));
            }
        }
        assert forall|q: int| (#[trigger] after.block_of(other, q)) is Some implies after.block_of(
            other,
            q,
        ) != after.stored(inum)->Some_0.double by {
            assert(after.block_of(other, q) == img.block_of(other, q));
            assert(0 <= q <= img.cfg.list_size);
        }
    }
}

/// Overwriting the block of a page of one inode leaves an inode that
/// shares no block with it as it was, and the two still share none.
pub proof fn lemma_data_write_apart(
    img: Image,
    inum: usize,
    other: usize,
    num: int,
    b: usize,
    content: Seq<u8>,
)
    requires
        img.sound(inum),
        img.sound(other),
        img.apart(inum, other),
        inum != other,
        img.block_of(inum, num) == Some(b),
        img.has_data(b),
        content.len() == img.cfg.block_size,
    ensures
        img.with_data(b, content).sound(other),
        img.with_data(b, content).apart(inum, other),
        img.same_file(img.with_data(b, content), other),
{
    let after = img.with_data(b, content);
    lemma_data_write_keeps_map(img, inum, num, b, content);
    lemma_with_data_keeps_records(img, b, content, other);
    lemma_with_data_keeps_records(img, b, content, inum);
    let theirs = img.stored(other)->Some_0.double;
    if theirs is Some {
        let d = theirs->Some_0;
        assert(d != b);
        if img.has_data(d) {
            assert(after.data(d) == img.data(d));
        }
    }
    assert forall|q: int|
        (#[trigger] img.block_of(other, q) matches Some(c) ==> img.has_data(c) ==> after.data(c)
            == img.data(c)) by {
        if img.block_of(other, q) is Some {
            let c = img.block_of(other, q)->Some_0;
            assert(c != b);
        }
    }
    assert(img.same_file(after, other));
    assert forall|q: int| #[trigger] after.block_of(other, q) == img.block_of(other, q) by {
        lemma_same_file_same_map(img, after, other, q);
    }
    assert(after.sound(other)) by {
        assert forall|p: int| 0 <= p <= after.cfg.list_size implies (#[trigger] after.block_of(
            other,
            p,
        ) matches Some(x) ==> 1 <= x < after.next_free && Some(x) != after.stored(
            other,
        )->Some_0.double) by {
            assert(after.block_of(other, p) == img.block_of(other, p));
        }
        assert forall|p: int, q: int|
            0 <= p <= after.cfg.list_size && 0 <= q <= after.cfg.list_size && p != q && (
            #[trigger] after.block_of(other, p)) is Some implies after.block_of(other, p)
                != #[trigger] after.block_of(other, q) by {
            assert(after.block_of(other, p) == img.block_of(other, p));
            assert(after.block_of(other, q) == img.block_of(other, q));
        }
    }
    assert(after.apart(inum, other)) by {
        assert forall|p: int, q: int| (#[trigger] after.block_of(inum, p)) is Some implies after.block_of(
            inum,
            p,
        ) != #[trigger] after.block_of(other, q) by {
            assert(after.block_of(other, q) == img.block_of(other, q));
            assert(after.block_of(inum, p) == img.block_of(inum, p));
        }
        assert forall|p: int| (#[trigger] after.block_of(inum, p)) is Some implies after.block_of(
            inum,
            p,
        ) != after.stored(other)->Some_0.double by {
            assert(after.block_of(inum, p) == img.block_of(inum, p));
        }
        assert forall|q: int| (#[trigger] after.block_of(other, q)) is Some implies after.block_of(
            other,
            q,
        ) != after.stored(inum)->Some_0.double by {
            assert(after.block_of(other, q) == img.block_of(other, q));
        }
    }
}

/// The chunks of a write to one inode leave an inode that shares no block
/// with it as it was, and the two still share none.
pub proof fn lemma_write_chunks_apart(
    img: Image,
    inum: usize,
    other: usize,
    offset: int,
    data: Seq<u8>,
    n: nat,
)
    requires
        img.sound(inum),
        img.sound(other),
        img.apart(inum, other),
        inum != other,
        offset >= 0,
        data.len() > 0,
        offset + data.len() <= usize::MAX,
        n <= span_blocks(img.cfg.block_size as int, offset, data.len() as int),
        img.write_chunks(inum, offset, data, n).0 is Ok,
    ensures
        img.write_chunks(inum, offset, data, n).1.sound(inum),
        img.write_chunks(inum, offset, data, n).1.sound(other),
        img.write_chunks(inum, offset, data, n).1.apart(inum, other),
        img.same_file(img.write_chunks(inum, offset, data, n).1, other),
    decreases n,
{
    if n > 0 {
        let i = n - 1;
        lemma_write_chunks_apart(img, inum, other, offset, data, i as nat);
        lemma_write_chunks_sound(img, inum, offset, data, n);
        let before = img.write_chunks(inum, offset, data, i as nat).1;
        let bs = img.cfg.block_size as int;
        let len = data.len() as int;
        lemma_page_in_range(bs, offset, len, i);
        lemma_chunks_tile(bs, offset, len, i);
        let num = (offset / bs + i) as usize;
        lemma_alloc_page_sound(before, inum, num);
        lemma_alloc_page_apart(before, inum, other, num);
        let mid = before.alloc_page(inum, num).1;
        let b = before.alloc_page(inum, num).0->Ok_0;
        let content = overwrite(
            mid.data(b),
            chunk_offset(bs, offset, i),
            data.subrange(
                chunk_start(bs, offset, i),
                chunk_start(bs, offset, i) + chunk_len(bs, offset, len, i),
            ),
        );
        assert(mid.data(b).len() == bs);
        lemma_data_write_apart(mid, inum, other, num as int, b, content);
        let after = mid.with_data(b, content);
        assert(after == img.write_chunks(inum, offset, data, n).1);
        lemma_same_file_twice(before, mid, after, other);
        lemma_same_file_twice(img, before, after, other);
    } else {
        assert(img.same_file(img, other));
    }
}

/// A write to one file leaves every file that shares no block with it as
/// it was: any read of the other file gives after the write what it gave
/// before. Both files keep blocks of their own, and still share none.
pub proof fn lemma_write_leaves_other_files(
    img: Image,
    inum: usize,
    other: usize,
    offset: int,
    data: Seq<u8>,
    at: int,
    len: int,
)
    requires
        img.sound(inum),
        img.sound(other),
        img.apart(inum, other),
        inum != other,
        offset >= 0,
        data.len() > 0,
        offset + data.len() <= usize::MAX,
        at >= 0,
        img.write_file(inum, offset, data).0 is Ok,
    ensures
        img.write_file(inum, offset, data).1.sound(other),
        img.write_file(inum, offset, data).1.apart(inum, other),
        img.write_file(inum, offset, data).1.read_file(other, at, len) == img.read_file(
            other,
            at,
            len,
        ),
{
    let bs = img.cfg.block_size as int;
    let n = span_blocks(bs, offset, data.len() as int);
    lemma_span_small(bs, offset, data.len() as int);
    lemma_write_chunks_apart(img, inum, other, offset, data, n as nat);
    let done = img.write_chunks(inum, offset, data, n as nat).1;
    let inode = done.stored(inum)->Some_0;
    let next = Inode { size: larger(inode.size as int, offset + data.len()) as usize, ..inode };
    let after = done.with_inode(next);
    assert(after == img.write_file(inum, offset, data).1);
    lemma_record_place(img.cfg, inum as int);
    lemma_stored_after_with_inode(done, next, inum);
    lemma_stored_after_with_inode(done, next, other);
    assert forall|c: usize| #[trigger] after.has_data(c) == done.has_data(c) by {}
    assert forall|c: usize| done.has_data(c) implies #[trigger] after.data(c) == done.data(c) by {}
    assert(done.same_file(after, other));
    assert forall|q: int| #[trigger] after.block_of(other, q) == done.block_of(other, q) by {
        lemma_same_file_same_map(done, after, other, q);
    }
    assert forall|p: int| #[trigger] after.block_of(inum, p) == done.block_of(inum, p) by {
        if inode.double is Some {
            let d = inode.double->Some_0;
            if done.has_data(d) {
                assert(after.data(d) == done.data(d));
            }
        }
    }
    assert(after.sound(other)) by {
        assert forall|p: int| 0 <= p <= after.cfg.list_size implies (#[trigger] after.block_of(
            other,
            p,
        ) matches Some(x) ==> 1 <= x < after.next_free && Some(x) != after.stored(
            other,
        )->Some_0.double) by {
            assert(after.block_of(other, p) == done.block_of(other, p));
        }
        assert forall|p: int, q: int|
            0 <= p <= after.cfg.list_size && 0 <= q <= after.cfg.list_size && p != q && (
            #[trigger] after.block_of(other, p)) is Some implies after.block_of(other, p)
                != #[trigger] after.block_of(other, q) by {
            assert(after.block_of(other, p) == done.block_of(other, p));
            assert(after.block_of(other, q) == done.block_of(other, q));
        }
    }
    assert(after.apart(inum, other)) by {
        assert forall|p: int, q: int| (#[trigger] after.block_of(inum, p)) is Some implies after.block_of(
            inum,
            p,
        ) != #[trigger] after.block_of(other, q) by {
            assert(after.block_of(other, q) == done.block_of(other, q));
            assert(after.block_of(inum, p) == done.block_of(inum, p));
        }
        assert forall|p: int| (#[trigger] after.block_of(inum, p)) is Some implies after.block_of(
            inum,
            p,
        ) != after.stored(other)->Some_0.double by {
            assert(after.block_of(inum, p) == done.block_of(inum, p));
        }
        assert forall|q: int| (#[trigger] after.block_of(other, q)) is Some implies after.block_of(
            other,
            q,
        ) != after.stored(inum)->Some_0.double by {
            assert(after.block_of(other, q) == done.block_of(other, q));
        }
    }
    lemma_same_file_twice(img, done, after, other);
    lemma_same_file_reads(img, after, other, at, len, 0);
}

/// Writing the record of one inode, with its pointers kept or with none
/// set, leaves every other file as it was, and the two share no block
/// where they shared none.
pub proof fn lemma_store_inode_apart(img: Image, inode: Inode, other: usize)
    requires
        img.sound(inode.inum),
        img.sound(other),
        img.apart(inode.inum, other),
        inode.inum != other,
        (inode.single == img.stored(inode.inum)->Some_0.single && inode.double == img.stored(
            inode.inum,
        )->Some_0.double) || (inode.single is None && inode.double is None),
    ensures
        img.with_inode(inode).sound(other),
        img.with_inode(inode).apart(inode.inum, other),
        img.same_file(img.with_inode(inode), other),
{
    let inum = inode.inum;
    let after = img.with_inode(inode);
    lemma_record_place(img.cfg, inum as int);
    lemma_store_inode_sound(img, inode);
    lemma_stored_after_with_inode(img, inode, other);
    assert forall|c: usize| #[trigger] after.has_data(c) == img.has_data(c) by {}
    assert forall|c: usize| img.has_data(c) implies #[trigger] after.data(c) == img.data(c) by {}
    assert(img.same_file(after, other));
    assert forall|q: int| #[trigger] after.block_of(other, q) == img.block_of(other, q) by {
        lemma_same_file_same_map(img, after, other, q);
    }
    assert(after.sound(other)) by {
        assert forall|p: int| 0 <= p <= after.cfg.list_size implies (#[trigger] after.block_of(
            other,
            p,
        ) matches Some(x) ==> 1 <= x < after.next_free && Some(x) != after.stored(
            other,
        )->Some_0.double) by {
            assert(after.block_of(other, p) == img.block_of(other, p));
        }
        assert forall|p: int, q: int|
            0 <= p <= after.cfg.list_size && 0 <= q <= after.cfg.list_size && p != q && (
            #[trigger] after.block_of(other, p)) is Some implies after.block_of(other, p)
                != #[trigger] after.block_of(other, q) by {
            assert(after.block_of(other, p) == img.block_of(other, p));
            assert(after.block_of(other, q) == img.block_of(other, q));
        }
    }
    assert(after.apart(inum, other)) by {
        assert forall|p: int, q: int| (#[trigger] after.block_of(inum, p)) is Some implies after.block_of(
            inum,
            p,
        ) != #[trigger] after.block_of(other, q) by {
            assert(after.block_of(other, q) == img.block_of(other, q));
            if inode.single is Some || inode.double is Some {
                assert(after.block_of(inum, p) == img.block_of(inum, p));
            }
        }
        assert forall|p: int| (#[trigger] after.block_of(inum, p)) is Some implies after.block_of(
            inum,
            p,
        ) != after.stored(other)->Some_0.double by {
            if inode.single is Some || inode.double is Some {
                assert(after.block_of(inum, p) == img.block_of(inum, p));
            }
        }
        assert forall|q: int| (#[trigger] after.block_of(other, q)) is Some implies after.block_of(
            other,
            q,
        ) != after.stored(inum)->Some_0.double by {
            assert(after.block_of(other, q) == img.block_of(other, q));
        }
    }
}

} // verus!
