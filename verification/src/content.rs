//! A file as the bytes at its positions: a write changes the bytes of its
//! range and no others, and a read gives the bytes of its range.

use vstd::prelude::*;
use vstd::arithmetic::div_mod::*;
use crate::codec::overwrite;
use crate::file::larger;
use crate::inode::Inode;
use crate::layout::lemma_record_place;
use crate::sound::{lemma_alloc_page_sound, lemma_data_write_keeps_map, lemma_write_chunks_sound};
use crate::span::{
    chunk_len, chunk_offset, chunk_start, lemma_chunks_tile, lemma_page_in_range, lemma_span_small,
    span_blocks,
};
use crate::store::{lemma_stored_after_with_inode, Image};

verus! {

impl Image {
    /// The byte at position `pos` of the file of inode `inum`, where the
    /// position's page has a block on the device.
    pub open spec fn file_byte(self, inum: usize, pos: int) -> Option<u8> {
        let bs = self.cfg.block_size as int;
        match self.block_of(inum, pos / bs) {
            Some(b) => if self.has_data(b) {
                Some(self.data(b)[pos % bs])
            } else {
                None
            },
            None => None,
        }
    }
}

/// How far into the caller's bytes the first `n` chunks reach.
pub open spec fn reach(bs: int, offset: int, len: int, n: int) -> int {
    if n < span_blocks(bs, offset, len) {
        chunk_start(bs, offset, n)
    } else {
        len
    }
}

/// Resolving a page for writing changes no byte of the file.
pub proof fn lemma_alloc_page_keeps_bytes(img: Image, inum: usize, num: usize, pos: int)
    requires
        img.sound(inum),
        img.alloc_page(inum, num).0 is Ok,
        pos >= 0,
        img.file_byte(inum, pos) is Some,
    ensures
        img.alloc_page(inum, num).1.file_byte(inum, pos) == img.file_byte(inum, pos),
{
    let bs = img.cfg.block_size as int;
    let after = img.alloc_page(inum, num).1;
    lemma_alloc_page_sound(img, inum, num);
    let q = pos / bs;
    lemma_fundamental_div_mod(pos, bs);
    let c = img.block_of(inum, q)->Some_0;
    assert(0 <= q <= img.cfg.list_size) by {
        if q < 0 {
            assert(false) by (nonlinear_arith)
                requires
                    pos >= 0,
                    bs > 0,
                    pos == bs * q + pos % bs,
                    0 <= pos % bs < bs,
                    q < 0,
            ;
        }
    }
    assert(after.block_of(inum, q) == Some(c));
    assert(after.data(c) == img.data(c));
}

/// A chunk that is written changes the bytes of its range to the chunk's
/// bytes, and no other byte of the file.
pub proof fn lemma_write_chunk_bytes(
    img: Image,
    inum: usize,
    offset: int,
    data: Seq<u8>,
    i: int,
    pos: int,
)
    requires
        img.sound(inum),
        offset >= 0,
        data.len() > 0,
        offset + data.len() <= usize::MAX,
        0 <= i < span_blocks(img.cfg.block_size as int, offset, data.len() as int),
        img.write_chunk(inum, offset, data, i).0 is Ok,
        pos >= 0,
    ensures
        offset + chunk_start(img.cfg.block_size as int, offset, i) <= pos < offset + chunk_start(
            img.cfg.block_size as int,
            offset,
            i,
        ) + chunk_len(img.cfg.block_size as int, offset, data.len() as int, i) ==> img.write_chunk(
            inum,
            offset,
            data,
            i,
        ).1.file_byte(inum, pos) == Some(data[pos - offset]),
        !(offset + chunk_start(img.cfg.block_size as int, offset, i) <= pos < offset + chunk_start(
            img.cfg.block_size as int,
            offset,
            i,
        ) + chunk_len(img.cfg.block_size as int, offset, data.len() as int, i)) && img.file_byte(
            inum,
            pos,
        ) is Some ==> img.write_chunk(inum, offset, data, i).1.file_byte(inum, pos)
            == img.file_byte(inum, pos),
{
    let bs = img.cfg.block_size as int;
    let len = data.len() as int;
    lemma_page_in_range(bs, offset, len, i);
    lemma_chunks_tile(bs, offset, len, i);
    let num = (offset / bs + i) as usize;
    let co = chunk_offset(bs, offset, i);
    let cs = chunk_start(bs, offset, i);
    let cl = chunk_len(bs, offset, len, i);
    lemma_alloc_page_sound(img, inum, num);
    let mid = img.alloc_page(inum, num).1;
    let b = img.alloc_page(inum, num).0->Ok_0;
    let chunk = data.subrange(cs, cs + cl);
    let content = overwrite(mid.data(b), co, chunk);
    assert(mid.data(b).len() == bs);
    assert(content.len() == bs);
    lemma_data_write_keeps_map(mid, inum, num as int, b, content);
    let after = mid.with_data(b, content);
    assert(after == img.write_chunk(inum, offset, data, i).1);
    let q = pos / bs;
    let x = pos % bs;
    lemma_fundamental_div_mod(pos, bs);
    lemma_mod_bound(pos, bs);
    assert(after.block_of(inum, q) == mid.block_of(inum, q));
    if offset + cs <= pos < offset + cs + cl {
        let t = pos - offset - cs;
        assert(pos == bs * (num as int) + (co + t)) by (nonlinear_arith)
            requires
                (offset / bs + i) * bs + co == offset + cs,
                num as int == offset / bs + i,
                t == pos - offset - cs,
        ;
        lemma_fundamental_div_mod_converse(pos, bs, num as int, co + t);
        assert(content[co + t] == chunk[t]);
    } else if img.file_byte(inum, pos) is Some {
        lemma_alloc_page_keeps_bytes(img, inum, num, pos);
        let c = mid.block_of(inum, q)->Some_0;
        if q == num as int {
            assert(c == b);
            if co <= x < co + cl {
                assert(pos == (offset / bs + i) * bs + x) by (nonlinear_arith)
                    requires
                        pos == bs * q + x,
                        q == offset / bs + i,
                ;
                assert(false);
            }
            assert(content[x] == mid.data(b)[x]);
        } else {
            assert(0 <= q <= img.cfg.list_size) by {
                if q < 0 {
                    assert(false) by (nonlinear_arith)
                        requires
                            pos >= 0,
                            bs > 0,
                            pos == bs * q + x,
                            0 <= x < bs,
                            q < 0,
                    ;
                }
            }
            assert(mid.block_of(inum, num as int) == Some(b));
            assert(c != b);
            assert(after.data(c) == mid.data(c));
        }
    }
}

/// The same of any number of chunks: the bytes up to where they reach are
/// the caller's, and every other byte of the file is as it was.
pub proof fn lemma_write_chunks_bytes(
    img: Image,
    inum: usize,
    offset: int,
    data: Seq<u8>,
    n: nat,
    pos: int,
)
    requires
        img.sound(inum),
        offset >= 0,
        data.len() > 0,
        offset + data.len() <= usize::MAX,
        n <= span_blocks(img.cfg.block_size as int, offset, data.len() as int),
        img.write_chunks(inum, offset, data, n).0 is Ok,
        pos >= 0,
    ensures
        offset <= pos < offset + reach(
            img.cfg.block_size as int,
            offset,
            data.len() as int,
            n as int,
        ) ==> img.write_chunks(inum, offset, data, n).1.file_byte(inum, pos) == Some(
            data[pos - offset],
        ),
        !(offset <= pos < offset + reach(
            img.cfg.block_size as int,
            offset,
            data.len() as int,
            n as int,
        )) && img.file_byte(inum, pos) is Some ==> img.write_chunks(inum, offset, data, n).1.file_byte(
            inum,
            pos,
        ) == img.file_byte(inum, pos),
    decreases n,
{
    let bs = img.cfg.block_size as int;
    let len = data.len() as int;
    lemma_span_small(bs, offset, len);
    if n > 0 {
        let i = n - 1;
        lemma_write_chunks_bytes(img, inum, offset, data, i as nat, pos);
        lemma_write_chunks_sound(img, inum, offset, data, i as nat);
        lemma_chunks_tile(bs, offset, len, i);
        let before = img.write_chunks(inum, offset, data, i as nat).1;
        lemma_write_chunk_bytes(before, inum, offset, data, i, pos);
    }
}

/// A write changes the bytes of its range to the bytes given, and no
/// other byte of the file.
pub proof fn lemma_write_changes_its_range_only(
    img: Image,
    inum: usize,
    offset: int,
    data: Seq<u8>,
    pos: int,
)
    requires
        img.sound(inum),
        offset >= 0,
        data.len() > 0,
        offset + data.len() <= usize::MAX,
        img.write_file(inum, offset, data).0 is Ok,
        pos >= 0,
    ensures
        offset <= pos < offset + data.len() ==> img.write_file(inum, offset, data).1.file_byte(
            inum,
            pos,
        ) == Some(data[pos - offset]),
        !(offset <= pos < offset + data.len()) && img.file_byte(inum, pos) is Some
            ==> img.write_file(inum, offset, data).1.file_byte(inum, pos) == img.file_byte(
            inum,
            pos,
        ),
{
    let bs = img.cfg.block_size as int;
    let len = data.len() as int;
    let n = span_blocks(bs, offset, len);
    lemma_span_small(bs, offset, len);
    lemma_write_chunks_bytes(img, inum, offset, data, n as nat, pos);
    lemma_write_chunks_sound(img, inum, offset, data, n as nat);
    let done = img.write_chunks(inum, offset, data, n as nat).1;
    let inode = done.stored(inum)->Some_0;
    let next = Inode { size: larger(inode.size as int, offset + len) as usize, ..inode };
    let after = done.with_inode(next);
    assert(after == img.write_file(inum, offset, data).1);
    lemma_record_place(img.cfg, inum as int);
    lemma_stored_after_with_inode(done, next, inum);
    assert forall|c: usize| #[trigger] after.has_data(c) == done.has_data(c) by {}
    assert forall|c: usize| done.has_data(c) implies #[trigger] after.data(c) == done.data(c) by {}
    assert forall|p: int| #[trigger] after.block_of(inum, p) == done.block_of(inum, p) by {
        if inode.double is Some {
            let d = inode.double->Some_0;
            if done.has_data(d) {
                assert(after.data(d) == done.data(d));
            }
        }
    }
    assert(after.file_byte(inum, pos) == done.file_byte(inum, pos));
}

/// The first `n` chunks of a read that succeeds give the bytes of the
/// file at their positions.
pub proof fn lemma_read_chunks_bytes(
    img: Image,
    inum: usize,
    at: int,
    len: int,
    n: nat,
    k: int,
)
    requires
        img.wf(),
        at >= 0,
        len > 0,
        at + len <= usize::MAX,
        n <= span_blocks(img.cfg.block_size as int, at, len),
        img.read_chunks(inum, at, len, n) is Ok,
        0 <= k,
    ensures
        img.read_chunks(inum, at, len, n)->Ok_0.len() == reach(
            img.cfg.block_size as int,
            at,
            len,
            n as int,
        ),
        k < reach(img.cfg.block_size as int, at, len, n as int) ==> img.file_byte(inum, at + k)
            == Some(img.read_chunks(inum, at, len, n)->Ok_0[k]),
    decreases n,
{
    let bs = img.cfg.block_size as int;
    lemma_span_small(bs, at, len);
    if n > 0 {
        let i = n - 1;
        lemma_read_chunks_bytes(img, inum, at, len, i as nat, k);
        lemma_chunks_tile(bs, at, len, i);
        lemma_page_in_range(bs, at, len, i);
        let num = (at / bs + i) as usize;
        let co = chunk_offset(bs, at, i);
        let cs = chunk_start(bs, at, i);
        let cl = chunk_len(bs, at, len, i);
        let p = img.page_of(inum, num)->Ok_0;
        assert(img.block_of(inum, num as int) == Some(p));
        assert(img.data(p).len() == bs);
        if cs <= k < cs + cl {
            let t = k - cs;
            assert(at + k == bs * (num as int) + (co + t)) by (nonlinear_arith)
                requires
                    (at / bs + i) * bs + co == at + cs,
                    num as int == at / bs + i,
                    t == k - cs,
            ;
            lemma_fundamental_div_mod_converse(at + k, bs, num as int, co + t);
        }
    }
}

/// A read that succeeds gives as many bytes as were asked for, each the
/// byte of the file at its position.
pub proof fn lemma_read_gives_file_bytes(img: Image, inum: usize, at: int, len: int, k: int)
    requires
        img.wf(),
        at >= 0,
        len > 0,
        at + len <= usize::MAX,
        img.read_file(inum, at, len) is Ok,
        0 <= k < len,
    ensures
        img.read_file(inum, at, len)->Ok_0.len() == len,
        img.file_byte(inum, at + k) == Some(img.read_file(inum, at, len)->Ok_0[k]),
{
    let bs = img.cfg.block_size as int;
    lemma_span_small(bs, at, len);
    lemma_read_chunks_bytes(img, inum, at, len, span_blocks(bs, at, len) as nat, k);
}

} // verus!
