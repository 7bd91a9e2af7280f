//! How a byte range of a file falls onto pages: one chunk per page touched.

use vstd::prelude::*;
use vstd::arithmetic::div_mod::*;

verus! {

/// The quotient of `x` by `y`, rounded up.
pub open spec fn spec_ceil_div(x: int, y: int) -> int {
    (x + y - 1) / y
}

/// The quotient of `x` by `y`, rounded up; computed without overflow.
pub fn ceil_div(x: usize, y: usize) -> (r: usize)
    requires
        y > 0,
    ensures
        r == spec_ceil_div(x as int, y as int),
{
    let q: usize = x / y;
    let m: usize = x % y;
    proof {
        lemma_fundamental_div_mod(x as int, y as int);
        if m == 0 {
            lemma_fundamental_div_mod_converse(x + y - 1, y as int, q as int, y - 1);
        } else {
            assert((q + 1) * y == y * q + y) by (nonlinear_arith);
            lemma_fundamental_div_mod_converse(x + y - 1, y as int, q + 1, m - 1);
            assert(q + 1 <= x) by (nonlinear_arith)
                requires
                    x == y * q + m,
                    m > 0,
                    y > 0,
                    q >= 0,
            ;
        }
    }
    if m == 0 {
        q
    } else {
        q + 1
    }
}

/// Number of pages that `len` bytes from `offset` on touch.
pub open spec fn span_blocks(bs: int, offset: int, len: int) -> int {
    spec_ceil_div(offset % bs + len, bs)
}

/// Where chunk `i` starts inside its page.
pub open spec fn chunk_offset(bs: int, offset: int, i: int) -> int {
    if i == 0 {
        offset % bs
    } else {
        0
    }
}

/// Where chunk `i` starts inside the caller's bytes.
pub open spec fn chunk_start(bs: int, offset: int, i: int) -> int {
    if i == 0 {
        0
    } else {
        i * bs - offset % bs
    }
}

/// Number of bytes of chunk `i`: up to the page's end, but for the last
/// chunk, which takes what is left.
pub open spec fn chunk_len(bs: int, offset: int, len: int, i: int) -> int {
    if i == span_blocks(bs, offset, len) - 1 {
        len - chunk_start(bs, offset, i)
    } else {
        bs - chunk_offset(bs, offset, i)
    }
}

/// The chunks tile the byte range: each lies inside one page, at the file
/// position of its bytes; each starts where the one before ended; the last
/// ends where the range ends; and none but a lone chunk is empty.
pub proof fn lemma_chunks_tile(bs: int, offset: int, len: int, i: int)
    requires
        bs > 0,
        offset >= 0,
        len >= 0,
        0 <= i < span_blocks(bs, offset, len),
    ensures
        0 <= chunk_offset(bs, offset, i) < bs,
        0 <= chunk_len(bs, offset, len, i),
        chunk_offset(bs, offset, i) + chunk_len(bs, offset, len, i) <= bs,
        0 <= chunk_start(bs, offset, i),
        chunk_start(bs, offset, i) + chunk_len(bs, offset, len, i) <= len,
        (offset / bs + i) * bs + chunk_offset(bs, offset, i) == offset + chunk_start(bs, offset, i),
        i + 1 < span_blocks(bs, offset, len) ==> chunk_len(bs, offset, len, i) > 0 && chunk_start(
            bs,
            offset,
            i + 1,
        ) == chunk_start(bs, offset, i) + chunk_len(bs, offset, len, i),
        i + 1 == span_blocks(bs, offset, len) ==> chunk_start(bs, offset, i) + chunk_len(
            bs,
            offset,
            len,
            i,
        ) == len,
{
    let s = offset % bs;
    let n = span_blocks(bs, offset, len);
    lemma_fundamental_div_mod(offset, bs);
    lemma_mod_bound(offset, bs);
    lemma_fundamental_div_mod(s + len + bs - 1, bs);
    lemma_mod_bound(s + len + bs - 1, bs);
    assert((n - 1) * bs < s + len && s + len <= n * bs) by (nonlinear_arith)
        requires
            s + len + bs - 1 == bs * n + (s + len + bs - 1) % bs,
            0 <= (s + len + bs - 1) % bs < bs,
    ;
    assert((offset / bs + i) * bs == bs * (offset / bs) + i * bs) by (nonlinear_arith);
    if i + 1 < n {
        assert((i + 1) * bs <= (n - 1) * bs) by (nonlinear_arith)
            requires
                i + 1 <= n - 1,
                bs > 0,
        ;
        assert((i + 1) * bs == i * bs + bs) by (nonlinear_arith);
    } else {
        assert(n * bs == i * bs + bs) by (nonlinear_arith)
            requires
                n == i + 1,
        ;
    }
    if i > 0 {
        assert(i * bs >= bs) by (nonlinear_arith)
            requires
                i >= 1,
                bs > 0,
        ;
    } else {
        assert(i * bs == 0) by (nonlinear_arith)
            requires
                i == 0,
        ;
    }
}

/// The span count names the pages exactly: the range's first byte lies on
/// the first page of the span and its last byte on the last.
pub proof fn lemma_span_pages(bs: int, offset: int, len: int)
    requires
        bs > 0,
        offset >= 0,
        len > 0,
    ensures
        span_blocks(bs, offset, len) >= 1,
        (offset + len - 1) / bs == offset / bs + span_blocks(bs, offset, len) - 1,
{
    let s = offset % bs;
    let n = span_blocks(bs, offset, len);
    lemma_fundamental_div_mod(offset, bs);
    lemma_mod_bound(offset, bs);
    lemma_fundamental_div_mod(s + len + bs - 1, bs);
    lemma_mod_bound(s + len + bs - 1, bs);
    assert((n - 1) * bs < s + len && s + len <= n * bs && n >= 1) by (nonlinear_arith)
        requires
            s + len + bs - 1 == bs * n + (s + len + bs - 1) % bs,
            0 <= (s + len + bs - 1) % bs < bs,
            s >= 0,
            len > 0,
            bs > 0,
    ;
    let q = offset / bs + n - 1;
    let r = s + len - 1 - (n - 1) * bs;
    assert(offset + len - 1 == bs * q + r) by (nonlinear_arith)
        requires
            offset == bs * (offset / bs) + s,
            q == offset / bs + n - 1,
            r == s + len - 1 - (n - 1) * bs,
    ;
    assert(r < bs) by (nonlinear_arith)
        requires
            r == s + len - 1 - (n - 1) * bs,
            s + len <= n * bs,
    ;
    lemma_fundamental_div_mod_converse(offset + len - 1, bs, q, r);
}

/// A range that touches no page is empty, and an empty range touches at
/// most the page it starts in.
pub proof fn lemma_span_small(bs: int, offset: int, len: int)
    requires
        bs > 0,
        offset >= 0,
        len >= 0,
    ensures
        0 <= span_blocks(bs, offset, len),
        span_blocks(bs, offset, len) == 0 ==> len == 0,
        len == 0 ==> span_blocks(bs, offset, len) <= 1,
        0 <= offset / bs <= offset,
        0 <= offset % bs <= offset,
        offset % bs < bs,
{
    let s = offset % bs;
    let n = span_blocks(bs, offset, len);
    lemma_fundamental_div_mod(offset, bs);
    lemma_mod_bound(offset, bs);
    lemma_fundamental_div_mod(s + len + bs - 1, bs);
    lemma_mod_bound(s + len + bs - 1, bs);
    assert((n - 1) * bs < s + len && s + len <= n * bs) by (nonlinear_arith)
        requires
            s + len + bs - 1 == bs * n + (s + len + bs - 1) % bs,
            0 <= (s + len + bs - 1) % bs < bs,
    ;
    assert(n >= 0 && (len == 0 ==> n <= 1)) by (nonlinear_arith)
        requires
            (n - 1) * bs < s + len,
            s + len <= n * bs,
            0 <= s < bs,
            len >= 0,
    ;
    assert(n == 0 ==> len == 0) by (nonlinear_arith)
        requires
            s + len <= n * bs,
            s >= 0,
            len >= 0,
    ;
    assert(0 <= offset / bs <= offset) by (nonlinear_arith)
        requires
            offset == bs * (offset / bs) + s,
            0 <= s < bs,
            offset >= 0,
            bs > 0,
    ;
}

/// Every page of a span begins before the range ends, and its number fits
/// the machine's addresses when the range's end does.
pub proof fn lemma_page_in_range(bs: int, offset: int, len: int, i: int)
    requires
        bs > 0,
        offset >= 0,
        len > 0,
        0 <= i < span_blocks(bs, offset, len),
    ensures
        0 <= offset / bs + i,
        (offset / bs + i) * bs < offset + len,
        offset / bs + i < offset + len,
{
    lemma_span_pages(bs, offset, len);
    lemma_span_small(bs, offset, len);
    let last = (offset + len - 1) / bs;
    lemma_fundamental_div_mod(offset + len - 1, bs);
    lemma_mod_bound(offset + len - 1, bs);
    assert((offset / bs + i) * bs <= last * bs && offset / bs + i <= (offset / bs + i) * bs)
        by (nonlinear_arith)
        requires
            0 <= offset / bs + i <= last,
            bs > 0,
    ;
    assert(last * bs == bs * last) by (nonlinear_arith);
}

} // verus!
