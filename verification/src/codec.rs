//! Fixed-width little-endian integer fields inside a block buffer.

use vstd::prelude::*;
use vstd::bytes::*;
use vstd::slice::slice_subrange;
use crate::layout::FIELD_WIDTH;

verus! {

/// The buffer `s` with the bytes from `off` on replaced by `patch`.
pub open spec fn overwrite(s: Seq<u8>, off: int, patch: Seq<u8>) -> Seq<u8> {
    s.subrange(0, off) + patch + s.subrange(off + patch.len(), s.len() as int)
}

/// The integer stored little-endian in the eight bytes of `s` from `off` on.
pub open spec fn field_at(s: Seq<u8>, off: int) -> u64 {
    spec_u64_from_le_bytes(s.subrange(off, off + 8))
}

/// Reads the field that starts at byte `off`.
pub fn get_field(buf: &[u8], off: usize) -> (v: u64)
    requires
        off + FIELD_WIDTH <= buf.len(),
    ensures
        v == field_at(buf@, off as int),
{
    u64_from_le_bytes(slice_subrange(buf, off, off + FIELD_WIDTH))
}

/// Writes `v` into the eight bytes that start at `off`; the rest of the
/// buffer stays as it was.
pub fn put_field(buf: &mut Vec<u8>, off: usize, v: u64)
    requires
        off + FIELD_WIDTH <= old(buf).len(),
    ensures
        final(buf)@ == overwrite(old(buf)@, off as int, spec_u64_to_le_bytes(v)),
        final(buf)@.len() == old(buf)@.len(),
{
    let bytes = u64_to_le_bytes(v);
    let mut i: usize = 0;
    while i < FIELD_WIDTH
        invariant
            i <= FIELD_WIDTH,
            bytes@ == spec_u64_to_le_bytes(v),
            bytes@.len() == 8,
            buf@.len() == old(buf)@.len(),
            off + FIELD_WIDTH <= buf.len(),
            forall|k: int| 0 <= k < buf@.len() && !(off <= k < off + i) ==> buf@[k] == old(buf)@[k],
            forall|k: int| off <= k < off + i ==> buf@[k] == bytes@[k - off],
        decreases FIELD_WIDTH - i,
    {
        buf.set(off + i, bytes[i]);
        i += 1;
    }
    assert(buf@ =~= overwrite(old(buf)@, off as int, spec_u64_to_le_bytes(v)));
}

/// A field that was written is read back, and fields elsewhere are not
/// disturbed by the write.
pub proof fn lemma_field_after_put(s: Seq<u8>, off: int, v: u64, at: int)
    requires
        0 <= off,
        off + 8 <= s.len(),
        0 <= at,
        at + 8 <= s.len(),
    ensures
        at == off ==> field_at(overwrite(s, off, spec_u64_to_le_bytes(v)), at) == v,
        (at + 8 <= off || off + 8 <= at) ==> field_at(
            overwrite(s, off, spec_u64_to_le_bytes(v)),
            at,
        ) == field_at(s, at),
{
    lemma_auto_spec_u64_to_from_le_bytes();
    let t = overwrite(s, off, spec_u64_to_le_bytes(v));
    if at == off {
        assert(t.subrange(at, at + 8) =~= spec_u64_to_le_bytes(v));
    }
    if at + 8 <= off || off + 8 <= at {
        assert(t.subrange(at, at + 8) =~= s.subrange(at, at + 8));
    }
}

/// Copies `count` bytes of `src`, from index `from` on, over the bytes of
/// `dst` from index `at` on; the rest of `dst` stays as it was.
pub fn copy_into(dst: &mut Vec<u8>, at: usize, src: &[u8], from: usize, count: usize)
    requires
        at + count <= old(dst).len(),
        from + count <= src.len(),
    ensures
        final(dst)@ == overwrite(old(dst)@, at as int, src@.subrange(from as int, from + count)),
        final(dst)@.len() == old(dst)@.len(),
{
    let mut k: usize = 0;
    while k < count
        invariant
            k <= count,
            dst@.len() == old(dst)@.len(),
            at + count <= dst.len(),
            from + count <= src.len(),
            forall|j: int| 0 <= j < dst@.len() && !(at <= j < at + k) ==> dst@[j] == old(dst)@[j],
            forall|j: int| at <= j < at + k ==> dst@[j] == src@[from + (j - at)],
        decreases count - k,
    {
        dst.set(at + k, src[from + k]);
        k += 1;
    }
    assert(dst@ =~= overwrite(old(dst)@, at as int, src@.subrange(from as int, from + count)));
}

} // verus!
