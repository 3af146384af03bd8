//! Small operations on byte buffers that the packet builders and the HTTP parser
//! share.

use vstd::prelude::*;

verus! {

/// `buf` with `src` written over it from index `at` on.
pub open spec fn overwritten(buf: Seq<u8>, at: int, src: Seq<u8>) -> Seq<u8> {
    buf.subrange(0, at) + src + buf.subrange(at + src.len(), buf.len() as int)
}

/// Writing `p` and then `q` right behind it writes `p + q`.
pub proof fn lemma_overwrite_on(buf: Seq<u8>, at: int, p: Seq<u8>, q: Seq<u8>)
    requires
        0 <= at,
        at + p.len() + q.len() <= buf.len(),
    ensures
        overwritten(buf, at, p).len() == buf.len(),
        overwritten(overwritten(buf, at, p), at + p.len(), q) == overwritten(buf, at, p + q),
{
    assert(overwritten(overwritten(buf, at, p), at + p.len(), q) =~= overwritten(buf, at, p + q));
}

/// Write `src` into `buf` from index `at` on.
pub fn copy_into(buf: &mut [u8], at: usize, src: &[u8])
    requires
        at + src@.len() <= old(buf)@.len(),
    ensures
        final(buf)@ == overwritten(old(buf)@, at as int, src@),
{
    let total: usize = buf.len();
    let mut k: usize = 0;
    while k < src.len()
        invariant
            k <= src@.len(),
            at + src@.len() <= total,
            buf@.len() == old(buf)@.len() == total,
            buf@ =~= overwritten(old(buf)@, at as int, src@.subrange(0, k as int)),
        decreases src@.len() - k,
    {
        buf[at + k] = src[k];
        k += 1;
    }
    assert(src@.subrange(0, k as int) =~= src@);
}

/// Set the first `count` bytes of `buf` to zero.
pub fn clear_first(buf: &mut [u8], count: usize)
    requires
        count <= old(buf)@.len(),
    ensures
        final(buf)@ == overwritten(old(buf)@, 0, Seq::new(count as nat, |i: int| 0u8)),
{
    let mut k: usize = 0;
    while k < count
        invariant
            k <= count <= buf@.len(),
            buf@.len() == old(buf)@.len(),
            buf@ =~= overwritten(old(buf)@, 0, Seq::new(k as nat, |i: int| 0u8)),
        decreases count - k,
    {
        buf[k] = 0;
        k += 1;
    }
}

/// The four bytes of `v`, most significant first.
pub open spec fn big_endian(v: u32) -> Seq<u8> {
    seq![
        (v as int / 0x100_0000) as u8,
        (v as int / 0x1_0000 % 0x100) as u8,
        (v as int / 0x100 % 0x100) as u8,
        (v as int % 0x100) as u8,
    ]
}

/// The four bytes of `v`, most significant first.
pub fn to_big_endian(v: u32) -> (bytes: [u8; 4])
    ensures
        bytes@ == big_endian(v),
{
    [
        (v / 0x100_0000) as u8,
        (v / 0x1_0000 % 0x100) as u8,
        (v / 0x100 % 0x100) as u8,
        (v % 0x100) as u8,
    ]
}

/// Whether two byte strings are the same.
pub fn same_bytes(a: &[u8], b: &[u8]) -> (same: bool)
    ensures
        same == (a@ == b@),
{
    if a.len() != b.len() {
        return false;
    }
    let mut k: usize = 0;
    while k < a.len()
        invariant
            k <= a@.len(),
            a@.len() == b@.len(),
            forall|i: int| 0 <= i < k ==> a@[i] == b@[i],
        decreases a@.len() - k,
    {
        if a[k] != b[k] {
            return false;
        }
        k += 1;
    }
    assert(a@ =~= b@);
    true
}

/// Writing over a buffer changes the bytes that are written over, and no other.
pub proof fn law_only_what_is_written_changes(buf: Seq<u8>, at: int, src: Seq<u8>, i: int)
    requires
        0 <= at,
        at + src.len() <= buf.len(),
        0 <= i < buf.len(),
    ensures
        overwritten(buf, at, src).len() == buf.len(),
        overwritten(buf, at, src)[i] == (if at <= i < at + src.len() {
            src[i - at]
        } else {
            buf[i]
        }),
{
}

/// The four bytes of a number count by their place.
pub proof fn law_bytes_count_by_place(v: u32)
    ensures
        big_endian(v).len() == 4,
        big_endian(v)[0] * 0x100_0000 + big_endian(v)[1] * 0x1_0000 + big_endian(v)[2] * 0x100
            + big_endian(v)[3] == v,
{
}

} // verus!
