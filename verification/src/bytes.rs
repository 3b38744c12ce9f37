//! Small byte-buffer helpers shared by the format modules.
use vstd::prelude::*;

verus! {

/// The little-endian 16-bit value stored at `data[p]`, `data[p + 1]`.
pub open spec fn u16_le_at(data: Seq<u8>, p: int) -> int {
    data[p] as int + 256 * (data[p + 1] as int)
}

/// Read the little-endian `u16` at byte `p`.
pub fn read_u16_le(data: &[u8], p: usize) -> (v: u16)
    requires
        p + 2 <= data@.len(),
    ensures
        v as int == u16_le_at(data@, p as int),
{
    data[p] as u16 + (data[p + 1] as u16) * 256
}

/// A fresh vector holding the bytes of `s`.
pub fn copy_bytes(s: &[u8]) -> (v: Vec<u8>)
    ensures
        v@ == s@,
{
    let mut v: Vec<u8> = Vec::with_capacity(s.len());
    append_bytes(&mut v, s);
    assert(v@ =~= s@);
    v
}

/// Append the bytes of `src` to `dst`.
pub fn append_bytes(dst: &mut Vec<u8>, src: &[u8])
    ensures
        final(dst)@ == old(dst)@ + src@,
{
    let ghost start = dst@;
    let mut k: usize = 0;
    while k < src.len()
        invariant
            k <= src@.len(),
            dst@ == start + src@.subrange(0, k as int),
        decreases src@.len() - k,
    {
        dst.push(src[k]);
        k += 1;
        assert(dst@ =~= start + src@.subrange(0, k as int));
    }
    assert(src@.subrange(0, src@.len() as int) =~= src@);
}

} // verus!
