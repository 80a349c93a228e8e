//! Byte encodings of integers used when hashing DAG nodes.

use vstd::prelude::*;

verus! {

/// Big-endian encoding of a 128-bit identifier (the layout of a UUID's bytes).
pub open spec fn u128_be_bytes(x: u128) -> Seq<u8> {
    Seq::new(16, |i: int| (x >> ((8 * (15 - i)) as u32)) as u8)
}

/// Little-endian encoding of a 64-bit integer.
pub open spec fn u64_le_bytes(x: u64) -> Seq<u8> {
    Seq::new(8, |i: int| (x >> ((8 * i) as u32)) as u8)
}

/// Concatenation of the big-endian encodings of a list of identifiers.
pub open spec fn ids_be_bytes(ids: Seq<u128>) -> Seq<u8>
    decreases ids.len(),
{
    if ids.len() == 0 {
        Seq::empty()
    } else {
        ids_be_bytes(ids.drop_last()) + u128_be_bytes(ids.last())
    }
}

/// Appends the big-endian bytes of `x` to `out`.
pub fn push_u128_be(out: &mut Vec<u8>, x: u128)
    ensures
        final(out)@ == old(out)@ + u128_be_bytes(x),
{
    let ghost start = out@;
    let mut i: u32 = 0;
    while i < 16
        invariant
            i <= 16,
            out@ =~= start + u128_be_bytes(x).subrange(0, i as int),
        decreases 16 - i,
    {
        let b = (x >> (8 * (15 - i))) as u8;
        out.push(b);
        i = i + 1;
        assert(out@ =~= start + u128_be_bytes(x).subrange(0, i as int));
    }
    assert(u128_be_bytes(x).subrange(0, 16) =~= u128_be_bytes(x));
    assert(out@ =~= start + u128_be_bytes(x));
}

/// Appends the little-endian bytes of `x` to `out`.
pub fn push_u64_le(out: &mut Vec<u8>, x: u64)
    ensures
        final(out)@ == old(out)@ + u64_le_bytes(x),
{
    let ghost start = out@;
    let mut i: u32 = 0;
    while i < 8
        invariant
            i <= 8,
            out@ =~= start + u64_le_bytes(x).subrange(0, i as int),
        decreases 8 - i,
    {
        let b = (x >> (8 * i)) as u8;
        out.push(b);
        i = i + 1;
        assert(out@ =~= start + u64_le_bytes(x).subrange(0, i as int));
    }
    assert(u64_le_bytes(x).subrange(0, 8) =~= u64_le_bytes(x));
    assert(out@ =~= start + u64_le_bytes(x));
}

/// Appends all bytes of `data` to `out`.
pub fn push_bytes(out: &mut Vec<u8>, data: &[u8])
    ensures
        final(out)@ == old(out)@ + data@,
{
    let ghost start = out@;
    let mut i: usize = 0;
    while i < data.len()
        invariant
            i <= data@.len(),
            out@ =~= start + data@.subrange(0, i as int),
        decreases data@.len() - i,
    {
        out.push(data[i]);
        i = i + 1;
        assert(out@ =~= start + data@.subrange(0, i as int));
    }
    assert(data@.subrange(0, data@.len() as int) =~= data@);
}

} // verus!
