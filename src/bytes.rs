use vstd::prelude::*;

verus! {

/// Little-endian bytes of a `u32`.
pub open spec fn le_u32(x: u32) -> Seq<u8> {
    Seq::new(4, |i: int| (x >> ((8 * i) as u32)) as u8)
}

/// Little-endian bytes of a `u64`.
pub open spec fn le_u64(x: u64) -> Seq<u8> {
    Seq::new(8, |i: int| (x >> ((8 * i) as u64)) as u8)
}

/// Little-endian bytes of a `u128`.
pub open spec fn le_u128(x: u128) -> Seq<u8> {
    Seq::new(16, |i: int| (x >> ((8 * i) as u128)) as u8)
}

pub fn push_le_u32(out: &mut Vec<u8>, x: u32)
    ensures
        final(out)@ == old(out)@ + le_u32(x),
{
    let ghost start = out@;
    let mut i: usize = 0;
    while i < 4
        invariant
            i <= 4,
            out@ == start + le_u32(x).take(i as int),
        decreases 4 - i,
    {
        out.push((x >> ((8 * i) as u32)) as u8);
        assert(le_u32(x).take(i + 1) =~= le_u32(x).take(i as int).push(le_u32(x)[i as int]));
        i = i + 1;
    }
    assert(le_u32(x).take(4) =~= le_u32(x));
}

pub fn push_le_u64(out: &mut Vec<u8>, x: u64)
    ensures
        final(out)@ == old(out)@ + le_u64(x),
{
    let ghost start = out@;
    let mut i: usize = 0;
    while i < 8
        invariant
            i <= 8,
            out@ == start + le_u64(x).take(i as int),
        decreases 8 - i,
    {
        out.push((x >> ((8 * i) as u64)) as u8);
        assert(le_u64(x).take(i + 1) =~= le_u64(x).take(i as int).push(le_u64(x)[i as int]));
        i = i + 1;
    }
    assert(le_u64(x).take(8) =~= le_u64(x));
}

pub fn push_le_u128(out: &mut Vec<u8>, x: u128)
    ensures
        final(out)@ == old(out)@ + le_u128(x),
{
    let ghost start = out@;
    let mut i: usize = 0;
    while i < 16
        invariant
            i <= 16,
            out@ == start + le_u128(x).take(i as int),
        decreases 16 - i,
    {
        out.push((x >> ((8 * i) as u128)) as u8);
        assert(le_u128(x).take(i + 1) =~= le_u128(x).take(i as int).push(le_u128(x)[i as int]));
        i = i + 1;
    }
    assert(le_u128(x).take(16) =~= le_u128(x));
}

/// Appends every byte of `src` to `out`.
pub fn push_all(out: &mut Vec<u8>, src: &[u8])
    ensures
        final(out)@ == old(out)@ + src@,
{
    let ghost start = out@;
    let mut i: usize = 0;
    while i < src.len()
        invariant
            i <= src@.len(),
            out@ == start + src@.take(i as int),
        decreases src@.len() - i,
    {
        out.push(src[i]);
        assert(src@.take(i + 1) =~= src@.take(i as int).push(src@[i as int]));
        i = i + 1;
    }
    assert(src@.take(src@.len() as int) =~= src@);
}

/// A byte-for-byte copy of `src`.
pub fn copy_bytes(src: &Vec<u8>) -> (r: Vec<u8>)
    ensures
        r@ == src@,
{
    let mut r: Vec<u8> = Vec::new();
    push_all(&mut r, src.as_slice());
    assert(r@ =~= src@);
    r
}

} // verus!
