//! Little-endian integers in byte buffers.

use vstd::prelude::*;
use vstd::bytes::*;

verus! {

/// `src` written over `d` from offset `off`.
pub open spec fn splice(d: Seq<u8>, off: int, src: Seq<u8>) -> Seq<u8> {
    d.subrange(0, off) + src + d.subrange(off + src.len(), d.len() as int)
}

/// The little-endian `u16` at `off`.
pub open spec fn u16_at(d: Seq<u8>, off: int) -> u16 {
    spec_u16_from_le_bytes(d.subrange(off, off + 2))
}

/// The little-endian `u32` at `off`.
pub open spec fn u32_at(d: Seq<u8>, off: int) -> u32 {
    spec_u32_from_le_bytes(d.subrange(off, off + 4))
}

/// The little-endian `u64` at `off`.
pub open spec fn u64_at(d: Seq<u8>, off: int) -> u64 {
    spec_u64_from_le_bytes(d.subrange(off, off + 8))
}

/// The little-endian two's-complement `i64` at `off`.
pub open spec fn i64_at(d: Seq<u8>, off: int) -> i64 {
    u64_at(d, off) as i64
}

/// The little-endian bytes of an `i64`.
pub open spec fn i64_bytes(x: i64) -> Seq<u8> {
    spec_u64_to_le_bytes(x as u64)
}

/// Reads the little-endian `u16` at `off`.
pub fn read_u16(d: &[u8], off: usize) -> (x: u16)
    requires
        off + 2 <= d@.len(),
    ensures
        x == u16_at(d@, off as int),
{
    let n = d.len();
    assert(n == d@.len());
    let s = &d[off..off + 2];
    u16_from_le_bytes(s)
}

/// Reads the little-endian `u32` at `off`.
pub fn read_u32(d: &[u8], off: usize) -> (x: u32)
    requires
        off + 4 <= d@.len(),
    ensures
        x == u32_at(d@, off as int),
{
    let n = d.len();
    assert(n == d@.len());
    let s = &d[off..off + 4];
    u32_from_le_bytes(s)
}

/// Reads the little-endian `u64` at `off`.
pub fn read_u64(d: &[u8], off: usize) -> (x: u64)
    requires
        off + 8 <= d@.len(),
    ensures
        x == u64_at(d@, off as int),
{
    let n = d.len();
    assert(n == d@.len());
    let s = &d[off..off + 8];
    u64_from_le_bytes(s)
}

/// Reads the little-endian two's-complement `i64` at `off`.
pub fn read_i64(d: &[u8], off: usize) -> (x: i64)
    requires
        off + 8 <= d@.len(),
    ensures
        x == i64_at(d@, off as int),
{
    read_u64(d, off) as i64
}

/// Writes `src` into `buf` from offset `off`.
pub fn write_at(buf: &mut Vec<u8>, off: usize, src: &[u8])
    requires
        off + src@.len() <= old(buf)@.len(),
    ensures
        final(buf)@ == splice(old(buf)@, off as int, src@),
{
    let mut i: usize = 0;
    let n = buf.len();
    while i < src.len()
        invariant
            i <= src@.len(),
            n == buf@.len(),
            off + src@.len() <= buf@.len(),
            buf@.len() == old(buf)@.len(),
            forall|j: int| 0 <= j < off ==> buf@[j] == old(buf)@[j],
            forall|j: int| off <= j < off + i ==> buf@[j] == src@[j - off],
            forall|j: int| off + i <= j < buf@.len() ==> buf@[j] == old(buf)@[j],
        decreases src.len() - i,
    {
        buf.set(off + i, src[i]);
        i = i + 1;
    }
    assert(buf@ =~= splice(old(buf)@, off as int, src@));
}

/// Writes `src` into the slice `buf` from offset `off`.
pub fn write_slice_at(buf: &mut [u8], off: usize, src: &[u8])
    requires
        off + src@.len() <= old(buf)@.len(),
    ensures
        final(buf)@ == splice(old(buf)@, off as int, src@),
{
    let mut i: usize = 0;
    let n = buf.len();
    while i < src.len()
        invariant
            i <= src@.len(),
            n == buf@.len(),
            off + src@.len() <= buf@.len(),
            buf@.len() == old(buf)@.len(),
            forall|j: int| 0 <= j < off ==> buf@[j] == old(buf)@[j],
            forall|j: int| off <= j < off + i ==> buf@[j] == src@[j - off],
            forall|j: int| off + i <= j < buf@.len() ==> buf@[j] == old(buf)@[j],
        decreases src.len() - i,
    {
        buf[off + i] = src[i];
        i = i + 1;
    }
    assert(buf@ =~= splice(old(buf)@, off as int, src@));
}

/// The bytes `from..to` of `d` moved to `dest`, as `copy_within` does.
pub open spec fn moved(d: Seq<u8>, from: int, to: int, dest: int) -> Seq<u8> {
    d.subrange(0, dest) + d.subrange(from, to) + d.subrange(dest + (to - from), d.len() as int)
}

/// `v` with the bytes `from..to` copied to `dest`.
pub fn copy_within(v: &Vec<u8>, from: usize, to: usize, dest: usize) -> (r: Vec<u8>)
    requires
        from <= to <= v@.len(),
        dest + (to - from) <= v@.len(),
    ensures
        r@ == moved(v@, from as int, to as int, dest as int),
        r@.len() == v@.len(),
{
    let n = v.len();
    let mut r = copy_range(v.as_slice(), 0, dest);
    let mid = copy_range(v.as_slice(), from, to);
    push_all(&mut r, mid.as_slice());
    let tail = copy_range(v.as_slice(), dest + (to - from), v.len());
    push_all(&mut r, tail.as_slice());
    r
}

/// Appends the little-endian bytes of a `u32`.
pub fn push_u32(buf: &mut Vec<u8>, x: u32)
    ensures
        final(buf)@ == old(buf)@ + spec_u32_to_le_bytes(x),
{
    let b = u32_to_le_bytes(x);
    push_all(buf, b.as_slice());
}

/// Appends the little-endian bytes of a `u64`.
pub fn push_u64(buf: &mut Vec<u8>, x: u64)
    ensures
        final(buf)@ == old(buf)@ + spec_u64_to_le_bytes(x),
{
    let b = u64_to_le_bytes(x);
    push_all(buf, b.as_slice());
}

/// Appends all of `src`.
pub fn push_all(buf: &mut Vec<u8>, src: &[u8])
    ensures
        final(buf)@ == old(buf)@ + src@,
{
    let mut i: usize = 0;
    while i < src.len()
        invariant
            i <= src@.len(),
            buf@ == old(buf)@ + src@.subrange(0, i as int),
        decreases src.len() - i,
    {
        buf.push(src[i]);
        i = i + 1;
    }
    assert(src@.subrange(0, src@.len() as int) =~= src@);
}

/// The bytes `d[from..to]` as a vector.
pub fn copy_range(d: &[u8], from: usize, to: usize) -> (v: Vec<u8>)
    requires
        from <= to <= d@.len(),
    ensures
        v@ == d@.subrange(from as int, to as int),
{
    let mut v: Vec<u8> = Vec::new();
    let mut i = from;
    while i < to
        invariant
            from <= i <= to,
            to <= d@.len(),
            v@ == d@.subrange(from as int, i as int),
        decreases to - i,
    {
        v.push(d[i]);
        i = i + 1;
    }
    v
}

} // verus!
