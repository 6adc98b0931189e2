use vstd::prelude::*;

verus! {

// Byte order of the segment format.
//
// Every integer of a segment (header, dictionary, skip entries, postings, tenant
// sections) is written and read here as little-endian bytes, and every contract of the
// format, writer, reader and dictionary modules states that order. Segments written on
// a little-endian machine (the machines PostgreSQL builds this index for in practice:
// x86-64, AArch64) have exactly these bytes in the machine's native order; on a
// big-endian machine these functions still write and read little-endian, so such a
// machine would see the same bytes, where native-order code would not.

/// Little-endian bytes of a `u16`.
pub open spec fn u16_le_bytes(v: u16) -> Seq<u8> {
    seq![(v % 256) as u8, (v / 256) as u8]
}

/// Little-endian bytes of a `u32`: the native bytes on a little-endian machine.
pub open spec fn u32_le_bytes(v: u32) -> Seq<u8> {
    seq![(v % 256) as u8, ((v / 0x100) % 256) as u8, ((v / 0x10000) % 256) as u8, (v / 0x1000000) as u8]
}

/// Little-endian bytes of a `u64`.
pub open spec fn u64_le_bytes(v: u64) -> Seq<u8> {
    u32_le_bytes((v % 0x1_0000_0000) as u32) + u32_le_bytes((v / 0x1_0000_0000) as u32)
}

/// The `u16` whose little-endian bytes stand at `data[at..at + 2]`.
pub open spec fn u16_at(data: Seq<u8>, at: int) -> u16 {
    (data[at] + 256 * data[at + 1]) as u16
}

/// The `u32` whose little-endian bytes stand at `data[at..at + 4]`.
pub open spec fn u32_at(data: Seq<u8>, at: int) -> u32 {
    (data[at] + 0x100 * data[at + 1] + 0x10000 * data[at + 2] + 0x1000000 * data[at + 3]) as u32
}

/// The `u64` whose little-endian bytes stand at `data[at..at + 8]`.
pub open spec fn u64_at(data: Seq<u8>, at: int) -> u64 {
    (u32_at(data, at) + 0x1_0000_0000 * u32_at(data, at + 4)) as u64
}

/// Reading a `u16` back from its bytes, wherever they stand.
pub proof fn lemma_u16_roundtrip(v: u16, pre: Seq<u8>, post: Seq<u8>)
    ensures
        u16_at(pre + u16_le_bytes(v) + post, pre.len() as int) == v,
{
    let s = pre + u16_le_bytes(v) + post;
    assert(s[pre.len() as int] == (v % 256) as u8);
    assert(s[pre.len() as int + 1] == (v / 256) as u8);
}

/// Reading a `u32` back from its bytes, wherever they stand.
pub proof fn lemma_u32_roundtrip(v: u32, pre: Seq<u8>, post: Seq<u8>)
    ensures
        u32_at(pre + u32_le_bytes(v) + post, pre.len() as int) == v,
{
    let s = pre + u32_le_bytes(v) + post;
    let k = pre.len() as int;
    assert(s[k] == (v % 256) as u8);
    assert(s[k + 1] == ((v / 0x100) % 256) as u8);
    assert(s[k + 2] == ((v / 0x10000) % 256) as u8);
    assert(s[k + 3] == (v / 0x1000000) as u8);
    assert((v % 256) + 0x100 * ((v / 0x100) % 256) + 0x10000 * ((v / 0x10000) % 256) + 0x1000000 * (v / 0x1000000) == v)
        by (nonlinear_arith);
}

/// Reading a `u64` back from its bytes, wherever they stand.
pub proof fn lemma_u64_roundtrip(v: u64, pre: Seq<u8>, post: Seq<u8>)
    ensures
        u64_at(pre + u64_le_bytes(v) + post, pre.len() as int) == v,
{
    let lo = (v % 0x1_0000_0000) as u32;
    let hi = (v / 0x1_0000_0000) as u32;
    let s = pre + u64_le_bytes(v) + post;
    assert(s =~= pre + u32_le_bytes(lo) + (u32_le_bytes(hi) + post));
    lemma_u32_roundtrip(lo, pre, u32_le_bytes(hi) + post);
    assert(s =~= (pre + u32_le_bytes(lo)) + u32_le_bytes(hi) + post);
    lemma_u32_roundtrip(hi, pre + u32_le_bytes(lo), post);
}

/// Append the little-endian bytes of `v`.
pub fn push_u16(buf: &mut Vec<u8>, v: u16)
    ensures
        final(buf)@ == old(buf)@ + u16_le_bytes(v),
{
    buf.push((v % 256) as u8);
    buf.push((v / 256) as u8);
    proof {
        assert(buf@ =~= old(buf)@ + u16_le_bytes(v));
    }
}

/// Append the little-endian bytes of `v`.
pub fn push_u32(buf: &mut Vec<u8>, v: u32)
    ensures
        final(buf)@ == old(buf)@ + u32_le_bytes(v),
{
    buf.push((v % 256) as u8);
    buf.push(((v / 0x100) % 256) as u8);
    buf.push(((v / 0x10000) % 256) as u8);
    buf.push((v / 0x1000000) as u8);
    proof {
        assert(buf@ =~= old(buf)@ + u32_le_bytes(v));
    }
}

/// Append the little-endian bytes of `v`.
pub fn push_u64(buf: &mut Vec<u8>, v: u64)
    ensures
        final(buf)@ == old(buf)@ + u64_le_bytes(v),
{
    push_u32(buf, (v % 0x1_0000_0000) as u32);
    push_u32(buf, (v / 0x1_0000_0000) as u32);
    proof {
        assert(buf@ =~= old(buf)@ + u64_le_bytes(v));
    }
}

/// Read the little-endian `u16` at `data[at..at + 2]`.
pub fn read_u16(data: &[u8], at: usize) -> (v: u16)
    requires
        at + 2 <= data@.len(),
    ensures
        v == u16_at(data@, at as int),
{
    data[at] as u16 + 256 * (data[at + 1] as u16)
}

/// Read the little-endian `u32` at `data[at..at + 4]`.
pub fn read_u32(data: &[u8], at: usize) -> (v: u32)
    requires
        at + 4 <= data@.len(),
    ensures
        v == u32_at(data@, at as int),
{
    data[at] as u32 + 0x100 * (data[at + 1] as u32) + 0x10000 * (data[at + 2] as u32)
        + 0x1000000 * (data[at + 3] as u32)
}

/// Read the little-endian `u64` at `data[at..at + 8]`.
pub fn read_u64(data: &[u8], at: usize) -> (v: u64)
    requires
        at + 8 <= data@.len(),
    ensures
        v == u64_at(data@, at as int),
{
    proof {
        assert(data@.len() == data.len());
    }
    let lo = read_u32(data, at) as u64;
    let hi = read_u32(data, at + 4) as u64;
    lo + 0x1_0000_0000 * hi
}

/// A `u32` is read from the four bytes at `at`, whatever surrounds them.
pub proof fn lemma_u32_at_window(data: Seq<u8>, at: int, v: u32)
    requires
        0 <= at,
        at + 4 <= data.len(),
        data.subrange(at, at + 4) == u32_le_bytes(v),
    ensures
        u32_at(data, at) == v,
{
    let b = u32_le_bytes(v);
    lemma_u32_roundtrip(v, Seq::empty(), Seq::empty());
    assert(Seq::<u8>::empty() + b + Seq::<u8>::empty() =~= b);
    assert(data[at] == b[0]);
    assert(data[at + 1] == b[1]);
    assert(data[at + 2] == b[2]);
    assert(data[at + 3] == b[3]);
}

} // verus!
