//! Integers as they stand in packets and files.
//!
//! A big-endian integer has its most significant byte first (network byte
//! order), a little-endian one its least significant.

use vstd::prelude::*;

verus! {

/// The big-endian 16-bit integer at `at`.
pub open spec fn be16(s: Seq<u8>, at: int) -> int {
    s[at] * 0x100 + s[at + 1]
}

/// The big-endian 32-bit integer at `at`.
pub open spec fn be32(s: Seq<u8>, at: int) -> int {
    s[at] * 0x100_0000 + s[at + 1] * 0x1_0000 + s[at + 2] * 0x100 + s[at + 3]
}

/// The little-endian 16-bit integer at `at`.
pub open spec fn le16(s: Seq<u8>, at: int) -> int {
    s[at] + s[at + 1] * 0x100
}

/// The little-endian 32-bit integer at `at`.
pub open spec fn le32(s: Seq<u8>, at: int) -> int {
    s[at] + s[at + 1] * 0x100 + s[at + 2] * 0x1_0000 + s[at + 3] * 0x100_0000
}

/// The two bytes of a big-endian 16-bit integer.
pub open spec fn be16_bytes(v: u16) -> Seq<u8> {
    seq![(v / 0x100) as u8, (v % 0x100) as u8]
}

/// The two bytes of a little-endian 16-bit integer.
pub open spec fn le16_bytes(v: u16) -> Seq<u8> {
    seq![(v % 0x100) as u8, (v / 0x100) as u8]
}

/// The four bytes of a little-endian 32-bit integer.
pub open spec fn le32_bytes(v: u32) -> Seq<u8> {
    seq![
        (v % 0x100) as u8,
        (v / 0x100 % 0x100) as u8,
        (v / 0x1_0000 % 0x100) as u8,
        (v / 0x100_0000) as u8,
    ]
}

/// Read a big-endian 16-bit integer.
pub fn get_be16(s: &[u8], at: usize) -> (v: u16)
    requires
        at + 2 <= s@.len(),
    ensures
        v == be16(s@, at as int),
{
    s[at] as u16 * 0x100 + s[at + 1] as u16
}

/// Read a big-endian 32-bit integer.
pub fn get_be32(s: &[u8], at: usize) -> (v: u32)
    requires
        at + 4 <= s@.len(),
    ensures
        v == be32(s@, at as int),
{
    s[at] as u32 * 0x100_0000 + s[at + 1] as u32 * 0x1_0000 + s[at + 2] as u32 * 0x100 + s[at
        + 3] as u32
}

/// Read a little-endian 16-bit integer.
pub fn get_le16(s: &[u8], at: usize) -> (v: u16)
    requires
        at + 2 <= s@.len(),
    ensures
        v == le16(s@, at as int),
{
    s[at] as u16 + s[at + 1] as u16 * 0x100
}

/// Read a little-endian 32-bit integer.
pub fn get_le32(s: &[u8], at: usize) -> (v: u32)
    requires
        at + 4 <= s@.len(),
    ensures
        v == le32(s@, at as int),
{
    s[at] as u32 + s[at + 1] as u32 * 0x100 + s[at + 2] as u32 * 0x1_0000 + s[at + 3] as u32
        * 0x100_0000
}

/// Append a little-endian 16-bit integer.
pub fn push_le16(out: &mut Vec<u8>, v: u16)
    ensures
        final(out)@ == old(out)@ + le16_bytes(v),
{
    out.push((v % 0x100) as u8);
    out.push((v / 0x100) as u8);
    assert(out@ =~= old(out)@ + le16_bytes(v));
}

/// Append a little-endian 32-bit integer.
pub fn push_le32(out: &mut Vec<u8>, v: u32)
    ensures
        final(out)@ == old(out)@ + le32_bytes(v),
{
    out.push((v % 0x100) as u8);
    out.push((v / 0x100 % 0x100) as u8);
    out.push((v / 0x1_0000 % 0x100) as u8);
    out.push((v / 0x100_0000) as u8);
    assert(out@ =~= old(out)@ + le32_bytes(v));
}

/// Append all of `data`.
pub fn push_bytes(out: &mut Vec<u8>, data: &[u8])
    ensures
        final(out)@ == old(out)@ + data@,
{
    let mut i: usize = 0;
    assert(out@ =~= old(out)@ + data@.take(0));
    while i < data.len()
        invariant
            i <= data@.len(),
            out@ == old(out)@ + data@.take(i as int),
        decreases data@.len() - i,
    {
        out.push(data[i]);
        i = i + 1;
        assert(out@ =~= old(out)@ + data@.take(i as int));
    }
    assert(data@.take(data@.len() as int) =~= data@);
}

/// A copy of the bytes from `from` up to, not including, `to`.
pub fn byte_range(data: &[u8], from: usize, to: usize) -> (r: Vec<u8>)
    requires
        from <= to <= data@.len(),
    ensures
        r@ == data@.subrange(from as int, to as int),
{
    let mut out: Vec<u8> = Vec::new();
    let mut i: usize = from;
    while i < to
        invariant
            from <= i <= to <= data@.len(),
            out@ == data@.subrange(from as int, i as int),
        decreases to - i,
    {
        out.push(data[i]);
        i = i + 1;
        assert(out@ =~= data@.subrange(from as int, i as int));
    }
    out
}

/// `s` with its bytes from `at` on replaced by `data`.
pub open spec fn overwritten(s: Seq<u8>, at: int, data: Seq<u8>) -> Seq<u8> {
    s.take(at) + data + s.skip(at + data.len())
}

/// Write `data` into a buffer from `at` on.
pub fn put_bytes(buf: &mut [u8], at: usize, data: &[u8])
    requires
        at + data@.len() <= old(buf)@.len(),
    ensures
        final(buf)@ == overwritten(old(buf)@, at as int, data@),
{
    let ghost before = buf@;
    let n: usize = buf.len();
    let mut i: usize = 0;
    assert(buf@ =~= overwritten(before, at as int, data@.take(0)));
    while i < data.len()
        invariant
            i <= data@.len(),
            at + data@.len() <= before.len() == n,
            buf@ == overwritten(before, at as int, data@.take(i as int)),
        decreases data@.len() - i,
    {
        assert(buf@.len() == before.len());
        buf[at + i] = data[i];
        i = i + 1;
        assert(buf@ =~= overwritten(before, at as int, data@.take(i as int)));
    }
    assert(data@.take(data@.len() as int) =~= data@);
}

/// Write a big-endian 16-bit integer into a buffer.
pub fn put_be16(buf: &mut [u8], at: usize, v: u16)
    requires
        at + 2 <= old(buf)@.len(),
    ensures
        final(buf)@ == overwritten(old(buf)@, at as int, be16_bytes(v)),
{
    let data: [u8; 2] = [(v / 0x100) as u8, (v % 0x100) as u8];
    assert(data@ =~= be16_bytes(v));
    put_bytes(buf, at, data.as_slice());
}

/// Whether two byte strings are the same.
pub fn same_bytes(a: &[u8], b: &[u8]) -> (r: bool)
    ensures
        r == (a@ == b@),
{
    if a.len() != b.len() {
        return false;
    }
    let mut i: usize = 0;
    while i < a.len()
        invariant
            i <= a@.len(),
            a@.len() == b@.len(),
            forall|j: int| 0 <= j < i ==> a@[j] == b@[j],
        decreases a@.len() - i,
    {
        if a[i] != b[i] {
            return false;
        }
        i = i + 1;
    }
    assert(a@ =~= b@);
    true
}

/// A big-endian integer has its most significant byte first: taking it apart
/// gives the bytes in their order.
pub proof fn law_big_endian(s: Seq<u8>, at: int)
    ensures
        be16(s, at) / 0x100 == s[at],
        be16(s, at) % 0x100 == s[at + 1],
        be32(s, at) / 0x100_0000 == s[at],
        be32(s, at) / 0x1_0000 % 0x100 == s[at + 1],
        be32(s, at) / 0x100 % 0x100 == s[at + 2],
        be32(s, at) % 0x100 == s[at + 3],
{
}

/// A little-endian integer has its least significant byte first: taking it
/// apart gives the bytes in their order.
pub proof fn law_little_endian(s: Seq<u8>, at: int)
    ensures
        le16(s, at) % 0x100 == s[at],
        le16(s, at) / 0x100 == s[at + 1],
        le32(s, at) % 0x100 == s[at],
        le32(s, at) / 0x100 % 0x100 == s[at + 1],
        le32(s, at) / 0x1_0000 % 0x100 == s[at + 2],
        le32(s, at) / 0x100_0000 == s[at + 3],
{
}

/// The bytes of an integer, weighted by their places, add up to it: from the
/// first down where it is big-endian, from the last down where it is
/// little-endian.
pub proof fn law_integer_bytes(v: u16, w: u32)
    ensures
        be16_bytes(v).len() == 2,
        256 * be16_bytes(v)[0] + be16_bytes(v)[1] == v,
        le16_bytes(v).len() == 2,
        256 * le16_bytes(v)[1] + le16_bytes(v)[0] == v,
        le32_bytes(w).len() == 4,
        256 * (256 * (256 * le32_bytes(w)[3] + le32_bytes(w)[2]) + le32_bytes(w)[1]) + le32_bytes(
            w,
        )[0] == w,
{
}

/// Writing into a buffer changes the bytes that are written over, and no others.
pub proof fn law_overwritten(s: Seq<u8>, at: int, data: Seq<u8>, i: int)
    requires
        0 <= at,
        at + data.len() <= s.len(),
        0 <= i < s.len(),
    ensures
        overwritten(s, at, data).len() == s.len(),
        at <= i < at + data.len() ==> overwritten(s, at, data)[i] == data[i - at],
        i < at || at + data.len() <= i ==> overwritten(s, at, data)[i] == s[i],
{
}

} // verus!
