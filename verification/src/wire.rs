//! Big-endian integers as they appear in a DNS message.

use vstd::prelude::*;

verus! {

/// The 16-bit value whose big-endian encoding is `hi`, `lo`.
pub open spec fn be16(hi: u8, lo: u8) -> u16 {
    (hi as int * 256 + lo as int) as u16
}

/// The two bytes of `value`, most significant first.
pub open spec fn be16_bytes(value: u16) -> Seq<u8> {
    seq![(value / 256) as u8, (value % 256) as u8]
}

/// The 32-bit value whose big-endian encoding is `b0`, `b1`, `b2`, `b3`.
pub open spec fn be32(b0: u8, b1: u8, b2: u8, b3: u8) -> u32 {
    (b0 as int * 16777216 + b1 as int * 65536 + b2 as int * 256 + b3 as int) as u32
}

/// The four bytes of `value`, most significant first.
pub open spec fn be32_bytes(value: u32) -> Seq<u8> {
    seq![
        (value / 16777216) as u8,
        ((value / 65536) % 256) as u8,
        ((value / 256) % 256) as u8,
        (value % 256) as u8,
    ]
}

/// Reading back the two bytes written for a value gives that value.
pub proof fn lemma_be16_round_trip(value: u16)
    ensures
        be16_bytes(value).len() == 2,
        be16(be16_bytes(value)[0], be16_bytes(value)[1]) == value,
{
}

/// Writing the value read from two bytes gives those two bytes.
pub proof fn lemma_be16_bytes_of_be16(hi: u8, lo: u8)
    ensures
        be16_bytes(be16(hi, lo)) == seq![hi, lo],
{
    assert(be16_bytes(be16(hi, lo)) =~= seq![hi, lo]);
}

/// Reading back the four bytes written for a value gives that value.
pub proof fn lemma_be32_round_trip(value: u32)
    ensures
        be32_bytes(value).len() == 4,
        be32(
            be32_bytes(value)[0],
            be32_bytes(value)[1],
            be32_bytes(value)[2],
            be32_bytes(value)[3],
        ) == value,
{
}

/// Reads the big-endian `u16` at `data[at..at + 2]`.
pub(crate) fn read_u16(data: &[u8], at: usize) -> (value: u16)
    requires
        at + 2 <= data@.len(),
    ensures
        value == be16(data@[at as int], data@[at + 1]),
{
    let hi: u16 = data[at] as u16;
    let lo: u16 = data[at + 1] as u16;
    hi * 256 + lo
}

/// Reads the big-endian `u32` at `data[at..at + 4]`.
pub(crate) fn read_u32(data: &[u8], at: usize) -> (value: u32)
    requires
        at + 4 <= data@.len(),
    ensures
        value == be32(data@[at as int], data@[at + 1], data@[at + 2], data@[at + 3]),
{
    let b0: u32 = data[at] as u32;
    let b1: u32 = data[at + 1] as u32;
    let b2: u32 = data[at + 2] as u32;
    let b3: u32 = data[at + 3] as u32;
    b0 * 16777216 + b1 * 65536 + b2 * 256 + b3
}

/// Appends the two bytes of `value`, most significant first.
pub(crate) fn push_u16(buf: &mut Vec<u8>, value: u16)
    ensures
        final(buf)@ == old(buf)@ + be16_bytes(value),
{
    buf.push((value / 256) as u8);
    buf.push((value % 256) as u8);
    assert(buf@ =~= old(buf)@ + be16_bytes(value));
}

/// Appends the four bytes of `value`, most significant first.
pub(crate) fn push_u32(buf: &mut Vec<u8>, value: u32)
    ensures
        final(buf)@ == old(buf)@ + be32_bytes(value),
{
    buf.push((value / 16777216) as u8);
    buf.push(((value / 65536) % 256) as u8);
    buf.push(((value / 256) % 256) as u8);
    buf.push((value % 256) as u8);
    assert(buf@ =~= old(buf)@ + be32_bytes(value));
}

} // verus!
