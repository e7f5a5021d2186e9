use byteorder::{BigEndian, ByteOrder};
use vstd::prelude::*;

verus! {

/// The value of two bytes read most significant first.
pub open spec fn be_u16(b: Seq<u8>, at: int) -> u16 {
    (b[at] as int * 0x100 + b[at + 1] as int) as u16
}

/// The value of four bytes read most significant first.
pub open spec fn be_u32(b: Seq<u8>, at: int) -> u32 {
    (b[at] as int * 0x100_0000 + b[at + 1] as int * 0x1_0000 + b[at + 2] as int * 0x100
        + b[at + 3] as int) as u32
}

/// The four bytes of `n`, most significant first.
pub open spec fn be_bytes_u32(n: u32) -> Seq<u8> {
    seq![
        (n as int / 0x100_0000) as u8,
        (n as int / 0x1_0000 % 0x100) as u8,
        (n as int / 0x100 % 0x100) as u8,
        (n as int % 0x100) as u8,
    ]
}

/// Relies on `byteorder::BigEndian::read_u16`: the first two bytes of `buf`,
/// most significant first (it panics on fewer than two).
#[verifier::external_body]
fn read_be_u16(buf: &[u8]) -> (r: u16)
    requires
        buf@.len() >= 2,
    ensures
        r == be_u16(buf@, 0),
{
    BigEndian::read_u16(buf)
}

/// Relies on `byteorder::BigEndian::read_u32`: the first four bytes of
/// `buf`, most significant first (it panics on fewer than four).
#[verifier::external_body]
fn read_be_u32(buf: &[u8]) -> (r: u32)
    requires
        buf@.len() >= 4,
    ensures
        r == be_u32(buf@, 0),
{
    BigEndian::read_u32(buf)
}

/// Relies on `byteorder::BigEndian::write_u32`: it stores the four bytes of
/// `n`, most significant first, at the start of a four-byte buffer.
#[verifier::external_body]
fn write_be_u32(n: u32) -> (r: Vec<u8>)
    ensures
        r@ == be_bytes_u32(n),
{
    let mut buf = [0u8; 4];
    BigEndian::write_u32(&mut buf, n);
    buf.to_vec()
}

/// The big-endian 16-bit word at `at` in `data`.
pub fn u16_at(data: &[u8], at: usize) -> (r: u16)
    requires
        at + 2 <= data.len(),
    ensures
        r == be_u16(data@, at as int),
{
    let part = vstd::slice::slice_subrange(data, at, at + 2);
    read_be_u16(part)
}

/// The big-endian 32-bit word at `at` in `data`.
pub fn u32_at(data: &[u8], at: usize) -> (r: u32)
    requires
        at + 4 <= data.len(),
    ensures
        r == be_u32(data@, at as int),
{
    let part = vstd::slice::slice_subrange(data, at, at + 4);
    read_be_u32(part)
}

/// Appends the four big-endian bytes of `n` to `out`.
pub fn push_u32(out: &mut Vec<u8>, n: u32)
    ensures
        final(out)@ == old(out)@ + be_bytes_u32(n),
{
    let mut b = write_be_u32(n);
    out.append(&mut b);
}

/// Reading back the four bytes written for `n` gives `n`.
pub proof fn lemma_be_u32_round_trip(n: u32)
    ensures
        be_u32(be_bytes_u32(n), 0) == n,
{
    let b = be_bytes_u32(n);
    assert(b[0] as int * 0x100_0000 + b[1] as int * 0x1_0000 + b[2] as int * 0x100 + b[3] as int
        == n as int) by (nonlinear_arith)
        requires
            b[0] == (n as int / 0x100_0000) as u8,
            b[1] == (n as int / 0x1_0000 % 0x100) as u8,
            b[2] == (n as int / 0x100 % 0x100) as u8,
            b[3] == (n as int % 0x100) as u8,
            0 <= n < 0x1_0000_0000,
    ;
}

/// Splits a 16-bit word into its high and low bytes, in that order.
pub fn shift_verbose_split_u16(short_16: u16) -> (r: [u8; 2])
    ensures
        r@ == seq![(short_16 as int / 256) as u8, (short_16 as int % 256) as u8],
{
    let high_byte: u8 = (short_16 >> 8) as u8;
    let low_byte: u8 = (short_16 & 0xff) as u8;
    assert(short_16 >> 8 == short_16 / 256) by (bit_vector);
    assert(short_16 & 0xff == short_16 % 256) by (bit_vector);
    let r = [high_byte, low_byte];
    assert(r@ =~= seq![(short_16 as int / 256) as u8, (short_16 as int % 256) as u8]);
    r
}

} // verus!
