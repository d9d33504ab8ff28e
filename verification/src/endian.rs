//! Big-endian integers as they stand in a class file, read and written by
//! the `byteorder` crate.

use byteorder::{BigEndian, ByteOrder};
use vstd::prelude::*;

verus! {

/// The 16-bit number whose big-endian form is `hi`, `lo`.
pub open spec fn u16_from_be(hi: u8, lo: u8) -> u16 {
    (hi as int * 0x100 + lo as int) as u16
}

/// The 32-bit number whose big-endian form is `b0`, `b1`, `b2`, `b3`.
pub open spec fn u32_from_be(b0: u8, b1: u8, b2: u8, b3: u8) -> u32 {
    (b0 as int * 0x100_0000 + b1 as int * 0x1_0000 + b2 as int * 0x100 + b3 as int) as u32
}

/// The two bytes of `n`, most significant first.
pub open spec fn u16_to_be(n: u16) -> Seq<u8> {
    seq![(n as int / 0x100) as u8, (n as int % 0x100) as u8]
}

/// The four bytes of `n`, most significant first.
pub open spec fn u32_to_be(n: u32) -> Seq<u8> {
    seq![
        (n as int / 0x100_0000) as u8,
        (n as int / 0x1_0000 % 0x100) as u8,
        (n as int / 0x100 % 0x100) as u8,
        (n as int % 0x100) as u8,
    ]
}

/// Writing what was read gives the same two bytes back.
pub proof fn lemma_u16_be_round_trip(hi: u8, lo: u8)
    ensures
        u16_to_be(u16_from_be(hi, lo)) == seq![hi, lo],
{
    let n = u16_from_be(hi, lo);
    assert(n as int == hi as int * 0x100 + lo as int);
    assert(u16_to_be(n) =~= seq![hi, lo]);
}

/// Reading what was written gives the same number back.
pub proof fn lemma_u16_be_inverse(n: u16)
    ensures
        u16_to_be(n).len() == 2,
        u16_from_be(u16_to_be(n)[0], u16_to_be(n)[1]) == n,
{
}

/// If `x` is `q` times `d` plus a remainder `r` below `d`, then `q` and `r` are
/// the quotient and the remainder of `x` by `d`.
proof fn lemma_div_mod_of_parts(x: int, d: int, q: int, r: int)
    requires
        d > 0,
        0 <= r < d,
        x == q * d + r,
    ensures
        x / d == q,
        x % d == r,
{
    vstd::arithmetic::div_mod::lemma_fundamental_div_mod_converse(x, d, q, r);
}

/// Writing what was read gives the same four bytes back.
pub proof fn lemma_u32_be_round_trip(b0: u8, b1: u8, b2: u8, b3: u8)
    ensures
        u32_to_be(u32_from_be(b0, b1, b2, b3)) == seq![b0, b1, b2, b3],
{
    let n = u32_from_be(b0, b1, b2, b3) as int;
    assert(n == b0 as int * 0x100_0000 + b1 as int * 0x1_0000 + b2 as int * 0x100 + b3 as int);
    lemma_div_mod_of_parts(
        n,
        0x100_0000,
        b0 as int,
        b1 as int * 0x1_0000 + b2 as int * 0x100 + b3 as int,
    );
    lemma_div_mod_of_parts(n, 0x1_0000, b0 as int * 0x100 + b1 as int, b2 as int * 0x100 + b3 as int);
    lemma_div_mod_of_parts(b0 as int * 0x100 + b1 as int, 0x100, b0 as int, b1 as int);
    lemma_div_mod_of_parts(
        n,
        0x100,
        b0 as int * 0x1_0000 + b1 as int * 0x100 + b2 as int,
        b3 as int,
    );
    lemma_div_mod_of_parts(
        b0 as int * 0x1_0000 + b1 as int * 0x100 + b2 as int,
        0x100,
        b0 as int * 0x100 + b1 as int,
        b2 as int,
    );
    assert(u32_to_be(n as u32) =~= seq![b0, b1, b2, b3]);
}

/// `byteorder::BigEndian::read_u16` on a slice of at least two bytes (it
/// panics on a shorter one): the number that the first two bytes spell, most
/// significant byte first.
#[verifier::external_body]
pub(crate) fn read_u16_be(buf: &[u8]) -> (n: u16)
    requires
        buf@.len() >= 2,
    ensures
        n == u16_from_be(buf@[0], buf@[1]),
{
    BigEndian::read_u16(buf)
}

/// `byteorder::BigEndian::read_u32` on a slice of at least four bytes (it
/// panics on a shorter one): the number that the first four bytes spell, most
/// significant byte first.
#[verifier::external_body]
pub(crate) fn read_u32_be(buf: &[u8]) -> (n: u32)
    requires
        buf@.len() >= 4,
    ensures
        n == u32_from_be(buf@[0], buf@[1], buf@[2], buf@[3]),
{
    BigEndian::read_u32(buf)
}

/// `byteorder::BigEndian::write_u16` into a buffer of two bytes: the two bytes
/// of `n`, most significant first.
#[verifier::external_body]
pub(crate) fn u16_be_bytes(n: u16) -> (buf: [u8; 2])
    ensures
        buf@ == u16_to_be(n),
{
    let mut buf: [u8; 2] = [0u8; 2];
    BigEndian::write_u16(&mut buf, n);
    buf
}

/// `byteorder::BigEndian::write_u32` into a buffer of four bytes: the four
/// bytes of `n`, most significant first.
#[verifier::external_body]
pub(crate) fn u32_be_bytes(n: u32) -> (buf: [u8; 4])
    ensures
        buf@ == u32_to_be(n),
{
    let mut buf: [u8; 4] = [0u8; 4];
    BigEndian::write_u32(&mut buf, n);
    buf
}

} // verus!
