use vstd::endian::{endianness, Endian};
use vstd::prelude::*;

use crate::error::{ErrorKind, TestlangError};

verus! {

/// The widths, in bytes, at which numbers are encoded.
pub open spec fn valid_width(n: nat) -> bool {
    n == 1 || n == 2 || n == 4 || n == 8 || n == 16
}

/// The number of values that `n` bytes hold, for each valid width.
pub open spec fn width_modulus(n: nat) -> nat {
    if n == 1 {
        0x100
    } else if n == 2 {
        0x1_0000
    } else if n == 4 {
        0x1_0000_0000
    } else if n == 8 {
        0x1_0000_0000_0000_0000
    } else {
        0x1_0000_0000_0000_0000 * 0x1_0000_0000_0000_0000
    }
}

/// The `n` least significant bytes of `v`, least significant first.
pub open spec fn le_bytes(v: nat, n: nat) -> Seq<u8>
    decreases n,
{
    if n == 0 {
        Seq::empty()
    } else {
        seq![(v % 256) as u8] + le_bytes(v / 256, (n - 1) as nat)
    }
}

/// The number that `b` holds, least significant byte first.
pub open spec fn le_value(b: Seq<u8>) -> nat
    decreases b.len(),
{
    if b.len() == 0 {
        0
    } else {
        b[0] as nat + 256 * le_value(b.drop_first())
    }
}

pub open spec fn reversed(b: Seq<u8>) -> Seq<u8> {
    Seq::new(b.len(), |i: int| b[b.len() - 1 - i])
}

/// `v` in `n` bytes, in the byte order of the machine that runs the code.
pub open spec fn ne_bytes(v: nat, n: nat) -> Seq<u8> {
    match endianness() {
        Endian::Little => le_bytes(v, n),
        Endian::Big => reversed(le_bytes(v, n)),
    }
}

/// The number that `b` holds in the byte order of the machine that runs the code.
pub open spec fn ne_value(b: Seq<u8>) -> nat {
    match endianness() {
        Endian::Little => le_value(b),
        Endian::Big => le_value(reversed(b)),
    }
}

/// `n` bytes encode a number in `n` bytes.
pub proof fn lemma_ne_bytes_len(v: nat, n: nat)
    ensures
        ne_bytes(v, n).len() == n,
{
    lemma_le_bytes_len(v, n);
}

proof fn lemma_le_bytes_len(v: nat, n: nat)
    ensures
        le_bytes(v, n).len() == n,
    decreases n,
{
    if n > 0 {
        lemma_le_bytes_len(v / 256, (n - 1) as nat);
    }
}

/// Relies on u16::to_ne_bytes: the two bytes of `v` in native byte order.
#[verifier::external_body]
fn u16_to_ne(v: u16) -> (r: Vec<u8>)
    ensures
        r@ == ne_bytes(v as nat, 2),
{
    Vec::from(v.to_ne_bytes())
}

/// Relies on u32::to_ne_bytes: the four bytes of `v` in native byte order.
#[verifier::external_body]
fn u32_to_ne(v: u32) -> (r: Vec<u8>)
    ensures
        r@ == ne_bytes(v as nat, 4),
{
    Vec::from(v.to_ne_bytes())
}

/// Relies on u64::to_ne_bytes: the eight bytes of `v` in native byte order.
#[verifier::external_body]
fn u64_to_ne(v: u64) -> (r: Vec<u8>)
    ensures
        r@ == ne_bytes(v as nat, 8),
{
    Vec::from(v.to_ne_bytes())
}

/// Relies on u128::to_ne_bytes: the sixteen bytes of `v` in native byte order.
#[verifier::external_body]
fn u128_to_ne(v: u128) -> (r: Vec<u8>)
    ensures
        r@ == ne_bytes(v as nat, 16),
{
    Vec::from(v.to_ne_bytes())
}

/// Relies on u16::from_ne_bytes: the number in the first two bytes, native byte order.
#[verifier::external_body]
fn u16_from_ne(b: &[u8]) -> (r: u16)
    requires
        b@.len() >= 2,
    ensures
        r as nat == ne_value(b@.subrange(0, 2)),
{
    u16::from_ne_bytes([b[0], b[1]])
}

/// Relies on u32::from_ne_bytes: the number in the first four bytes, native byte order.
#[verifier::external_body]
fn u32_from_ne(b: &[u8]) -> (r: u32)
    requires
        b@.len() >= 4,
    ensures
        r as nat == ne_value(b@.subrange(0, 4)),
{
    u32::from_ne_bytes([b[0], b[1], b[2], b[3]])
}

/// Relies on u64::from_ne_bytes: the number in the first eight bytes, native byte order.
#[verifier::external_body]
fn u64_from_ne(b: &[u8]) -> (r: u64)
    requires
        b@.len() >= 8,
    ensures
        r as nat == ne_value(b@.subrange(0, 8)),
{
    u64::from_ne_bytes([b[0], b[1], b[2], b[3], b[4], b[5], b[6], b[7]])
}

/// Relies on u128::from_ne_bytes: the number in the first sixteen bytes, native byte order.
#[verifier::external_body]
fn u128_from_ne(b: &[u8]) -> (r: u128)
    requires
        b@.len() >= 16,
    ensures
        r as nat == ne_value(b@.subrange(0, 16)),
{
    u128::from_ne_bytes(
        [
            b[0], b[1], b[2], b[3], b[4], b[5], b[6], b[7], b[8], b[9], b[10], b[11], b[12],
            b[13], b[14], b[15],
        ],
    )
}

proof fn lemma_one_byte(v: nat)
    ensures
        ne_bytes(v, 1) == seq![(v % 256) as u8],
{
    let l = le_bytes(v, 1);
    assert(le_bytes(v / 256, 0) == Seq::<u8>::empty());
    assert(l =~= seq![(v % 256) as u8]);
    assert(reversed(l) =~= l);
}

proof fn lemma_one_byte_value(b: Seq<u8>)
    requires
        b.len() == 1,
    ensures
        ne_value(b) == b[0] as nat,
{
    assert(reversed(b) =~= b);
    assert(b.drop_first().len() == 0);
    assert(le_value(b.drop_first()) == 0);
}

/// `value` encoded in `size` bytes in native byte order; only the widths 1, 2,
/// 4, 8 and 16 are encodable.
pub fn value_to_bytes(value: u128, size: usize) -> (r: Result<Vec<u8>, TestlangError>)
    ensures
        match r {
            Ok(v) => valid_width(size as nat) && v@ == ne_bytes(
                value as nat % width_modulus(size as nat),
                size as nat,
            ),
            Err(e) => !valid_width(size as nat) && e@ == ErrorKind::InvalidSize(Some(size as int)),
        },
{
    if size == 1 {
        proof {
            lemma_one_byte(value as nat % 256);
        }
        assert((value as u8) as u128 == value % 0x100) by (bit_vector);
        Ok(vec![#[verifier::truncate] (value as u8)])
    } else if size == 2 {
        assert((value as u16) as u128 == value % 0x1_0000) by (bit_vector);
        Ok(u16_to_ne(#[verifier::truncate] (value as u16)))
    } else if size == 4 {
        assert((value as u32) as u128 == value % 0x1_0000_0000) by (bit_vector);
        Ok(u32_to_ne(#[verifier::truncate] (value as u32)))
    } else if size == 8 {
        assert((value as u64) as u128 == value % 0x1_0000_0000_0000_0000) by (bit_vector);
        Ok(u64_to_ne(#[verifier::truncate] (value as u64)))
    } else if size == 16 {
        assert(width_modulus(16) == 0x1_0000_0000_0000_0000 * 0x1_0000_0000_0000_0000);
        assert((value as nat) < width_modulus(16));
        proof {
            vstd::arithmetic::div_mod::lemma_small_mod(value as nat, width_modulus(16));
        }
        Ok(u128_to_ne(value))
    } else {
        Err(TestlangError::InvalidSize(Some(size as i128)))
    }
}

/// The number held by the first `size` bytes in native byte order; only the
/// widths 1, 2, 4, 8 and 16 are decodable.
pub fn bytes_to_integer(bytes: &[u8], size: usize) -> (r: Result<u128, TestlangError>)
    requires
        valid_width(size as nat) ==> size <= bytes@.len(),
    ensures
        match r {
            Ok(v) => valid_width(size as nat) && v as nat == ne_value(
                bytes@.subrange(0, size as int),
            ),
            Err(e) => !valid_width(size as nat) && e@ == ErrorKind::InvalidSize(Some(size as int)),
        },
{
    if size == 1 {
        proof {
            lemma_one_byte_value(bytes@.subrange(0, 1));
        }
        Ok(bytes[0] as u128)
    } else if size == 2 {
        Ok(u16_from_ne(bytes) as u128)
    } else if size == 4 {
        Ok(u32_from_ne(bytes) as u128)
    } else if size == 8 {
        Ok(u64_from_ne(bytes) as u128)
    } else if size == 16 {
        Ok(u128_from_ne(bytes))
    } else {
        Err(TestlangError::InvalidSize(Some(size as i128)))
    }
}

} // verus!
