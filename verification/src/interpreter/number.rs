//! The numeric payload of a value: eight big-endian bytes that are read either
//! as a two's-complement 64-bit integer or as an IEEE-754 binary64 number.
//!
//! This file converts between bytes, bit patterns and signed integers.
use vstd::prelude::*;

verus! {

/// Two to the 63rd power: the sign bit of a 64-bit pattern.
pub const SIGN_BIT: u64 = 0x8000_0000_0000_0000;

/// Two to the 52nd power: the hidden bit of a normal binary64 mantissa.
pub const HIDDEN_BIT: u64 = 0x0010_0000_0000_0000;

/// The biased exponent that marks infinities and NaNs.
pub const EXPONENT_SPECIAL: u64 = 2047;

/// The 64-bit pattern that eight big-endian bytes spell.
pub open spec fn payload_bits(bytes: [u8; 8]) -> u64 {
    (bytes[0] as int * 0x0100_0000_0000_0000 + bytes[1] as int * 0x0001_0000_0000_0000 + bytes[2] as int
        * 0x0000_0100_0000_0000 + bytes[3] as int * 0x0000_0001_0000_0000 + bytes[4] as int * 0x0100_0000
        + bytes[5] as int * 0x0001_0000 + bytes[6] as int * 0x0100 + bytes[7] as int) as u64
}

/// The signed integer that a 64-bit pattern stands for in two's complement.
pub open spec fn bits_as_int(bits: u64) -> i64 {
    if bits < SIGN_BIT {
        bits as i64
    } else {
        (bits - 0x1_0000_0000_0000_0000) as i64
    }
}

/// The 64-bit two's-complement pattern of a signed integer.
pub open spec fn int_as_bits(value: i64) -> u64 {
    if value >= 0 {
        value as u64
    } else {
        (value + 0x1_0000_0000_0000_0000) as u64
    }
}

/// Reads eight big-endian bytes as one 64-bit pattern.
pub fn bits_from_bytes(bytes: &[u8; 8]) -> (bits: u64)
    ensures
        bits == payload_bits(*bytes),
{
    (bytes[0] as u64) * 0x0100_0000_0000_0000 + (bytes[1] as u64) * 0x0001_0000_0000_0000 + (
    bytes[2] as u64) * 0x0000_0100_0000_0000 + (bytes[3] as u64) * 0x0000_0001_0000_0000 + (
    bytes[4] as u64) * 0x0100_0000 + (bytes[5] as u64) * 0x0001_0000 + (bytes[6] as u64) * 0x0100 + (
    bytes[7] as u64)
}

/// Spells a 64-bit pattern as eight big-endian bytes.
pub fn bytes_from_bits(bits: u64) -> (bytes: [u8; 8])
    ensures
        payload_bits(bytes) == bits,
{
    let b7: u64 = bits % 256;
    let r6: u64 = bits / 256;
    let b6: u64 = r6 % 256;
    let r5: u64 = r6 / 256;
    let b5: u64 = r5 % 256;
    let r4: u64 = r5 / 256;
    let b4: u64 = r4 % 256;
    let r3: u64 = r4 / 256;
    let b3: u64 = r3 % 256;
    let r2: u64 = r3 / 256;
    let b2: u64 = r2 % 256;
    let r1: u64 = r2 / 256;
    let b1: u64 = r1 % 256;
    let b0: u64 = r1 / 256;
    [b0 as u8, b1 as u8, b2 as u8, b3 as u8, b4 as u8, b5 as u8, b6 as u8, b7 as u8]
}

/// Reads a 64-bit pattern as a signed integer.
pub fn int_from_bits(bits: u64) -> (value: i64)
    ensures
        value == bits_as_int(bits),
        int_as_bits(value) == bits,
{
    if bits < SIGN_BIT {
        bits as i64
    } else {
        let low: u64 = bits - SIGN_BIT;
        (low as i64) + i64::MIN
    }
}

/// The two's-complement pattern of a signed integer.
pub fn bits_from_int(value: i64) -> (bits: u64)
    ensures
        bits == int_as_bits(value),
        bits_as_int(bits) == value,
{
    if value >= 0 {
        value as u64
    } else {
        let low: i64 = value - i64::MIN;
        (low as u64) + SIGN_BIT
    }
}

/// Spells a signed integer as eight big-endian bytes.
pub fn bytes_from_int(value: i64) -> (bytes: [u8; 8])
    ensures
        payload_bits(bytes) == int_as_bits(value),
        bits_as_int(payload_bits(bytes)) == value,
{
    bytes_from_bits(bits_from_int(value))
}

} // verus!
