//! NaN boxing for 64-bit floats: an integer of up to 50 bits, with an
//! optional sign, stored in the mantissa of a quiet NaN.

use vstd::prelude::*;

verus! {

/// The sign bit.
pub const SIGN_MASK: u64 = 0x8000_0000_0000_0000;

/// The exponent bits, all set, and the two top mantissa bits that mark a box.
pub const EXPONENT_MASK: u64 = 0x7ffc_0000_0000_0000;

/// The 50 mantissa bits that hold the payload.
pub const PAYLOAD_MASK: u64 = 0x0003_ffff_ffff_ffff;

/// Whether `number` carries the box marker.
pub open spec fn boxed(number: u64) -> bool {
    number & EXPONENT_MASK == EXPONENT_MASK
}

/// The signed integer held in a boxed `number`.
pub open spec fn signed_of(number: u64) -> int {
    if number & SIGN_MASK == 0 {
        (number % 0x4_0000_0000_0000) as int
    } else {
        -((number % 0x4_0000_0000_0000) as int)
    }
}

/// The magnitude of `x`.
pub open spec fn magnitude(x: int) -> int {
    if x < 0 { -x } else { x }
}

/// Boxes a 50-bit unsigned integer.
pub fn box_unsigned(payload: u64) -> (r: u64)
    ensures
        r == EXPONENT_MASK | payload,
        boxed(r),
        r % 0x4_0000_0000_0000 == payload % 0x4_0000_0000_0000,
        payload < 0x8000_0000_0000_0000 ==> r & SIGN_MASK == 0,
{
    let r = EXPONENT_MASK | payload;
    proof {
        assert(r & EXPONENT_MASK == EXPONENT_MASK && r % 0x4_0000_0000_0000 == payload % 0x4_0000_0000_0000
            && (payload < 0x8000_0000_0000_0000 ==> r & SIGN_MASK == 0)) by (bit_vector)
            requires r == 0x7ffc_0000_0000_0000u64 | payload;
    }
    r
}

/// Unboxes a 50-bit unsigned integer.
pub fn unbox_unsigned(number: u64) -> (r: Option<u64>)
    ensures
        r == if boxed(number) { Some((number % 0x4_0000_0000_0000) as u64) } else { None::<u64> },
{
    if is_boxed(number) {
        Some(unbox_unsigned_unchecked(number))
    } else {
        None
    }
}

/// Unboxes a 50-bit unsigned integer without any marker check.
pub fn unbox_unsigned_unchecked(number: u64) -> (r: u64)
    ensures
        r == number % 0x4_0000_0000_0000,
{
    proof {
        assert(number & 0x0003_ffff_ffff_ffffu64 == number % 0x4_0000_0000_0000) by (bit_vector);
    }
    number & PAYLOAD_MASK
}

/// Boxes a 51-bit signed integer: the sign goes to the sign bit and the
/// magnitude to the payload.
pub fn box_signed(payload: i64) -> (r: u64)
    ensures
        boxed(r),
        r % 0x4_0000_0000_0000 == magnitude(payload as int) % 0x4_0000_0000_0000,
        (r & SIGN_MASK == 0) == (payload >= 0),
{
    let size: u64 = if payload < 0 {
        (0i128 - payload as i128) as u64
    } else {
        payload as u64
    };
    let sign: u64 = if payload < 0 { SIGN_MASK } else { 0 };
    let unsigned = box_unsigned(size);
    let r = sign | unsigned;
    proof {
        assert(r & EXPONENT_MASK == EXPONENT_MASK && r % 0x4_0000_0000_0000 == unsigned % 0x4_0000_0000_0000
            && ((r & SIGN_MASK == 0) == (sign == 0))) by (bit_vector)
            requires
                r == sign | unsigned,
                sign == 0 || sign == 0x8000_0000_0000_0000u64,
                sign == 0 ==> unsigned & 0x8000_0000_0000_0000u64 == 0,
                unsigned & 0x7ffc_0000_0000_0000u64 == 0x7ffc_0000_0000_0000u64,
        ;
    }
    r
}

/// Unboxes a 51-bit signed integer.
pub fn unbox_signed(number: u64) -> (r: Option<i64>)
    ensures
        r == if boxed(number) { Some(signed_of(number) as i64) } else { None::<i64> },
{
    if let Some(value) = unbox_unsigned(number) {
        if number & SIGN_MASK == 0 {
            Some(value as i64)
        } else {
            Some(-(value as i64))
        }
    } else {
        None
    }
}

/// Returns `true` if a number carries the box marker.
pub fn is_boxed(number: u64) -> (r: bool)
    ensures
        r == boxed(number),
{
    number & EXPONENT_MASK == EXPONENT_MASK
}

/// A payload below 2^50 comes back unchanged from an unsigned box; a
/// larger one comes back reduced modulo 2^50.
pub proof fn lemma_unsigned_round_trip(payload: u64, boxed_value: u64)
    requires
        boxed(boxed_value),
        boxed_value % 0x4_0000_0000_0000 == payload % 0x4_0000_0000_0000,
    ensures
        payload < 0x4_0000_0000_0000 ==> boxed_value % 0x4_0000_0000_0000 == payload,
{
}

/// A signed integer whose magnitude is below 2^50 comes back unchanged
/// from a signed box.
pub proof fn lemma_signed_round_trip(payload: i64, boxed_value: u64)
    requires
        -0x4_0000_0000_0000 < payload < 0x4_0000_0000_0000,
        boxed_value % 0x4_0000_0000_0000 == magnitude(payload as int) % 0x4_0000_0000_0000,
        (boxed_value & SIGN_MASK == 0) == (payload >= 0),
    ensures
        signed_of(boxed_value) == payload,
{
}

} // verus!
