//! Tagged 64-bit words: an integer in the upper 63 bits (low bit 0), a
//! payload in the upper 62 bits (low bits 01), or a float (low bits 11).

use vstd::prelude::*;

verus! {

/// The integer held in the upper 63 bits of `number`, read as signed.
pub open spec fn integer_of(number: u64) -> int {
    (number as i64 as int) / 2
}

/// Boxes a 63-bit signed integer.
pub fn box_integer(integer: i64) -> (r: u64)
    ensures
        r % 2 == 0,
        r / 2 == (integer as u64) % 0x8000_0000_0000_0000,
        -0x4000_0000_0000_0000 <= integer < 0x4000_0000_0000_0000 ==> integer_of(r) == integer,
{
    let bits = integer as u64;
    let r = bits << 1u64;
    proof {
        assert(r % 2 == 0 && r / 2 == bits % 0x8000_0000_0000_0000) by (bit_vector)
            requires r == bits << 1u64;
        assert(-0x4000_0000_0000_0000 <= integer < 0x4000_0000_0000_0000 ==> (r as i64) == 2 * integer)
            by (bit_vector)
            requires r == bits << 1u64, bits == integer as u64;
    }
    r
}

/// Unboxes a 63-bit signed integer.
pub fn unbox_integer(number: u64) -> (r: Option<i64>)
    ensures
        r == if number % 2 == 0 { Some(integer_of(number) as i64) } else { None::<i64> },
{
    if is_integer(number) {
        Some(unbox_integer_unchecked(number))
    } else {
        None
    }
}

/// Unboxes a 63-bit signed integer without any tag check.
pub fn unbox_integer_unchecked(number: u64) -> (r: i64)
    ensures
        r == integer_of(number),
{
    let signed = number as i64;
    let r = signed >> 1u64;
    proof {
        assert(r as int == (signed as int) / 2) by (bit_vector)
            requires r == signed >> 1u64;
    }
    r
}

/// Returns `true` if a number is an integer.
pub fn is_integer(number: u64) -> (r: bool)
    ensures
        r == (number % 2 == 0),
{
    proof {
        assert((number & 1 == 0) == (number % 2 == 0)) by (bit_vector);
    }
    number & 1 == 0
}

/// Boxes a 62-bit payload.
pub fn box_payload(payload: u64) -> (r: u64)
    ensures
        r % 4 == 1,
        r / 4 == payload % 0x4000_0000_0000_0000,
{
    let r = (payload << 2u64) | 1;
    proof {
        assert(r % 4 == 1 && r / 4 == payload % 0x4000_0000_0000_0000) by (bit_vector)
            requires r == (payload << 2u64) | 1;
    }
    r
}

/// Unboxes a 62-bit payload.
pub fn unbox_payload(number: u64) -> (r: Option<u64>)
    ensures
        r == if number % 4 == 1 { Some(number / 4) } else { None::<u64> },
{
    if is_payload(number) {
        Some(unbox_payload_unchecked(number))
    } else {
        None
    }
}

/// Unboxes a 62-bit payload without any tag check.
pub fn unbox_payload_unchecked(number: u64) -> (r: u64)
    ensures
        r == number / 4,
{
    proof {
        assert(number >> 2u64 == number / 4) by (bit_vector);
    }
    number >> 2u64
}

/// Returns `true` if a number is a payload.
pub fn is_payload(number: u64) -> (r: bool)
    ensures
        r == (number % 4 == 1),
{
    proof {
        assert((number & 3 == 1) == (number % 4 == 1)) by (bit_vector);
    }
    number & 0b11 == 1
}

/// Returns `true` if a number is a float.
pub fn is_float(number: u64) -> (r: bool)
    ensures
        r == (number % 4 == 3),
{
    proof {
        assert((number & 3 == 3) == (number % 4 == 3)) by (bit_vector);
    }
    number & 0b11 == 0b11
}

/// `x` rotated left by three bits.
pub open spec fn rotate_left3(x: u64) -> u64 {
    (x << 3u64) | (x >> 61u64)
}

/// `x` rotated right by three bits.
pub open spec fn rotate_right3(x: u64) -> u64 {
    (x >> 3u64) | (x << 61u64)
}

/// Boxes the bits of a 64-bit float: a zero of either sign stays as it is
/// (and so reads as the integer zero or as no tagged value); any other value
/// is rotated left by three bits, bringing the sign and the two top exponent
/// bits to the bottom, and tagged `11` over the two exponent bits.
pub fn box_float_bits(bits: u64) -> (r: u64)
    ensures
        r == if bits & 0x7fff_ffff_ffff_ffff == 0 { bits } else { rotate_left3(bits) | 3 },
        bits & 0x7fff_ffff_ffff_ffff != 0 ==> r % 4 == 3,
{
    if bits & 0x7fff_ffff_ffff_ffff == 0 {
        bits
    } else {
        let r = ((bits << 3u64) | (bits >> 61u64)) | 0b11;
        proof {
            assert(r & 3 == 3 ==> r % 4 == 3) by (bit_vector);
            assert(r & 3 == 3) by (bit_vector)
                requires r == ((bits << 3u64) | (bits >> 61u64)) | 3;
        }
        r
    }
}

/// Unboxes the bits of a 64-bit float without any tag check: the two tag
/// bits are replaced by the exponent bits `10` (top bit of the box clear) or
/// `01` (set), and the word is rotated back.
pub fn unbox_float_bits(number: u64) -> (r: u64)
    ensures
        r == rotate_right3((number & !3u64) | (2 - number / 0x8000_0000_0000_0000) as u64),
{
    proof {
        assert(number >> 63u64 == number / 0x8000_0000_0000_0000 && number >> 63u64 <= 1) by (bit_vector);
    }
    let exponent_tail = 2 - (number >> 63u64);
    let x = (number & !0b11u64) | exponent_tail;
    (x >> 3u64) | (x << 61u64)
}

/// An integer in the 63-bit range comes back unchanged from its box.
pub proof fn lemma_integer_round_trip(integer: i64, boxed: u64)
    requires
        -0x4000_0000_0000_0000 <= integer < 0x4000_0000_0000_0000,
        boxed % 2 == 0,
        boxed / 2 == (integer as u64) % 0x8000_0000_0000_0000,
    ensures
        integer_of(boxed) == integer,
{
    assert(-0x4000_0000_0000_0000 <= integer < 0x4000_0000_0000_0000 && boxed % 2 == 0
        && boxed / 2 == (integer as u64) % 0x8000_0000_0000_0000 ==> boxed as i64 == 2 * integer)
        by (bit_vector);
}

/// A payload in the 62-bit range comes back unchanged from its box.
pub proof fn lemma_payload_round_trip(payload: u64, boxed: u64)
    requires
        payload < 0x4000_0000_0000_0000,
        boxed % 4 == 1,
        boxed / 4 == payload % 0x4000_0000_0000_0000,
    ensures
        boxed / 4 == payload,
{
}

/// A tagged 64-bit word that holds an integer, a payload or a float.
#[derive(Clone, Copy, Debug, PartialEq, Eq, Structural, Default)]
pub struct Float62(u64);

impl View for Float62 {
    type V = u64;

    closed spec fn view(&self) -> u64 {
        self.0
    }
}

impl Float62 {
    /// Creates a word from its raw representation.
    pub fn from_bits(number: u64) -> (r: Self)
        ensures
            r@ == number,
    {
        Float62(number)
    }

    /// Returns the raw representation.
    pub fn to_bits(self) -> (r: u64)
        ensures
            r == self@,
    {
        self.0
    }

    /// Creates a word from a payload.
    pub fn from_payload(payload: u64) -> (r: Self)
        ensures
            r@ % 4 == 1,
            r@ / 4 == payload % 0x4000_0000_0000_0000,
    {
        Self::from_bits(box_payload(payload))
    }

    /// Creates a word from an integer.
    pub fn from_integer(integer: i64) -> (r: Self)
        ensures
            r@ % 2 == 0,
            r@ / 2 == (integer as u64) % 0x8000_0000_0000_0000,
            -0x4000_0000_0000_0000 <= integer < 0x4000_0000_0000_0000 ==> integer_of(r@) == integer,
    {
        Self::from_bits(box_integer(integer))
    }

    /// Returns the payload, or `None` where the word holds none.
    pub fn to_payload(self) -> (r: Option<u64>)
        ensures
            r == if self@ % 4 == 1 { Some(self@ / 4) } else { None::<u64> },
    {
        unbox_payload(self.0)
    }

    /// Returns the payload without any tag check.
    pub fn to_payload_unchecked(self) -> (r: u64)
        ensures
            r == self@ / 4,
    {
        unbox_payload_unchecked(self.0)
    }

    /// Returns the integer, or `None` where the word holds none.
    pub fn to_integer(self) -> (r: Option<i64>)
        ensures
            r == if self@ % 2 == 0 { Some(integer_of(self@) as i64) } else { None::<i64> },
    {
        unbox_integer(self.0)
    }

    /// Returns the integer without any tag check.
    pub fn to_integer_unchecked(self) -> (r: i64)
        ensures
            r == integer_of(self@),
    {
        unbox_integer_unchecked(self.0)
    }
}

} // verus!
