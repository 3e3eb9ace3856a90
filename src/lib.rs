//! A persistent radix vector with structural sharing, and NaN-boxing helpers
//! for packing integers and payloads into 64-bit words.

use vstd::prelude::*;

mod float62;
mod nan_box;
mod radix_vec;

pub use float62::{
    box_float_bits, box_integer, box_payload, integer_of, is_float, is_integer, is_payload, lemma_integer_round_trip,
    lemma_payload_round_trip, unbox_integer, unbox_integer_unchecked, unbox_payload,
    rotate_left3, rotate_right3, unbox_float_bits, unbox_payload_unchecked, Float62,
};
pub use nan_box::{
    box_signed, box_unsigned, boxed, is_boxed, lemma_signed_round_trip, lemma_unsigned_round_trip,
    magnitude, signed_of, unbox_signed, unbox_unsigned, unbox_unsigned_unchecked, EXPONENT_MASK,
    PAYLOAD_MASK, SIGN_MASK,
};
pub use radix_vec::{
    lemma_boundary_height, lemma_pop_push, lemma_push_keeps_prefix, lemma_pushed_all,
    lemma_pushes_index, lemma_set_round_trip, pushed_all, upow, Item, Iter, Leaf, Node, RadixVec,
};

verus! {

/// Adds two numbers.
pub fn add(x: usize, y: usize) -> (r: usize)
    requires
        x + y <= usize::MAX,
    ensures
        r == x + y,
{
    x + y
}

} // verus!
