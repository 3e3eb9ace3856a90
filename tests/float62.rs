use per::{
    box_float_bits, box_integer, box_payload, is_float, is_integer, is_payload, unbox_integer,
    unbox_float_bits, unbox_integer_unchecked, unbox_payload, unbox_payload_unchecked, Float62,
};

#[test]
fn integer() {
    assert!(is_integer(box_integer(0)));
    assert_eq!(unbox_integer(box_integer(0)), Some(0));
    assert_eq!(unbox_integer(box_integer(1)), Some(1));
    assert_eq!(unbox_integer(box_integer(-1)), Some(-1));
    assert_eq!(unbox_integer(box_integer(42)), Some(42));
    assert_eq!(unbox_integer(box_integer(-42)), Some(-42));
}

#[test]
fn payload() {
    assert!(is_payload(box_payload(0)));
    assert_eq!(unbox_payload(box_payload(0)), Some(0));
    assert_eq!(unbox_payload(box_payload(1)), Some(1));
    assert_eq!(unbox_payload(box_payload(42)), Some(42));
}

#[test]
fn integer_bits_are_shifted() {
    assert_eq!(box_integer(3), 6);
    assert_eq!(box_integer(-1), u64::MAX - 1);
    assert_eq!(unbox_integer_unchecked(u64::MAX - 1), -1);
    assert_eq!(unbox_integer(7), None);
}

#[test]
fn integer_range_edges() {
    let largest = (1i64 << 62) - 1;
    let smallest = -(1i64 << 62);
    assert_eq!(unbox_integer(box_integer(largest)), Some(largest));
    assert_eq!(unbox_integer(box_integer(smallest)), Some(smallest));
    // one past the range loses its top bit
    assert_eq!(unbox_integer(box_integer(1i64 << 62)), Some(smallest));
}

#[test]
fn payload_bits_and_tags() {
    assert_eq!(box_payload(5), 21);
    assert_eq!(unbox_payload_unchecked(21), 5);
    assert_eq!(unbox_payload(box_integer(5)), None);
    assert!(!is_payload(box_integer(5)));
    assert!(is_float(0b111));
    assert!(!is_float(box_payload(5)));
    assert!(!is_float(box_integer(5)));
    assert_eq!(unbox_payload(box_payload(1u64 << 62)), Some(0));
}

#[test]
fn float62_conversions() {
    let x = Float62::from_integer(-42);
    assert_eq!(x.to_integer(), Some(-42));
    assert_eq!(x.to_integer_unchecked(), -42);
    assert_eq!(x.to_payload(), None);
    assert_eq!(x.to_bits(), box_integer(-42));

    let p = Float62::from_payload(42);
    assert_eq!(p.to_payload(), Some(42));
    assert_eq!(p.to_payload_unchecked(), 42);
    assert_eq!(p.to_integer(), None);
    assert_eq!(Float62::from_bits(p.to_bits()), p);
    assert_eq!(Float62::default(), Float62::from_integer(0));
}

#[test]
fn float_bits_rotate_and_tag() {
    // zeros of either sign are kept as they are
    assert_eq!(box_float_bits(0), 0);
    assert_eq!(box_float_bits(1u64 << 63), 1u64 << 63);
    let one = 1.0f64.to_bits();
    let boxed = box_float_bits(one);
    assert!(is_float(boxed));
    assert_eq!(boxed, one.rotate_left(3) | 0b11);
    assert_eq!(unbox_float_bits(boxed), one);
    for x in [1.0f64, -1.0, 42.0, -42.0, 0.5, 1234.5] {
        assert_eq!(f64::from_bits(unbox_float_bits(box_float_bits(x.to_bits()))), x);
    }
}
