use per::{
    box_signed, box_unsigned, is_boxed, unbox_signed, unbox_unsigned, unbox_unsigned_unchecked,
    EXPONENT_MASK, PAYLOAD_MASK, SIGN_MASK,
};

const MAXIMUM: i64 = 1 << 50;

fn unsigned_box_to_f64(payload: u64) -> f64 {
    f64::from_bits(box_unsigned(payload))
}

fn signed_box_to_f64(payload: i64) -> f64 {
    f64::from_bits(box_signed(payload))
}

fn unbox_from_f64(number: f64) -> Option<u64> {
    unbox_unsigned(number.to_bits())
}

#[test]
fn check_mask() {
    assert_ne!(EXPONENT_MASK, f64::NAN.to_bits());
    assert!(f64::from_bits(EXPONENT_MASK).is_nan());
}

#[test]
fn unbox_nan() {
    assert_eq!(unbox_signed(f64::NAN.to_bits()), None);
    assert_eq!(unbox_signed(f64::INFINITY.to_bits()), None);
    assert_eq!(unbox_signed(f64::NEG_INFINITY.to_bits()), None);
}

#[test]
fn box_unsigned_value() {
    assert!(unsigned_box_to_f64(0).is_nan());
    assert!(unsigned_box_to_f64(1).is_nan());
    assert!(unsigned_box_to_f64(7).is_nan());
    assert!(unsigned_box_to_f64(42).is_nan());
}

#[test]
fn unbox_unsigned_value() {
    assert_eq!(unbox_unsigned(42.0f64.to_bits()), None);
    assert_eq!(unbox_unsigned(box_unsigned(0)), Some(0));
    assert_eq!(unbox_unsigned(box_unsigned(1)), Some(1));
    assert_eq!(unbox_unsigned(box_unsigned(7)), Some(7));
    assert_eq!(unbox_unsigned(box_unsigned(42)), Some(42));
}

#[test]
fn unsigned_maximum() {
    let x = MAXIMUM as u64;

    assert_eq!(unbox_unsigned(box_unsigned(x - 1)), Some(x - 1));
    assert_eq!(unbox_unsigned(box_unsigned(x)), Some(0));
}

#[test]
fn box_signed_value() {
    assert!(signed_box_to_f64(0).is_nan());
    assert!(signed_box_to_f64(1).is_nan());
    assert!(signed_box_to_f64(7).is_nan());
    assert!(signed_box_to_f64(42).is_nan());
    assert!(signed_box_to_f64(-1).is_nan());
    assert!(signed_box_to_f64(-7).is_nan());
    assert!(signed_box_to_f64(-42).is_nan());
}

#[test]
fn unbox_signed_value() {
    assert_eq!(unbox_signed(42.0f64.to_bits()), None);
    assert_eq!(unbox_signed(box_signed(0)), Some(0));
    assert_eq!(unbox_signed(box_signed(1)), Some(1));
    assert_eq!(unbox_signed(box_signed(7)), Some(7));
    assert_eq!(unbox_signed(box_signed(42)), Some(42));
    assert_eq!(unbox_signed(box_signed(-1)), Some(-1));
    assert_eq!(unbox_signed(box_signed(-7)), Some(-7));
    assert_eq!(unbox_signed(box_signed(-42)), Some(-42));
}

#[test]
fn signed_maximum() {
    assert_eq!(unbox_signed(box_signed(MAXIMUM - 1)), Some(MAXIMUM - 1));
    assert_eq!(unbox_signed(box_signed(MAXIMUM)), Some(0));
}

#[test]
fn signed_minimum() {
    assert_eq!(unbox_signed(box_signed(1 - MAXIMUM)), Some(1 - MAXIMUM));
    assert_eq!(unbox_signed(box_signed(-MAXIMUM)), Some(0));
}

#[test]
fn unbox_f64_value() {
    assert_eq!(unbox_from_f64(0.0), None);
    assert_eq!(unbox_from_f64(-1.0), None);
    assert_eq!(unbox_from_f64(1.0), None);
    assert_eq!(unbox_from_f64(42.0), None);
}

#[test]
fn box_bit_layout() {
    assert_eq!(box_unsigned(5), EXPONENT_MASK | 5);
    assert_eq!(box_signed(-5), SIGN_MASK | EXPONENT_MASK | 5);
    assert_eq!(box_signed(5), EXPONENT_MASK | 5);
    assert_eq!(unbox_unsigned_unchecked(u64::MAX), PAYLOAD_MASK);
    assert!(is_boxed(box_signed(i64::MIN)));
    assert!(!is_boxed(1.5f64.to_bits()));
    assert_eq!(unbox_signed(box_signed(i64::MIN)), Some(0));
}
