use building_blocks_storage::{IsEmpty, Sd16, Sd8, SignedDistance};

#[test]
fn sign_and_bounds() {
    assert!(Sd8(-1).is_negative());
    assert!(!Sd8(0).is_negative());
    assert!(Sd16(-300).is_negative());
    assert!(!Sd16(300).is_negative());
    assert_eq!(Sd8::default(), Sd8(127));
    assert_eq!(Sd16::default(), Sd16(32767));
    assert_eq!(Sd8::neg_one(), Sd8(i8::MIN));
    assert_eq!(Sd8::one(), Sd8(i8::MAX));
    assert_eq!(Sd16::neg_one(), Sd16(i16::MIN));
    assert_eq!(Sd16::one(), Sd16(i16::MAX));
    assert!(Sd8(-1) < Sd8(0));
}

#[test]
fn occupancy_of_values() {
    assert!(Sd8(5).is_empty());
    assert!(!Sd8(-5).is_empty());
    assert!(!Sd16(-1).is_empty());
    assert!(false.is_empty());
    assert!(!true.is_empty());
}
