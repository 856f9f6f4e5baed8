use rust_heaps::key::HeapKey;

#[test]
fn unsigned_keys_are_lowered_down_to_zero() {
    assert_eq!(5u8.decreased(&3), Some(2));
    assert_eq!(5u8.decreased(&5), Some(0));
    assert_eq!(5u8.decreased(&6), None);
    assert_eq!(0u8.decreased(&0), Some(0));
    assert_eq!(255u8.decreased(&255), Some(0));
    assert_eq!(1000u16.decreased(&1), Some(999));
    assert_eq!(7u32.decreased(&8), None);
    assert_eq!(u64::MAX.decreased(&1), Some(u64::MAX - 1));
    assert_eq!(10usize.decreased(&4), Some(6));
}

#[test]
fn signed_keys_refuse_a_negative_delta() {
    assert_eq!(5i32.decreased(&-1), None);
    assert_eq!(5i32.decreased(&0), Some(5));
    assert_eq!(5i32.decreased(&7), Some(-2));
    assert_eq!((-5i64).decreased(&3), Some(-8));
    assert_eq!(0i64.decreased(&-3), None);
}

#[test]
fn signed_keys_stop_at_the_least_value() {
    assert_eq!((i32::MIN + 2).decreased(&2), Some(i32::MIN));
    assert_eq!((i32::MIN + 2).decreased(&3), None);
    assert_eq!(i32::MIN.decreased(&0), Some(i32::MIN));
    assert_eq!(i32::MAX.decreased(&i32::MAX), Some(0));
    assert_eq!((-2i64).decreased(&i64::MAX), None);
    assert_eq!((-1i64).decreased(&i64::MAX), Some(i64::MIN));
}

#[test]
fn keys_are_ordered_by_their_value() {
    assert!(1u8.less_than(&2));
    assert!(!2u8.less_than(&2));
    assert!(!3u8.less_than(&2));
    assert!((-1i32).less_than(&0));
    assert!(!0i32.less_than(&-1));
    assert!(0usize.less_than(&usize::MAX));
    assert!(!u64::MAX.less_than(&0));
    assert!(i64::MIN.less_than(&i64::MAX));
}

#[test]
fn narrow_and_wide_keys_follow_the_same_rules() {
    assert_eq!(i8::MIN.decreased(&1), None);
    assert_eq!((-100i8).decreased(&28), Some(i8::MIN));
    assert_eq!(100i16.decreased(&-1), None);
    assert_eq!(u128::MAX.decreased(&u128::MAX), Some(0));
    assert_eq!(0u128.decreased(&1), None);
    assert_eq!(0i128.decreased(&1), Some(-1));
    assert_eq!(3isize.decreased(&5), Some(-2));
    assert!(i128::MIN.less_than(&0));
}
