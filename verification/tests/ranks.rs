use rust_heaps::ranks::floor_log2;

#[test]
fn floor_log2_of_small_numbers() {
    assert_eq!(floor_log2(0), 0);
    assert_eq!(floor_log2(1), 0);
    assert_eq!(floor_log2(2), 1);
    assert_eq!(floor_log2(3), 1);
    assert_eq!(floor_log2(4), 2);
    assert_eq!(floor_log2(5), 2);
    assert_eq!(floor_log2(7), 2);
    assert_eq!(floor_log2(8), 3);
}

#[test]
fn floor_log2_around_powers_of_two() {
    assert_eq!(floor_log2(1023), 9);
    assert_eq!(floor_log2(1024), 10);
    assert_eq!(floor_log2(1025), 10);
    assert_eq!(floor_log2(usize::MAX) as u32, usize::BITS - 1);
    assert_eq!(floor_log2(usize::MAX / 2 + 1) as u32, usize::BITS - 1);
    assert_eq!(floor_log2(usize::MAX / 2) as u32, usize::BITS - 2);
}
