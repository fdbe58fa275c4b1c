use fru::{midpoint, MidpointThreshold};

#[test]
fn midpoint_rounds_down() {
    assert_eq!(midpoint(3, 4), 3);
    assert_eq!(midpoint(-3, 0), -2);
    assert_eq!(midpoint(-1, 0), -1);
    assert_eq!(midpoint(10, 20), 15);
    assert_eq!(midpoint(i32::MAX, i32::MAX), i32::MAX);
    assert_eq!(midpoint(i32::MIN, i32::MAX), -1);
    assert_eq!(midpoint(i32::MIN, i32::MIN), i32::MIN);
}

#[test]
fn midpoint_threshold_all_types() {
    assert_eq!((-128i8).midpoint_threshold(127), -1);
    assert_eq!(5i8.midpoint_threshold(-6), -1);
    assert_eq!(i16::MAX.midpoint_threshold(i16::MAX - 1), i16::MAX - 1);
    assert_eq!((-7i32).midpoint_threshold(-8), -8);
    assert_eq!(i64::MIN.midpoint_threshold(i64::MAX), -1);
    assert_eq!(255u8.midpoint_threshold(254), 254);
    assert_eq!(3u16.midpoint_threshold(8), 5);
    assert_eq!(u32::MAX.midpoint_threshold(u32::MAX), u32::MAX);
    assert_eq!(u64::MAX.midpoint_threshold(1), u64::MAX / 2 + 1);
}

#[test]
fn ordering_vector_sorts_positions() {
    let x = [5, -1, 3, 3, 0];
    let r = fru::ordering_vector(&x);
    assert_eq!(r.len(), 5);
    assert_eq!(r[0], 1);
    assert_eq!(r[1], 4);
    assert_eq!(r[4], 0);
    let mut seen = r.clone();
    seen.sort_unstable();
    assert_eq!(seen, vec![0, 1, 2, 3, 4]);
    assert!(r.windows(2).all(|w| x[w[0] as usize] <= x[w[1] as usize]));
    assert!(fru::ordering_vector(&[]).is_empty());
}
