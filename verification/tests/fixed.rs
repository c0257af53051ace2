use renderer::fixed::{floor_split, mul_div_floor};

#[test]
fn mul_div_floor_rounds_towards_minus_infinity() {
    assert_eq!(mul_div_floor(7, 3, 2), 10);
    assert_eq!(mul_div_floor(-7, 3, 2), -11);
    assert_eq!(mul_div_floor(7, -3, 2), -11);
    assert_eq!(mul_div_floor(-7, -3, 2), 10);
    assert_eq!(mul_div_floor(6, 3, 2), 9);
    assert_eq!(mul_div_floor(-6, 3, 2), -9);
    assert_eq!(mul_div_floor(0, -3, 2), 0);
    assert_eq!(mul_div_floor(-1, 1, 5), -1);
    assert_eq!(mul_div_floor(1, 1, 5), 0);
}

#[test]
fn mul_div_floor_keeps_all_bits_of_the_product() {
    let big = u64::MAX as i128;
    assert_eq!(mul_div_floor(big, big, u64::MAX), big);
    assert_eq!(mul_div_floor(-big, big, u64::MAX), -big);
    assert_eq!(mul_div_floor(big, big - 1, u64::MAX), big - 1);
    assert_eq!(mul_div_floor(big - 1, -(big - 1), u64::MAX), -(big - 1));
    // (2^64 - 2)^2 = (2^64 - 1)(2^64 - 3) + 1
    assert_eq!(mul_div_floor(big - 1, big - 1, u64::MAX), big - 2);
    assert_eq!(mul_div_floor(1 << 40, 1 << 50, 1 << 30), 1 << 60);
    assert_eq!(mul_div_floor(big, 1, 1), big);
}

#[test]
fn floor_split_separates_whole_and_fraction() {
    let one: i128 = 1 << 32;
    assert_eq!(floor_split(0), (0, 0));
    assert_eq!(floor_split(one), (1, 0));
    assert_eq!(floor_split(one + 5), (1, 5));
    assert_eq!(floor_split(one - 1), (0, (one - 1) as u64));
    assert_eq!(floor_split(-1), (-1, (one - 1) as u64));
    assert_eq!(floor_split(-one), (-1, 0));
    assert_eq!(floor_split(-one - 1), (-2, (one - 1) as u64));
    assert_eq!(floor_split(-3 * one / 2), (-2, (one / 2) as u64));
    assert_eq!(floor_split(i128::MAX), (i128::MAX >> 32, u32::MAX as u64));
    assert_eq!(floor_split(i128::MIN + 1), (i128::MIN >> 32, 1));
}
