use bluefin::ucb::{floor_log2, floor_div, ucb1};

fn exact_log2(n: u32) -> u32 {
    let mut k = 0u32;
    let mut m = n;
    while m > 1 {
        m /= 2;
        k += 1;
    }
    k
}

#[test]
fn floor_log2_small_values() {
    assert_eq!(floor_log2(1), 0);
    assert_eq!(floor_log2(2), 1);
    assert_eq!(floor_log2(3), 1);
    assert_eq!(floor_log2(4), 2);
    assert_eq!(floor_log2(7), 2);
    assert_eq!(floor_log2(8), 3);
    assert_eq!(floor_log2(1023), 9);
    assert_eq!(floor_log2(1024), 10);
}

#[test]
fn floor_log2_range_ends() {
    assert_eq!(floor_log2((1u32 << 31) - 1), 30);
    assert_eq!(floor_log2(1u32 << 31), 31);
    assert_eq!(floor_log2(u32::MAX), 31);
}

#[test]
fn floor_log2_matches_exact_log2() {
    for n in 1u32..5000 {
        assert_eq!(floor_log2(n), exact_log2(n));
    }
    let mut n: u32 = 1;
    while n < (1u32 << 31) - 1000 {
        for d in 0..3u32 {
            assert_eq!(floor_log2(n + d), exact_log2(n + d));
            if n > d {
                assert_eq!(floor_log2(n - d), exact_log2(n - d));
            }
        }
        n = n * 2 + 1;
    }
}

#[test]
fn floor_div_rounds_down() {
    assert_eq!(floor_div(7, 2), 3);
    assert_eq!(floor_div(-3, 2), -2);
    assert_eq!(floor_div(-4, 2), -2);
    assert_eq!(floor_div(-1, 3), -1);
    assert_eq!(floor_div(0, 5), 0);
    assert_eq!(floor_div(i64::MIN, 1), i64::MIN);
}

#[test]
fn ucb1_single_visit_is_value() {
    for v in [-1_000_000i64, -150, -1, 0, 1, 42, 100, 987_654_321, i64::MAX, i64::MIN] {
        assert_eq!(ucb1(1, v, 1), v as i128);
    }
}

#[test]
fn ucb1_exact_values() {
    // 10 / 4 rounds to 2; log2(8) = 3; 100 * sqrt(3 / 4) = 86.6
    assert_eq!(ucb1(4, 10, 8), 88);
    // -3 / 2 rounds to -2; log2(1) = 0
    assert_eq!(ucb1(2, -3, 1), -2);
    // log2(2) = 1; 100 * sqrt(1 / 1) = 100
    assert_eq!(ucb1(1, 50, 2), 150);
    // log2(1000) = 9; 100 * sqrt(9 / 9) = 100
    assert_eq!(ucb1(9, 90, 1000), 110);
    // log2(2^31) = 31; 100 * sqrt(31) = 556.7
    assert_eq!(ucb1(1, 0, 1u32 << 31), 556);
}
