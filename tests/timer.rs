use bluefin::time::Timer;

#[test]
fn remaining_after_is_exact_and_never_negative() {
    let t = Timer::new(1_000);
    assert_eq!(t.duration_nanos, 1_000);
    assert_eq!(t.remaining_after(0), 1_000);
    assert_eq!(t.remaining_after(400), 600);
    assert_eq!(t.remaining_after(999), 1);
    assert_eq!(t.remaining_after(1_000), 0);
    assert_eq!(t.remaining_after(5_000), 0);
    assert_eq!(t.remaining_after(u64::MAX), 0);
}

#[test]
fn expired_timer_reports_zero() {
    let t = Timer::new(0);
    assert_eq!(t.remaining(), 0);
    assert!(!t.is_time_remaining(5));
    assert!(!t.is_time_remaining_5());
}

#[test]
fn long_timer_has_time_remaining() {
    let t = Timer::new(3_600_000_000_000);
    assert!(t.remaining() <= 3_600_000_000_000);
    assert!(t.remaining() > 0);
    assert!(t.is_time_remaining_5());
}

#[test]
fn time_remaining_threshold() {
    let t = Timer::new(1_000);
    // more than 5 hundredths left until 950 have elapsed
    assert!(t.is_time_remaining_after(0, 5));
    assert!(t.is_time_remaining_after(949, 5));
    assert!(!t.is_time_remaining_after(950, 5));
    assert!(!t.is_time_remaining_after(2_000, 5));
    assert!(!t.is_time_remaining_after(0, 100));
}
