use parview::Timer;

#[test]
fn timer_dts() {
    let mut t = Timer::new(vec![1, 2, 4], None);
    assert_eq!(t.get_dt(), 1);
    t.incr();
    assert_eq!(t.get_index(), 1);
    t.faster();
    assert_eq!(t.get_dt(), 2);
    t.incr();
    assert_eq!(t.get_index(), 3);
    t.faster();
    assert_eq!(t.get_dt(), 4);
    t.incr();
    assert_eq!(t.get_index(), 7);
    t.faster();
    assert_eq!(t.get_dt(), 4);
    t.incr();
    assert_eq!(t.get_index(), 11);
    t.switch_direction();
    assert_eq!(t.get_dt(), -4);
    t.incr();
    assert_eq!(t.get_index(), 7);
    t.faster();
    assert_eq!(t.get_dt(), -4);
    t.incr();
    assert_eq!(t.get_index(), 3);
    t.switch_direction();
    assert_eq!(t.get_dt(), 4);
    t.incr();
    assert_eq!(t.get_index(), 7);
    t.switch_direction();
    assert_eq!(t.get_dt(), -4);
    t.incr();
    assert_eq!(t.get_index(), 3);
    t.slower();
    assert_eq!(t.get_dt(), -2);
    t.incr();
    assert_eq!(t.get_index(), 1);
    t.slower();
    assert_eq!(t.get_dt(), -1);
    t.incr();
    assert_eq!(t.get_index(), 0);
    t.slower();
    assert_eq!(t.get_dt(), 0);
    t.incr();
    assert_eq!(t.get_index(), 0);
    t.slower();
    assert_eq!(t.get_dt(), 0);
    t.incr();
    assert_eq!(t.get_index(), 0);
}

#[test]
fn timer_pauseloop() {
    let mut t = Timer::new(vec![1, 2, 4], Some(5));
    // a pause of 5 frames, of 2 ticks each
    t.set_loop_pause(Some(5 * 2));
    t.set_fps(2);
    t.faster();
    t.faster();
    assert_eq!(t.get_dt(), 4);
    t.incr();
    assert_eq!(t.get_index(), 2);
    t.incr();
    assert_eq!(t.get_index(), 4);
    t.incr();
    assert_eq!(t.get_index(), 4);
    t.incr();
    assert_eq!(t.get_index(), 4);
    t.incr();
    assert_eq!(t.get_index(), 0);
}

#[test]
fn rates_are_sorted_deduplicated_and_positive() {
    let mut t = Timer::new(vec![4, 0, 2, 2, 1, 4], None);
    assert_eq!(t.get_dt(), 1);
    t.faster();
    assert_eq!(t.get_dt(), 2);
    t.faster();
    assert_eq!(t.get_dt(), 4);
    t.faster();
    assert_eq!(t.get_dt(), 4);
}

#[test]
fn no_rates_behave_as_rate_one() {
    let mut a = Timer::new(vec![], None);
    let mut b = Timer::new(vec![1], None);
    let mut c = Timer::new(vec![0, 0], None);
    for _ in 0..3 {
        assert_eq!(a.get_dt(), 1);
        assert_eq!(b.get_dt(), 1);
        assert_eq!(c.get_dt(), 1);
        a.incr();
        b.incr();
        c.incr();
        assert_eq!(a.get_index(), b.get_index());
        assert_eq!(a.get_index(), c.get_index());
        a.faster();
        b.faster();
        c.faster();
    }
    assert_eq!(a.get_time(), 3);
}

#[test]
fn faster_then_slower_returns() {
    let mut t = Timer::new(vec![1, 2, 4], None);
    t.faster();
    t.slower();
    assert_eq!(t.get_dt(), 1);
    t.switch_direction();
    t.faster();
    assert_eq!(t.get_dt(), -2);
    t.slower();
    assert_eq!(t.get_dt(), -1);
}

#[test]
fn faster_at_the_top_then_slower_does_not_return() {
    let mut t = Timer::new(vec![1], None);
    t.faster();
    assert_eq!(t.get_dt(), 1);
    t.slower();
    assert_eq!(t.get_dt(), 0);
}

#[test]
fn faster_from_stop_goes_forwards() {
    let mut t = Timer::new(vec![1, 2], None);
    t.switch_direction();
    t.slower();
    assert_eq!(t.get_dt(), 0);
    t.faster();
    assert_eq!(t.get_dt(), 1);
}

#[test]
fn switch_twice_returns() {
    let mut t = Timer::new(vec![1, 3], None);
    t.faster();
    t.switch_direction();
    assert_eq!(t.get_dt(), -3);
    t.switch_direction();
    assert_eq!(t.get_dt(), 3);
    t.slower();
    t.slower();
    t.switch_direction();
    t.switch_direction();
    assert_eq!(t.get_dt(), 0);
}

#[test]
fn forward_index_increases_without_length() {
    let mut t = Timer::new(vec![3], None);
    t.set_fps(2);
    let mut last = t.get_index();
    for _ in 0..20 {
        t.incr();
        let ix = t.get_index();
        assert!(ix > last);
        last = ix;
    }
    assert_eq!(t.get_time(), 60);
    assert_eq!(last, 30);
}

#[test]
fn backward_from_start_stays_at_zero() {
    let mut t = Timer::new(vec![1, 5], None);
    t.faster();
    t.switch_direction();
    for _ in 0..5 {
        t.incr();
        assert_eq!(t.get_index(), 0);
        assert_eq!(t.get_time(), 0);
    }
}

#[test]
fn fixed_length_without_loop_clamps() {
    let mut t = Timer::new(vec![2], Some(3));
    t.incr();
    assert_eq!(t.get_index(), 2);
    t.incr();
    t.incr();
    assert_eq!(t.get_time(), 6);
    assert_eq!(t.get_index(), 2);
    t.switch_direction();
    for _ in 0..4 {
        t.incr();
    }
    assert_eq!(t.get_time(), 0);
    assert_eq!(t.get_index(), 0);
}

#[test]
fn loop_wraps_backwards() {
    let mut t = Timer::new(vec![1], Some(2));
    t.set_loop_pause(Some(1));
    t.switch_direction();
    t.incr();
    assert_eq!(t.get_time(), 2);
    assert_eq!(t.get_index(), 1);
    t.incr();
    assert_eq!(t.get_time(), 1);
    assert_eq!(t.get_index(), 1);
    t.incr();
    assert_eq!(t.get_time(), 0);
    assert_eq!(t.get_index(), 0);
}

#[test]
fn loop_wraps_by_more_than_one_loop() {
    let mut t = Timer::new(vec![7], Some(2));
    t.set_loop_pause(Some(1));
    t.incr();
    assert_eq!(t.get_time(), 1);
    t.switch_direction();
    t.incr();
    assert_eq!(t.get_time(), 0);
}

#[test]
fn at_least_picks_slowest_fast_enough() {
    let mut t = Timer::new(vec![1, 2, 4], None);
    assert_eq!(t.at_least(3), 4);
    assert_eq!(t.at_least(2), 2);
    assert_eq!(t.at_least(9), 4);
    assert_eq!(t.at_least(-2), -2);
    assert_eq!(t.get_dt(), -2);
    assert_eq!(t.at_least(-100), -4);
    assert_eq!(t.at_least(0), 0);
    assert_eq!(t.at_least(i64::MIN), -4);
}

#[test]
fn total_loop_time_by_mode() {
    let mut t = Timer::new(vec![1], None);
    assert_eq!(t.total_loop_time(), None);
    t.set_loop_pause(Some(3));
    assert_eq!(t.total_loop_time(), None);
    let mut u = Timer::new(vec![1], Some(4));
    assert_eq!(u.total_loop_time(), Some(4));
    u.set_loop_pause(Some(3));
    assert_eq!(u.total_loop_time(), Some(7));
    u.set_fps(2);
    assert_eq!(u.total_loop_time(), Some(11));
}

#[test]
fn loop_time_wraps_at_the_loop_length() {
    let mut t = Timer::new(vec![1, 2, 4], Some(5));
    t.set_fps(2);
    t.set_loop_pause(Some(10));
    t.faster();
    t.faster();
    for _ in 0..4 {
        t.incr();
    }
    assert_eq!(t.get_time(), 16);
    t.incr();
    assert_eq!(t.get_time(), 0);
    assert_eq!(t.get_index(), 0);
    t.incr();
    assert_eq!(t.get_time(), 4);
    assert_eq!(t.get_index(), 2);
}

#[test]
fn loop_pause_counts_ticks() {
    let mut t = Timer::new(vec![1], Some(2));
    t.set_fps(4);
    t.set_loop_pause(Some(3));
    assert_eq!(t.total_loop_time(), Some(11));
    for _ in 0..10 {
        t.incr();
    }
    assert_eq!(t.get_index(), 1);
    t.incr();
    assert_eq!(t.get_time(), 0);
}
