use tower_defense::timer::{Timer, TimerMode, TICKS_PER_SECOND};

#[test]
fn new_timer_has_counted_nothing() {
    let t = Timer::new(1_000_000, TimerMode::Once);
    assert_eq!(t.elapsed, 0);
    assert_eq!(t.duration, 1_000_000);
    assert_eq!(t.mode, TimerMode::Once);
    assert!(!t.finished);
    assert!(!t.just_completed());
}

#[test]
fn from_seconds_counts_microseconds() {
    let t = Timer::from_seconds(3, TimerMode::Once);
    assert_eq!(t.duration, 3 * TICKS_PER_SECOND);
    assert_eq!(TICKS_PER_SECOND, 1_000_000);
}

#[test]
fn from_seconds_saturates() {
    let t = Timer::from_seconds(u64::MAX, TimerMode::Repeating);
    assert_eq!(t.duration, u64::MAX);
    assert_eq!(t.mode, TimerMode::Repeating);
}

#[test]
fn once_timer_completes_on_the_tick_that_reaches_the_duration() {
    let mut t = Timer::new(1_000_000, TimerMode::Once);
    t.advance(400_000);
    assert!(!t.just_completed());
    assert_eq!(t.elapsed, 400_000);
    t.advance(400_000);
    assert!(!t.just_completed());
    t.advance(200_000);
    assert!(t.just_completed());
    assert!(t.finished);
    assert_eq!(t.elapsed, 1_000_000);
}

#[test]
fn once_timer_fires_exactly_once() {
    let mut t = Timer::new(10, TimerMode::Once);
    let mut fired = 0;
    for _ in 0..20 {
        t.advance(3);
        if t.just_completed() {
            fired += 1;
        }
    }
    assert_eq!(fired, 1);
    assert!(t.finished);
    assert_eq!(t.elapsed, 10);
}

#[test]
fn once_timer_stops_at_its_duration() {
    let mut t = Timer::new(10, TimerMode::Once);
    t.advance(25);
    assert!(t.just_completed());
    assert_eq!(t.elapsed, 10);
    t.advance(25);
    assert!(!t.just_completed());
    assert!(t.finished);
    assert_eq!(t.elapsed, 10);
}

#[test]
fn repeating_timer_wraps_and_keeps_the_remainder() {
    let mut t = Timer::new(10, TimerMode::Repeating);
    t.advance(7);
    assert!(!t.just_completed());
    t.advance(7);
    assert!(t.just_completed());
    assert_eq!(t.elapsed, 4);
    t.advance(5);
    assert!(!t.just_completed());
    assert!(!t.finished);
    assert_eq!(t.elapsed, 9);
    t.advance(1);
    assert!(t.just_completed());
    assert_eq!(t.elapsed, 0);
}

#[test]
fn repeating_timer_fires_once_per_period() {
    let mut t = Timer::new(1_000_000, TimerMode::Repeating);
    let mut fired = 0;
    for _ in 0..50 {
        t.advance(100_000);
        if t.just_completed() {
            fired += 1;
        }
    }
    assert_eq!(fired, 5);
    assert_eq!(t.elapsed, 0);
}

#[test]
fn repeating_timer_fires_once_for_a_tick_of_many_periods() {
    let mut t = Timer::new(10, TimerMode::Repeating);
    t.advance(35);
    assert!(t.just_completed());
    assert_eq!(t.elapsed, 5);
    t.advance(1);
    assert!(!t.just_completed());
    assert_eq!(t.elapsed, 6);
}

#[test]
fn negative_and_zero_samples_make_no_progress() {
    let mut t = Timer::new(10, TimerMode::Repeating);
    t.advance(4);
    t.advance(-3);
    assert_eq!(t.elapsed, 4);
    assert!(!t.just_completed());
    t.advance(0);
    assert_eq!(t.elapsed, 4);
    t.advance(i64::MIN);
    assert_eq!(t.elapsed, 4);
    let mut once = Timer::new(10, TimerMode::Once);
    once.advance(-1);
    assert_eq!(once.elapsed, 0);
    assert!(!once.finished);
}

#[test]
fn largest_sample_does_not_overflow() {
    let mut t = Timer::new(u64::MAX, TimerMode::Repeating);
    t.advance(i64::MAX);
    assert!(!t.just_completed());
    assert_eq!(t.elapsed, i64::MAX as u64);
    t.advance(i64::MAX);
    assert_eq!(t.elapsed, u64::MAX - 1);
    t.advance(i64::MAX);
    assert!(t.just_completed());
    assert_eq!(t.elapsed, i64::MAX as u64 - 1);
}

#[test]
fn timer_without_duration_completes_on_every_tick() {
    let mut t = Timer::new(0, TimerMode::Repeating);
    t.advance(0);
    assert!(t.just_completed());
    assert_eq!(t.elapsed, 0);
    t.advance(5);
    assert!(t.just_completed());
    assert_eq!(t.elapsed, 0);
}
