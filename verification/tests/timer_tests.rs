use std::time::{Duration, Instant};

use mushroom_bot::timer::{budget_spent, Timer};

fn wait_at_least(ms: u64) {
    let t0 = Instant::now();
    while t0.elapsed() < Duration::from_millis(ms) {}
}

#[test]
fn timer_tracks_elapsed_and_budget() {
    let mut timer = Timer::new();
    wait_at_least(5);
    assert!(timer.elapsed_ms() >= 1);
    assert!(timer.timed_out(1));

    timer.start();
    assert!(!timer.timed_out(100));
}

#[test]
fn budget_is_spent_once_the_elapsed_time_reaches_it() {
    assert!(budget_spent(5, 5));
    assert!(budget_spent(6, 5));
    assert!(!budget_spent(4, 5));
    assert!(budget_spent(0, 0));
    assert!(!budget_spent(-1, 0));
}
