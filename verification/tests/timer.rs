use hotshot_new_protocol::timer::Timer;
use std::time::Duration;

const PERIOD: Duration = Duration::from_millis(20);

fn timer() -> Timer {
    Timer::new(PERIOD, 1, 1)
}

#[test]
fn fires_once_per_arming() {
    let mut t = timer();
    assert!(!t.poll(false), "not before the clock runs out");
    assert!(t.poll(true), "timer should fire");
    assert!(!t.poll(true), "a fired timer must stay pending until it is reset");
    t.reset();
    assert!(t.poll(true), "reset timer should fire");
}

#[test]
fn reset_carries_view_and_epoch() {
    let mut t = timer();
    t.reset_with_epoch(7, 3);
    assert_eq!(t.view(), 7);
    assert_eq!(t.epoch(), 3);
    assert!(t.poll(true), "timer should fire");
    assert_eq!(t.view(), 7);
    assert_eq!(t.epoch(), 3);
    assert_eq!(t.duration(), PERIOD);
}
