use std::cell::RefCell;
use thttpd::timers::{TimerCtx, TimerId, TimerWheel};

/// Runs the wheel at `now`, logging each fired id; every callback finishes
/// at `done`.
fn run_logged(wheel: &mut TimerWheel, now: u64, done: u64) -> Vec<TimerId> {
    let log = RefCell::new(Vec::new());
    let n = wheel.run(now, |id| {
        log.borrow_mut().push(id);
        done
    });
    let fired = log.into_inner();
    assert_eq!(n, fired.len());
    fired
}

#[test]
fn test_next_deadline() {
    let mut wheel = TimerWheel::new();
    let now = 1_000;
    assert!(wheel.next_deadline(now).is_none());
    wheel.create(5_000, now);
    assert!(wheel.next_deadline(now).unwrap() <= 5_000);
}

#[test]
fn test_create_and_fire() {
    let mut wheel = TimerWheel::new();
    wheel.create(1, 0);
    let fired = RefCell::new(false);
    let ctx = TimerCtx;
    let callback = |_: &TimerCtx| *fired.borrow_mut() = true;
    wheel.run(10, |_| {
        callback(&ctx);
        10
    });
    assert!(*fired.borrow());
}

#[test]
fn test_cancel_prevents_fire() {
    let mut wheel = TimerWheel::new();
    let id = wheel.create(1, 0);
    wheel.cancel(id);
    let fired = RefCell::new(false);
    let n = wheel.run(10, |_| {
        *fired.borrow_mut() = true;
        10
    });
    assert_eq!(n, 0);
    assert!(!*fired.borrow());
    assert_eq!(wheel.next_deadline(10), None);
}

#[test]
fn test_periodic_reschedule() {
    let mut wheel = TimerWheel::new();
    let id = wheel.create_periodic(1, 0);
    let count = RefCell::new(0);
    wheel.run(10, |_| {
        *count.borrow_mut() += 1;
        10
    });
    assert!(*count.borrow() >= 1);
    // Back one period after the callback finished.
    assert_eq!(wheel.next_deadline(10), Some(1));
    assert_eq!(run_logged(&mut wheel, 11, 11), vec![id]);
}

#[test]
fn periodic_timer_comes_back_after_its_callback() {
    let mut wheel = TimerWheel::new();
    let id = wheel.create_periodic(5, 0);
    // The run is at 10, the callback finishes at 13: next due at 18.
    assert_eq!(run_logged(&mut wheel, 10, 13), vec![id]);
    assert_eq!(wheel.next_deadline(13), Some(5));
    assert_eq!(run_logged(&mut wheel, 17, 17), vec![]);
    assert_eq!(run_logged(&mut wheel, 18, 18), vec![id]);
}

#[test]
fn timers_fire_in_deadline_order_once_per_run() {
    let mut wheel = TimerWheel::new();
    let late = wheel.create(30, 0);
    let early = wheel.create(10, 0);
    let tick = wheel.create_periodic(5, 0);
    let future = wheel.create(100, 0);
    assert_eq!(run_logged(&mut wheel, 50, 50), vec![tick, early, late]);
    assert_eq!(wheel.next_deadline(50), Some(5));
    assert_eq!(run_logged(&mut wheel, 60, 60), vec![tick]);
    assert_eq!(wheel.next_deadline(60), Some(5));
    wheel.cancel(tick);
    assert_eq!(wheel.next_deadline(60), Some(40));
    assert_eq!(run_logged(&mut wheel, 100, 100), vec![future]);
    assert_eq!(wheel.next_deadline(100), None);
}

#[test]
fn cancelled_timer_never_fires_in_later_runs() {
    let mut wheel = TimerWheel::new();
    let tick = wheel.create_periodic(5, 0);
    let other = wheel.create(7, 0);
    wheel.cancel(tick);
    for now in [5, 10, 20, 100] {
        let fired = run_logged(&mut wheel, now, now);
        assert!(!fired.contains(&tick));
        if now == 10 {
            assert_eq!(fired, vec![other]);
        }
    }
}

#[test]
fn fire_next_and_rearm_step_by_step() {
    let mut wheel = TimerWheel::new();
    let gone = wheel.create(1, 0);
    let tick = wheel.create_periodic(4, 0);
    wheel.cancel(gone);
    assert!(wheel.fire_next(3).is_none());
    let e = wheel.fire_next(4).unwrap();
    assert_eq!(TimerId(e.id), tick);
    assert_eq!(wheel.next_deadline(4), None);
    wheel.rearm(e, 9);
    assert_eq!(wheel.next_deadline(9), Some(4));
    assert!(wheel.fire_next(12).is_none());
    assert_eq!(wheel.fire_next(13).map(|e| TimerId(e.id)), Some(tick));
}

#[test]
fn reset_keeps_the_period() {
    let mut wheel = TimerWheel::new();
    let id = wheel.create_periodic(5, 0);
    let moved = wheel.reset(id, 20, 0).unwrap();
    assert_ne!(moved, id);
    assert_eq!(moved, TimerId(1));
    assert_eq!(run_logged(&mut wheel, 10, 10), vec![]);
    assert_eq!(run_logged(&mut wheel, 20, 20), vec![moved]);
    assert_eq!(wheel.next_deadline(20), Some(5));
}

#[test]
fn reset_timer_fires_under_its_new_id() {
    let mut wheel = TimerWheel::new();
    let id = wheel.create_periodic(5, 0);
    let moved = wheel.reset(id, 20, 2).unwrap();
    assert_ne!(moved, id);
    assert_eq!(run_logged(&mut wheel, 21, 21), vec![]);
    assert_eq!(run_logged(&mut wheel, 22, 22), vec![moved]);
    for now in [27, 40, 100] {
        assert!(!run_logged(&mut wheel, now, now).contains(&id));
    }
}
