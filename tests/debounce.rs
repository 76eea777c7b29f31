use toolkit::debounce::{Action, Debouncer, SignalCounter};
use toolkit::trigger::Outcome;

/// Drives a consumer as the watch loop does: woken by each event, and by
/// its own deadline when that comes first. Returns the times it fired at.
fn fire_times(settle: u64, events: &[u64], end: u64) -> Vec<u64> {
    let mut counter = SignalCounter::new();
    let mut d = Debouncer::new(settle, false, counter.value());
    let mut fired = Vec::new();
    let mut next_event = 0;
    let mut action = d.step(counter.value(), 0);
    loop {
        let wake = match action {
            Action::WaitForChange(_) => events.get(next_event).copied(),
            Action::WaitUntil(t) => match events.get(next_event) {
                Some(&e) if e <= t => Some(e),
                _ => Some(t),
            },
            Action::Fire | Action::Stop => None,
        };
        let now = match (action, wake) {
            (Action::Fire, _) => {
                d.after_fire(Outcome::Completed(Some(0)));
                action = d.step(counter.value(), *fired.last().unwrap());
                continue;
            }
            (_, Some(t)) if t <= end => t,
            _ => break,
        };
        while next_event < events.len() && events[next_event] == now {
            counter.increment();
            next_event += 1;
        }
        action = d.step(counter.value(), now);
        if action == Action::Fire {
            fired.push(now);
        }
    }
    fired
}

#[test]
fn burst_within_window_fires_once() {
    assert_eq!(fire_times(200, &[0, 50, 100], 10_000), vec![300]);
}

#[test]
fn events_apart_fire_twice() {
    assert_eq!(fire_times(200, &[0, 500], 10_000), vec![200, 700]);
}

#[test]
fn many_events_in_one_window_fire_once_after_last() {
    assert_eq!(fire_times(100, &[0, 10, 20, 30, 40, 50, 60, 70, 80, 90, 100], 10_000), vec![200]);
}

#[test]
fn single_event_fires_after_settle() {
    assert_eq!(fire_times(200, &[1000], 10_000), vec![1200]);
}

#[test]
fn no_events_never_fire() {
    assert_eq!(fire_times(200, &[], 10_000), Vec::<u64>::new());
}

#[test]
fn step_restarts_window_on_change() {
    let mut d = Debouncer::new(200, false, 0);
    assert_eq!(d.step(0, 0), Action::WaitForChange(0));
    assert_eq!(d.step(1, 0), Action::WaitUntil(200));
    assert_eq!(d.step(2, 150), Action::WaitUntil(350));
    assert_eq!(d.step(2, 349), Action::WaitUntil(350));
    assert_eq!(d.step(2, 350), Action::Fire);
    assert_eq!(d.step(2, 360), Action::WaitForChange(2));
}

#[test]
fn event_before_consumer_waits_is_not_lost() {
    let mut counter = SignalCounter::new();
    let baseline = counter.value();
    // the producer runs before the consumer looks at the counter
    counter.increment();
    let mut d = Debouncer::new(100, false, baseline);
    assert_eq!(d.step(counter.value(), 5), Action::WaitUntil(105));
    assert_eq!(d.step(counter.value(), 105), Action::Fire);
}

#[test]
fn oneshot_stops_after_first_trigger() {
    let mut d = Debouncer::new(10, true, 0);
    assert_eq!(d.step(1, 0), Action::WaitUntil(10));
    assert_eq!(d.step(1, 10), Action::Fire);
    d.after_fire(Outcome::Completed(Some(0)));
    assert_eq!(d.step(1, 11), Action::Stop);
    assert_eq!(d.step(2, 12), Action::Stop);
}

#[test]
fn not_found_stops_the_loop() {
    let mut d = Debouncer::new(10, false, 0);
    assert_eq!(d.step(1, 0), Action::WaitUntil(10));
    assert_eq!(d.step(1, 10), Action::Fire);
    d.after_fire(Outcome::NotFound);
    assert_eq!(d.step(1, 11), Action::Stop);
    assert_eq!(d.step(5, 100), Action::Stop);
}

#[test]
fn nonzero_exit_keeps_the_loop_running() {
    let mut d = Debouncer::new(10, false, 0);
    assert_eq!(d.step(1, 0), Action::WaitUntil(10));
    assert_eq!(d.step(1, 10), Action::Fire);
    d.after_fire(Outcome::Completed(Some(3)));
    assert_eq!(d.step(2, 20), Action::WaitUntil(30));
    assert_eq!(d.step(2, 30), Action::Fire);
}

#[test]
fn deadline_saturates_at_max() {
    let mut d = Debouncer::new(200, false, 0);
    assert_eq!(d.step(1, u64::MAX - 10), Action::WaitUntil(u64::MAX));
}

#[test]
fn counter_increments_and_wraps() {
    let mut c = SignalCounter::new();
    assert_eq!(c.value(), 0);
    c.increment();
    c.increment();
    assert_eq!(c.value(), 2);
}
