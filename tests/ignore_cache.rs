use std::cell::Cell;
use toolkit::ignore_cache::IgnoreCache;

fn path(s: &str) -> String {
    s.to_string()
}

/// Queries `p` at `now`, answering `verdict` if asked and counting the asks.
fn ask(cache: &mut IgnoreCache, p: &str, now: u64, verdict: bool, calls: &Cell<u32>) -> bool {
    cache.is_ignored(&path(p), now, |_: &String| {
        calls.set(calls.get() + 1);
        verdict
    })
}

#[test]
fn miss_consults_oracle_and_returns_its_verdict() {
    let calls = Cell::new(0);
    let mut cache = IgnoreCache::new(1000, 10);
    assert!(ask(&mut cache, "a", 0, true, &calls));
    assert_eq!(calls.get(), 1);
    assert!(!ask(&mut cache, "b", 0, false, &calls));
    assert_eq!(calls.get(), 2);
}

#[test]
fn repeated_queries_ask_the_oracle_once() {
    let calls = Cell::new(0);
    let mut cache = IgnoreCache::new(1000, 10);
    assert!(ask(&mut cache, "a", 0, true, &calls));
    // a cached verdict wins over whatever the oracle would say now
    assert!(ask(&mut cache, "a", 10, false, &calls));
    assert!(ask(&mut cache, "a", 500, false, &calls));
    assert!(ask(&mut cache, "a", 999, false, &calls));
    assert_eq!(calls.get(), 1);
}

#[test]
fn capacity_evicts_least_recently_inserted() {
    let calls = Cell::new(0);
    let mut cache = IgnoreCache::new(1000, 3);
    for p in ["a", "b", "c", "d"] {
        ask(&mut cache, p, 0, false, &calls);
    }
    assert_eq!(calls.get(), 4);
    // "b", "c", "d" are still cached
    ask(&mut cache, "d", 1, false, &calls);
    assert_eq!(calls.get(), 4);
    // "a" was evicted: asking again recomputes
    ask(&mut cache, "a", 1, false, &calls);
    assert_eq!(calls.get(), 5);
}

#[test]
fn age_eviction_recomputes_stale_entry() {
    let calls = Cell::new(0);
    let mut cache = IgnoreCache::new(100, 10);
    assert!(ask(&mut cache, "a", 1000, true, &calls));
    assert!(ask(&mut cache, "a", 1099, false, &calls));
    assert_eq!(calls.get(), 1);
    // at insertion time plus the maximum age the entry is stale
    assert!(!ask(&mut cache, "a", 1100, false, &calls));
    assert_eq!(calls.get(), 2);
    // well past it too
    assert!(ask(&mut cache, "a", 1300, true, &calls));
    assert_eq!(calls.get(), 3);
}

#[test]
fn scenario_size_two_evicts_first_path() {
    let calls = Cell::new(0);
    let mut cache = IgnoreCache::new(1000, 2);
    assert!(!ask(&mut cache, "A", 0, false, &calls));
    assert!(ask(&mut cache, "B", 1, true, &calls));
    assert!(!ask(&mut cache, "C", 2, false, &calls));
    assert_eq!(calls.get(), 3);
    // C's insertion evicted A: a second oracle call for A
    let a_calls = Cell::new(0);
    assert!(!ask(&mut cache, "A", 3, false, &a_calls));
    assert_eq!(a_calls.get(), 1);
}

#[test]
fn zero_size_always_consults_oracle() {
    let calls = Cell::new(0);
    let mut cache = IgnoreCache::new(1000, 0);
    for i in 0..5u64 {
        assert!(ask(&mut cache, "a", i, true, &calls));
    }
    assert_eq!(calls.get(), 5);
}

#[test]
fn size_one_reconsults_on_repeat() {
    let calls = Cell::new(0);
    let mut cache = IgnoreCache::new(1000, 1);
    ask(&mut cache, "a", 0, true, &calls);
    ask(&mut cache, "a", 1, true, &calls);
    assert_eq!(calls.get(), 2);
}

#[test]
fn clock_going_backwards_does_not_refresh() {
    let calls = Cell::new(0);
    let mut cache = IgnoreCache::new(100, 10);
    ask(&mut cache, "a", 500, true, &calls);
    // an earlier time is taken as the newest insertion's
    assert!(ask(&mut cache, "a", 10, false, &calls));
    assert_eq!(calls.get(), 1);
}

#[test]
fn is_actionable_negates_verdict() {
    let mut cache = IgnoreCache::new(1000, 10);
    assert!(cache.is_actionable(&path("src/main.rs"), 0, |_: &String| false));
    assert!(!cache.is_actionable(&path("target/x"), 0, |_: &String| true));
    // cached: the oracle's answer is not used
    assert!(cache.is_actionable(&path("src/main.rs"), 1, |_: &String| true));
}
