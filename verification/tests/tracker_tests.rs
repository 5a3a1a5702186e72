use zpowergraph::errors::TrackerError;
use zpowergraph::tracker::LivenessTracker;

fn names(list: &[&str]) -> Vec<Vec<u8>> {
    list.iter().map(|s| s.as_bytes().to_vec()).collect()
}

fn name(s: &str) -> Vec<u8> {
    s.as_bytes().to_vec()
}

#[test]
fn initialize_then_query_staleness_windows() {
    // initialize with {A, B} at time T; at T + 31 both are stale with a
    // 30 second threshold, at T + 29 neither is
    let t: u64 = 100;
    let tracker = LivenessTracker::initialize(&names(&["A", "B"]), t);
    let stale = tracker.stale_devices(t + 31, 30);
    assert_eq!(stale, vec![name("A"), name("B")]);
    let fresh = tracker.stale_devices(t + 29, 30);
    assert!(fresh.is_empty());
}

#[test]
fn staleness_is_strict() {
    // exactly threshold seconds since last seen is not yet stale
    let tracker = LivenessTracker::initialize(&names(&["A"]), 0);
    assert!(tracker.stale_devices(30, 30).is_empty());
    assert_eq!(tracker.stale_devices(31, 30), vec![name("A")]);
}

#[test]
fn touch_unknown_device_is_rejected() {
    let mut tracker = LivenessTracker::initialize(&names(&["A"]), 0);
    let r = tracker.touch(&name("B"), 5);
    assert_eq!(r, Err(TrackerError::UnknownDevice));
    // no entry appeared
    assert!(!tracker.contains_name(&name("B")));
    assert_eq!(tracker.device_count(), 1);
}

#[test]
fn touch_updates_last_seen() {
    let mut tracker = LivenessTracker::initialize(&names(&["A", "B"]), 0);
    tracker.touch(&name("A"), 50).unwrap();
    assert_eq!(tracker.last_seen_of(&name("A")), Some(50));
    assert_eq!(tracker.last_seen_of(&name("B")), Some(0));
    // A fresh again, B stale
    assert_eq!(tracker.stale_devices(60, 30), vec![name("B")]);
}

#[test]
fn initialize_drops_duplicate_names() {
    let tracker = LivenessTracker::initialize(&names(&["A", "B", "A"]), 0);
    assert_eq!(tracker.device_count(), 2);
    assert!(tracker.contains_name(&name("A")));
    assert!(tracker.contains_name(&name("B")));
}

#[test]
fn stale_devices_keeps_tracker_order() {
    let mut tracker = LivenessTracker::initialize(&names(&["C", "A", "B"]), 0);
    tracker.touch(&name("A"), 100).unwrap();
    // C and B stale, in the order they were declared
    assert_eq!(tracker.stale_devices(100, 30), vec![name("C"), name("B")]);
}

#[test]
fn clock_regression_is_not_staleness() {
    // a device last seen in the future is not stale
    let tracker = LivenessTracker::initialize(&names(&["A"]), 1000);
    assert!(tracker.stale_devices(500, 30).is_empty());
}
