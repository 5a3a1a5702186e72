use zpowergraph::engine::Engine;
use zpowergraph::errors::IngestError;
use zpowergraph::reading::Milli;

fn names(list: &[&str]) -> Vec<Vec<u8>> {
    list.iter().map(|s| s.as_bytes().to_vec()).collect()
}

fn name(s: &str) -> Vec<u8> {
    s.as_bytes().to_vec()
}

fn reading_payload(device: &str, current: &str, energy: &str, power: u16, voltage: u16) -> Vec<u8> {
    format!(
        "{{\"current\":{},\"device\":{{\"friendlyName\":\"{}\"}},\"energy\":{},\"power\":{},\"voltage\":{}}}",
        current, device, energy, power, voltage
    )
    .into_bytes()
}

#[test]
fn silent_device_gets_synthetic_row() {
    // device A sends one reading at t = 0; a timeout tick at t = 31
    // fabricates a zero-draw row that copies energy and voltage
    let mut engine = Engine::new(&names(&["A"]), 0, 30);
    let stored = engine
        .handle_message(&reading_payload("A", "1.2", "10.0", 264, 220), 0)
        .unwrap();
    assert_eq!(stored.id, 0);
    assert_eq!(stored.timestamp, 0);
    let synthetic = engine.handle_timeout(31).unwrap();
    assert_eq!(synthetic.len(), 1);
    let row = &synthetic[0];
    assert_eq!(row.friendly_name, name("A"));
    assert_eq!(row.timestamp, 31);
    assert_eq!(row.current, Milli(0));
    assert_eq!(row.power, 0);
    assert_eq!(row.energy, Milli(10000));
    assert_eq!(row.voltage, 220);
    assert_eq!(engine.store_ref().row_count(), 2);
}

#[test]
fn device_without_baseline_is_skipped() {
    // B is configured but never reported: it is stale at t = 31, yet no
    // synthetic row is appended because there is nothing to clone
    let engine_names = names(&["B"]);
    let mut engine = Engine::new(&engine_names, 0, 30);
    let stale = engine.stale_devices(31);
    assert_eq!(stale, vec![name("B")]);
    let synthetic = engine.handle_timeout(31).unwrap();
    assert!(synthetic.is_empty());
    assert_eq!(engine.store_ref().row_count(), 0);
}

#[test]
fn backfill_resets_liveness() {
    // after the backfill at t = 31, the device is fresh again: the very
    // next staleness query at t = 32 does not name it
    let mut engine = Engine::new(&names(&["A"]), 0, 30);
    engine
        .handle_message(&reading_payload("A", "1.2", "10.0", 264, 220), 0)
        .unwrap();
    let synthetic = engine.handle_timeout(31).unwrap();
    assert_eq!(synthetic.len(), 1);
    assert!(engine.stale_devices(32).is_empty());
    // and no second synthetic row appears on the next tick
    let again = engine.handle_timeout(32).unwrap();
    assert!(again.is_empty());
}

#[test]
fn unknown_device_is_discarded() {
    // a valid message for an unconfigured device neither creates a
    // liveness entry nor appends a reading
    let mut engine = Engine::new(&names(&["A"]), 0, 30);
    let r = engine.handle_message(&reading_payload("C", "1.2", "10.0", 264, 220), 5);
    assert!(matches!(r, Err(IngestError::UnknownDevice)));
    assert_eq!(engine.store_ref().row_count(), 0);
    assert!(!engine.tracker_ref().contains_name(&name("C")));
    assert_eq!(engine.tracker_ref().device_count(), 1);
}

#[test]
fn malformed_payload_is_discarded() {
    let mut engine = Engine::new(&names(&["A"]), 0, 30);
    let r = engine.handle_message(&b"not telemetry".to_vec(), 5);
    assert!(matches!(r, Err(IngestError::Decode(_))));
    assert_eq!(engine.store_ref().row_count(), 0);
}

#[test]
fn fresh_devices_are_left_alone() {
    let mut engine = Engine::new(&names(&["A", "B"]), 0, 30);
    engine
        .handle_message(&reading_payload("A", "0.5", "1.0", 100, 230), 10)
        .unwrap();
    // at t = 29 nothing is stale yet
    let synthetic = engine.handle_timeout(29).unwrap();
    assert!(synthetic.is_empty());
    assert_eq!(engine.store_ref().row_count(), 1);
}

#[test]
fn accepted_reading_is_stored_with_its_fields() {
    let mut engine = Engine::new(&names(&["A"]), 0, 30);
    let stored = engine
        .handle_message(&reading_payload("A", "0.045", "3.25", 7, 231), 42)
        .unwrap();
    assert_eq!(stored.friendly_name, name("A"));
    assert_eq!(stored.timestamp, 42);
    assert_eq!(stored.current, Milli(45));
    assert_eq!(stored.energy, Milli(3250));
    assert_eq!(stored.power, 7);
    assert_eq!(stored.voltage, 231);
    let latest = engine.store_ref().latest_for(&name("A")).unwrap();
    assert_eq!(latest.energy, Milli(3250));
}

#[test]
fn two_stale_devices_are_backfilled_in_order() {
    let mut engine = Engine::new(&names(&["A", "B"]), 0, 30);
    engine
        .handle_message(&reading_payload("A", "1.0", "5.0", 10, 220), 0)
        .unwrap();
    engine
        .handle_message(&reading_payload("B", "2.0", "6.0", 20, 230), 0)
        .unwrap();
    let synthetic = engine.handle_timeout(31).unwrap();
    assert_eq!(synthetic.len(), 2);
    assert_eq!(synthetic[0].friendly_name, name("A"));
    assert_eq!(synthetic[1].friendly_name, name("B"));
    assert_eq!(synthetic[0].energy, Milli(5000));
    assert_eq!(synthetic[1].energy, Milli(6000));
}

#[test]
fn seeded_baseline_feeds_backfill() {
    // a restarted process replays the last persisted row, so a silent
    // device is still backfilled from it
    let mut engine = Engine::new(&names(&["A"]), 0, 30);
    engine
        .seed_row(&name("A"), 0, Milli(1200), Milli(10000), 264, 220)
        .unwrap();
    let synthetic = engine.handle_timeout(31).unwrap();
    assert_eq!(synthetic.len(), 1);
    assert_eq!(synthetic[0].energy, Milli(10000));
    assert_eq!(synthetic[0].voltage, 220);
    assert_eq!(synthetic[0].current, Milli(0));
    assert_eq!(synthetic[0].power, 0);
}
