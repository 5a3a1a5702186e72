use zpowergraph::errors::{NotFound, StorageError};
use zpowergraph::reading::{DeviceTable, Milli};
use zpowergraph::store::MemoryStore;

fn name(s: &str) -> Vec<u8> {
    s.as_bytes().to_vec()
}

#[test]
fn ensure_schema_is_idempotent() {
    // calling it twice in a row: one table, no error on the second call
    let mut store = MemoryStore::new();
    assert_eq!(store.ensure_schema(), Ok(()));
    assert_eq!(store.ensure_schema(), Ok(()));
    // the single table works: an append lands in it
    let id = store
        .append(&name("A"), 1, Milli(100), Milli(200), 3, 4)
        .unwrap();
    assert_eq!(id, 0);
    assert_eq!(store.row_count(), 1);
}

#[test]
fn append_without_schema_fails() {
    let mut store = MemoryStore::new();
    let r = store.append(&name("A"), 1, Milli(100), Milli(200), 3, 4);
    assert_eq!(r, Err(StorageError::MissingSchema));
    assert_eq!(store.row_count(), 0);
}

#[test]
fn identifiers_grow_with_each_append() {
    let mut store = MemoryStore::new();
    store.ensure_schema().unwrap();
    let a = store.append(&name("A"), 1, Milli(1), Milli(2), 3, 4).unwrap();
    let b = store.append(&name("B"), 2, Milli(5), Milli(6), 7, 8).unwrap();
    let c = store.append(&name("A"), 3, Milli(9), Milli(10), 11, 12).unwrap();
    assert_eq!((a, b, c), (0, 1, 2));
    assert_eq!(store.row_count(), 3);
    let row = store.row_at(1);
    assert_eq!(row.id, 1);
    assert_eq!(row.friendly_name, name("B"));
    assert_eq!(row.timestamp, 2);
}

#[test]
fn latest_for_returns_most_recent_row() {
    let mut store = MemoryStore::new();
    store.ensure_schema().unwrap();
    store.append(&name("A"), 1, Milli(1), Milli(2), 3, 4).unwrap();
    store.append(&name("B"), 2, Milli(5), Milli(6), 7, 8).unwrap();
    store.append(&name("A"), 3, Milli(9), Milli(10), 11, 12).unwrap();
    let latest = store.latest_for(&name("A")).unwrap();
    assert_eq!(latest.friendly_name, name("A"));
    assert_eq!(latest.current, Milli(9));
    assert_eq!(latest.energy, Milli(10));
    assert_eq!(latest.power, 11);
    assert_eq!(latest.voltage, 12);
}

#[test]
fn latest_for_unknown_device_is_not_found() {
    let mut store = MemoryStore::new();
    store.ensure_schema().unwrap();
    store.append(&name("A"), 1, Milli(1), Milli(2), 3, 4).unwrap();
    assert!(matches!(store.latest_for(&name("B")), Err(NotFound)));
}

#[test]
fn table_identifiers_match_schema() {
    assert_eq!(DeviceTable::Table.identifier(), "device_table");
    assert_eq!(DeviceTable::Id.identifier(), "id");
    assert_eq!(DeviceTable::FriendlyName.identifier(), "friendly_name");
    assert_eq!(DeviceTable::Timestamp.identifier(), "timestamp");
    assert_eq!(DeviceTable::Current.identifier(), "current");
    assert_eq!(DeviceTable::Energy.identifier(), "energy");
    assert_eq!(DeviceTable::Power.identifier(), "power");
    assert_eq!(DeviceTable::Voltage.identifier(), "voltage");
}
