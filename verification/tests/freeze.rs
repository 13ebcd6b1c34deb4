//! Held values.

use pika::mem::access::MockMemoryAccess;
use pika::mem::freeze::{freeze_step, FreezeEntry, FreezeManager};
use pika::number::Double;
use pika::process::maps::{MapRegion, Permissions, RegionSafety};
use pika::scan::candidate::ValueType;

fn mock_with_region() -> MockMemoryAccess {
    let mut mock = MockMemoryAccess::new(1);
    mock.add_region(0x1000, vec![0u8; 4096]);
    mock.set_maps(vec![MapRegion {
        start: 0x1000,
        end: 0x2000,
        permissions: Permissions { read: true, write: true, execute: false, shared: false },
        offset: 0,
        device: "00:00".to_string(),
        inode: 0,
        pathname: String::new(),
        safety: RegionSafety::Safe,
    }]);
    mock
}

fn entry(value: f64, interval_ms: u64) -> FreezeEntry {
    FreezeEntry {
        pid: 1,
        address: 0x1000,
        value: Double::from_bits(value.to_bits()),
        dtype: ValueType::I32,
        interval_ms,
    }
}

fn stored(mock: &MockMemoryAccess) -> i32 {
    bytemuck::pod_read_unaligned(&mock.read_value(0x1000, 4))
}

#[test]
fn freeze_start_and_stop() {
    let mut mock = mock_with_region();
    let mut manager = FreezeManager::new();
    let held = entry(999.0, 50);
    assert!(manager.start(held).is_none());

    // Let the freeze loop write a few times
    for _ in 0..4 {
        freeze_step(&mut mock, &held).unwrap();
    }

    // Value should have been written
    assert_eq!(stored(&mock), 999);

    // Stop and verify it's no longer in the list
    manager.stop(0x1000);
    assert!(manager.list().is_empty());
}

#[test]
fn freeze_list_entries() {
    let mut manager = FreezeManager::new();
    manager.start(entry(42.0, 100));

    let list = manager.list();
    assert_eq!(list.len(), 1);
    assert!((f64::from_bits(list[0].value.bits) - 42.0).abs() < f64::EPSILON);
    assert!(list[0].active);
    assert_eq!(list[0].address, "0x1000");
    assert_eq!(list[0].dtype, "i32");
    assert_eq!(list[0].interval_ms, 100);

    assert_eq!(manager.stop_all(), vec![0x1000]);
    assert!(manager.list().is_empty());
}

#[test]
fn freeze_replaces_existing() {
    let mut mock = mock_with_region();
    let mut manager = FreezeManager::new();
    manager.start(entry(100.0, 50));

    // Replace with different value
    let second = entry(200.0, 50);
    let first = manager.start(second).unwrap();
    assert_eq!(f64::from_bits(first.value.bits), 100.0);
    assert_eq!(manager.list().len(), 1);

    freeze_step(&mut mock, &second).unwrap();
    assert_eq!(stored(&mock), 200);

    manager.stop_all();
}

#[test]
fn a_step_is_refused_where_the_region_changed() {
    let mut mock = mock_with_region();
    let held = entry(7.0, 50);
    freeze_step(&mut mock, &held).unwrap();
    mock.set_maps(vec![]);
    assert!(freeze_step(&mut mock, &held).is_err());
    assert_eq!(stored(&mock), 7);
}

#[test]
fn a_freeze_that_failed_is_no_longer_listed() {
    let mut mock = mock_with_region();
    let mut manager = FreezeManager::new();
    let held = entry(7.0, 50);
    manager.start(held);
    let round = freeze_step(&mut mock, &held);
    assert!(manager.take_in(&held, &round));
    assert_eq!(manager.list().len(), 1);
    mock.set_maps(vec![]);
    let round = freeze_step(&mut mock, &held);
    // another value has taken its place meanwhile
    let newer = entry(8.0, 50);
    manager.start(newer);
    assert!(!manager.take_in(&held, &round));
    assert_eq!(manager.list().len(), 1);
    assert!(!manager.take_in(&newer, &round));
    assert!(manager.list().is_empty());
}
