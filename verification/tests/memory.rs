//! The simulated process.

use pika::mem::access::{MemoryAccess, MockMemoryAccess};
use pika::process::maps::{MapRegion, Permissions, RegionSafety};

fn make_mock() -> MockMemoryAccess {
    let mut mock = MockMemoryAccess::new(1234);
    // Add a 4KB region at address 0x1000
    mock.add_region(0x1000, vec![0u8; 4096]);
    mock
}

#[test]
fn mock_read_write_basic() {
    let mut mock = make_mock();
    // Write some bytes
    mock.write(1234, 0x1000, &[0xDE, 0xAD, 0xBE, 0xEF]).unwrap();
    // Read them back
    let mut buf = [0u8; 4];
    let n = mock.read(1234, 0x1000, &mut buf).unwrap();
    assert_eq!(n, 4);
    assert_eq!(buf, [0xDE, 0xAD, 0xBE, 0xEF]);
}

#[test]
fn mock_read_wrong_pid() {
    let mut mock = make_mock();
    let mut buf = [0u8; 4];
    let result = mock.read(9999, 0x1000, &mut buf);
    assert!(result.is_err());
}

#[test]
fn mock_read_unmapped_address() {
    let mut mock = make_mock();
    let mut buf = [0u8; 4];
    let result = mock.read(1234, 0xDEAD_0000, &mut buf);
    assert!(result.is_err());
}

#[test]
fn mock_write_typed_value() {
    let mut mock = make_mock();
    mock.write_value(0x1000, &42_i32.to_le_bytes());
    let val: i32 = bytemuck::pod_read_unaligned(&mock.read_value(0x1000, 4));
    assert_eq!(val, 42);
}

#[test]
fn mock_write_float() {
    let mut mock = make_mock();
    mock.write_value(0x1000, &3.14_f32.to_le_bytes());
    let val: f32 = bytemuck::pod_read_unaligned(&mock.read_value(0x1000, 4));
    assert!((val - 3.14).abs() < 1e-6);
}

#[test]
fn mock_maps() {
    let mut mock = make_mock();
    let regions = vec![MapRegion {
        start: 0x1000,
        end: 0x2000,
        permissions: Permissions {
            read: true,
            write: true,
            execute: false,
            shared: false,
        },
        offset: 0,
        device: "00:00".to_string(),
        inode: 0,
        pathname: String::new(),
        safety: RegionSafety::Safe,
    }];
    mock.set_maps(regions.clone());
    let read_maps = mock.read_maps(1234).unwrap();
    assert_eq!(read_maps.len(), 1);
    assert_eq!(read_maps[0].start, 0x1000);
}

#[test]
fn mock_partial_read_at_region_boundary() {
    let mut mock = MockMemoryAccess::new(1);
    mock.add_region(0x1000, vec![0xAA; 64]);
    // Try to read 128 bytes starting at 0x1000, but region is only 64 bytes
    let mut buf = [0u8; 128];
    let n = mock.read(1, 0x1000, &mut buf).unwrap();
    assert_eq!(n, 64);
    assert!(buf[..64].iter().all(|&b| b == 0xAA));
}

#[test]
fn a_failed_read_leaves_the_buffer_alone() {
    let mut mock = make_mock();
    let mut buf = [7u8; 4];
    assert!(mock.read(1, 0x1000, &mut buf).is_err());
    assert!(mock.read(1234, 0x9000, &mut buf).is_err());
    assert_eq!(buf, [7; 4]);
    let mut empty: [u8; 0] = [];
    assert!(mock.read(1234, 0x1000, &mut empty).is_err());
}
