//! Writing values.

use pika::mem::access::MockMemoryAccess;
use pika::mem::write::write_value;
use pika::number::Double;
use pika::process::maps::{MapRegion, Permissions, RegionSafety};
use pika::scan::candidate::ValueType;

fn double(x: f64) -> Double {
    Double::from_bits(x.to_bits())
}

fn mock_with_safe_region() -> MockMemoryAccess {
    let mut mock = MockMemoryAccess::new(1);
    mock.add_region(0x1000, vec![0u8; 4096]);
    mock.set_maps(vec![MapRegion {
        start: 0x1000,
        end: 0x2000,
        permissions: Permissions { read: true, write: true, execute: false, shared: false },
        offset: 0,
        device: "00:00".to_string(),
        inode: 0,
        pathname: String::new(),
        safety: RegionSafety::Safe,
    }]);
    mock
}

#[test]
fn write_i32_value() {
    let mut mock = mock_with_safe_region();
    write_value(&mut mock, 1, 0x1000, double(42.0), ValueType::I32).unwrap();
    let val: i32 = bytemuck::pod_read_unaligned(&mock.read_value(0x1000, 4));
    assert_eq!(val, 42);
}

#[test]
fn write_f32_value() {
    let mut mock = mock_with_safe_region();
    write_value(&mut mock, 1, 0x1000, double(3.14), ValueType::F32).unwrap();
    let val: f32 = bytemuck::pod_read_unaligned(&mock.read_value(0x1000, 4));
    assert!((val - 3.14).abs() < 0.001);
}

#[test]
fn write_i64_value() {
    let mut mock = mock_with_safe_region();
    write_value(&mut mock, 1, 0x1000, double(999_999_999.0), ValueType::I64).unwrap();
    let val: i64 = bytemuck::pod_read_unaligned(&mock.read_value(0x1000, 8));
    assert_eq!(val, 999_999_999);
}

#[test]
fn write_rejects_never_touch_region() {
    let mut mock = MockMemoryAccess::new(1);
    mock.add_region(0x7f00_0000, vec![0u8; 4096]);
    mock.set_maps(vec![MapRegion {
        start: 0x7f00_0000,
        end: 0x7f00_1000,
        permissions: Permissions { read: true, write: true, execute: false, shared: true },
        offset: 0,
        device: "00:06".to_string(),
        inode: 1111,
        pathname: "/dev/nvidia0".to_string(),
        safety: RegionSafety::NeverTouch,
    }]);

    let result = write_value(&mut mock, 1, 0x7f00_0000, double(42.0), ValueType::I32);
    assert!(result.is_err());
    assert!(
        result.unwrap_err().message().contains("ABORT"),
        "should abort write to NeverTouch region"
    );
}

#[test]
fn write_rejects_risky_region() {
    let mut mock = MockMemoryAccess::new(1);
    mock.add_region(0x5000, vec![0u8; 4096]);
    mock.set_maps(vec![MapRegion {
        start: 0x5000,
        end: 0x6000,
        permissions: Permissions { read: true, write: true, execute: false, shared: false },
        offset: 0,
        device: "00:00".to_string(),
        inode: 0,
        pathname: "/path/to/dxvk/d3d11.dll".to_string(),
        safety: RegionSafety::Risky,
    }]);

    let result = write_value(&mut mock, 1, 0x5000, double(42.0), ValueType::I32);
    assert!(result.is_err());
}

#[test]
fn write_rejects_unmapped_address() {
    let mut mock = mock_with_safe_region();
    let result = write_value(&mut mock, 1, 0xDEAD_0000, double(42.0), ValueType::I32);
    assert!(result.is_err());
    assert!(result.unwrap_err().message().contains("not within any mapped region"));
}

#[test]
fn write_rejects_auto_type() {
    let mut mock = mock_with_safe_region();
    let result = write_value(&mut mock, 1, 0x1000, double(42.0), ValueType::Auto);
    assert!(result.is_err());
}

#[test]
fn write_rejects_readonly_region() {
    let mut mock = MockMemoryAccess::new(1);
    mock.add_region(0x3000, vec![0u8; 4096]);
    mock.set_maps(vec![MapRegion {
        start: 0x3000,
        end: 0x4000,
        permissions: Permissions { read: true, write: false, execute: true, shared: false },
        offset: 0,
        device: "00:00".to_string(),
        inode: 0,
        pathname: "/path/to/Game.exe".to_string(),
        safety: RegionSafety::ReadOnly,
    }]);

    let result = write_value(&mut mock, 1, 0x3000, double(42.0), ValueType::I32);
    assert!(result.is_err());
}
