//! Buffers, first scans and sessions.

use pika::mem::access::MockMemoryAccess;
use pika::number::Double;
use pika::process::maps::{MapRegion, Permissions, RegionSafety};
use pika::scan::buffer::{scan_4byte_aligned, scan_buffer_for_pattern};
use pika::scan::candidate::{Candidate, TypeFlags, ValueType};
use pika::scan::engine::{first_scan, sort_and_dedup, ScanSession, SessionRegistry};

fn double(x: f64) -> Double {
    Double::from_bits(x.to_bits())
}

/// Helper: create a buffer with a known i32 value at specific offsets.
fn buffer_with_i32(size: usize, value: i32, offsets: &[usize]) -> Vec<u8> {
    let mut buf = vec![0u8; size];
    let bytes = value.to_le_bytes();
    for &off in offsets {
        buf[off..off + 4].copy_from_slice(&bytes);
    }
    buf
}

// ─── SIMD scan tests ────────────────────────────────────────────────────

#[test]
fn scan_4byte_finds_single_value() {
    let buf = buffer_with_i32(1024, 42, &[100]);
    let results = scan_buffer_for_pattern(&buf, &42_i32.to_le_bytes(), 4);
    assert_eq!(results, vec![100]);
}

#[test]
fn scan_4byte_finds_multiple_values() {
    let buf = buffer_with_i32(1024, 42, &[0, 100, 200, 500, 1000]);
    let results = scan_buffer_for_pattern(&buf, &42_i32.to_le_bytes(), 4);
    assert_eq!(results, vec![0, 100, 200, 500, 1000]);
}

#[test]
fn scan_4byte_no_match() {
    let buf = vec![0u8; 1024];
    let results = scan_buffer_for_pattern(&buf, &42_i32.to_le_bytes(), 4);
    assert!(results.is_empty());
}

#[test]
fn scan_4byte_zero_value() {
    // Buffer is all zeros, searching for 0 should match at every 4-byte offset
    let buf = vec![0u8; 64];
    let results = scan_buffer_for_pattern(&buf, &0_i32.to_le_bytes(), 4);
    assert_eq!(results.len(), 16); // 64 / 4
}

#[test]
fn scan_4byte_at_end_of_buffer() {
    let mut buf = vec![0u8; 36]; // 32 + 4, so the value is in the tail
    let bytes = 99_i32.to_le_bytes();
    buf[32..36].copy_from_slice(&bytes);
    let results = scan_buffer_for_pattern(&buf, &bytes, 4);
    assert!(results.contains(&32));
}

#[test]
fn scan_4byte_small_buffer() {
    let buf = 42_i32.to_le_bytes();
    let results = scan_buffer_for_pattern(&buf, &buf, 4);
    assert_eq!(results, vec![0]);
}

#[test]
fn scan_8byte_finds_value() {
    let mut buf = vec![0u8; 128];
    let val = 123_456_789_i64;
    let bytes = val.to_le_bytes();
    buf[64..72].copy_from_slice(&bytes);
    let results = scan_buffer_for_pattern(&buf, &bytes, 8);
    assert!(results.contains(&64));
}

#[test]
fn scan_f32_value() {
    let mut buf = vec![0u8; 256];
    let val = 3.14_f32;
    let bytes = val.to_le_bytes();
    buf[100..104].copy_from_slice(&bytes);
    let results = scan_buffer_for_pattern(&buf, &bytes, 4);
    assert!(results.contains(&100));
}

#[test]
fn scan_4byte_alignment_4() {
    // Place value at offset 2 (not 4-byte aligned)
    let mut buf = vec![0u8; 64];
    let bytes = 42_i32.to_le_bytes();
    buf[2..6].copy_from_slice(&bytes);
    // With 4-byte alignment, offset 2 should NOT be found
    let results = scan_4byte_aligned(&buf, &bytes, 4);
    assert!(!results.contains(&2));
}

// ─── Full scan integration tests ────────────────────────────────────────

#[test]
fn first_scan_with_mock_memory() {
    let mut mock = MockMemoryAccess::new(100);

    // Set up a 16KB safe region
    let mut data = vec![0u8; 16384];
    // Place value 100 (i32) at known offsets
    for offset in [0x100, 0x200, 0x1000] {
        data[offset..offset + 4].copy_from_slice(&100_i32.to_le_bytes());
    }
    mock.add_region(0x14000_0000, data);

    let safe_region = MapRegion {
        start: 0x14000_0000,
        end: 0x14000_4000,
        permissions: Permissions {
            read: true,
            write: true,
            execute: false,
            shared: false,
        },
        offset: 0,
        device: "00:00".to_string(),
        inode: 0,
        pathname: String::new(),
        safety: RegionSafety::Safe,
    };
    mock.set_maps(vec![safe_region]);

    let session = first_scan(&mut mock, 100, double(100.0), ValueType::I32).unwrap();
    assert!(!session.candidates.is_empty());
    // Should find at least our 3 planted values
    let addresses: Vec<u64> = session.candidates.iter().map(|c| c.address).collect();
    assert!(addresses.contains(&0x14000_0100));
    assert!(addresses.contains(&0x14000_0200));
    assert!(addresses.contains(&0x14000_1000));
}

#[test]
fn first_scan_skips_never_touch_regions() {
    let mut mock = MockMemoryAccess::new(100);

    // GPU region (NeverTouch)
    mock.add_region(0x7f00_0000_0000, vec![42; 4096]);
    // Safe region
    let mut safe_data = vec![0u8; 4096];
    safe_data[0..4].copy_from_slice(&42_i32.to_le_bytes());
    mock.add_region(0x14000_0000, safe_data);

    mock.set_maps(vec![
        MapRegion {
            start: 0x7f00_0000_0000,
            end: 0x7f00_0000_1000,
            permissions: Permissions { read: true, write: true, execute: false, shared: true },
            offset: 0,
            device: "00:06".to_string(),
            inode: 1111,
            pathname: "/dev/nvidia0".to_string(),
            safety: RegionSafety::NeverTouch,
        },
        MapRegion {
            start: 0x14000_0000,
            end: 0x14000_1000,
            permissions: Permissions { read: true, write: true, execute: false, shared: false },
            offset: 0,
            device: "00:00".to_string(),
            inode: 0,
            pathname: String::new(),
            safety: RegionSafety::Safe,
        },
    ]);

    let session = first_scan(&mut mock, 100, double(42.0), ValueType::I32).unwrap();
    // Should only find the value in the Safe region, not the GPU region
    for c in &session.candidates {
        assert!(c.address < 0x7f00_0000_0000, "found candidate in GPU region!");
    }
}

#[test]
fn first_scan_auto_finds_multiple_types() {
    let mut mock = MockMemoryAccess::new(100);
    let mut data = vec![0u8; 4096];
    // Place i32 value 100 at offset 0
    data[0..4].copy_from_slice(&100_i32.to_le_bytes());
    // Place f32 value 100.0 at offset 100 (different bit pattern)
    data[100..104].copy_from_slice(&100.0_f32.to_le_bytes());
    mock.add_region(0x1000, data);

    mock.set_maps(vec![MapRegion {
        start: 0x1000,
        end: 0x2000,
        permissions: Permissions { read: true, write: true, execute: false, shared: false },
        offset: 0,
        device: "00:00".to_string(),
        inode: 0,
        pathname: String::new(),
        safety: RegionSafety::Safe,
    }]);

    let session = first_scan(&mut mock, 100, double(100.0), ValueType::Auto).unwrap();
    // Should find both the i32 and f32 representations
    let has_i32 = session.candidates.iter().any(|c| c.types.contains(TypeFlags::int32()));
    let has_f32 = session.candidates.iter().any(|c| c.types.contains(TypeFlags::float32()));
    assert!(has_i32, "should find i32 representation of 100");
    assert!(has_f32, "should find f32 representation of 100.0");
}

#[test]
fn session_registry_basic() {
    let mut registry = SessionRegistry::new();
    let session = ScanSession {
        id: "test-123".to_string(),
        pid: 1,
        candidates: vec![Candidate::new(0x1000, TypeFlags::int32())],
        value: double(42.0),
        dtype: ValueType::I32,
    };
    registry.insert(session);

    assert_eq!(registry.get_candidate_count("test-123"), Some(1));
    assert_eq!(registry.get_candidate_count("nonexistent"), None);

    let removed = registry.remove("test-123");
    assert!(removed.is_some());
    assert_eq!(registry.get_candidate_count("test-123"), None);
}

#[test]
fn a_candidate_has_every_type_that_matched() {
    let mut mock = MockMemoryAccess::new(100);
    let mut data = vec![0u8; 4096];
    data[0] = 100;
    mock.add_region(0x1000, data);
    mock.set_maps(vec![MapRegion {
        start: 0x1000,
        end: 0x2000,
        permissions: Permissions { read: true, write: true, execute: false, shared: false },
        offset: 0,
        device: "00:00".to_string(),
        inode: 0,
        pathname: String::new(),
        safety: RegionSafety::Safe,
    }]);
    let session = first_scan(&mut mock, 100, double(100.0), ValueType::Auto).unwrap();
    assert_eq!(session.candidates.len(), 1);
    let c = session.candidates[0];
    assert_eq!(c.address, 0x1000);
    assert_eq!(c.types.to_text(), "i32|u32|i64|u64");
    assert_eq!(c.confidence, 0);
    assert_eq!(c.last_value, [100, 0, 0, 0, 0, 0, 0, 0]);
}

#[test]
fn a_wide_find_lends_its_bytes() {
    let narrow = Candidate::with_value(8, TypeFlags::int32(), [1, 2, 3, 4, 0, 0, 0, 0]);
    let wide = Candidate::with_value(8, TypeFlags::float64(), [1, 2, 3, 4, 5, 6, 7, 8]);
    let other = Candidate::with_value(4, TypeFlags::int64(), [9; 8]);
    for finds in [vec![narrow, other, wide], vec![wide, narrow, other]] {
        let r = sort_and_dedup(&finds);
        assert_eq!(r.len(), 2);
        assert_eq!(r[0].address, 4);
        assert_eq!(r[1].types.to_text(), "i32|f64");
        assert_eq!(r[1].last_value, [1, 2, 3, 4, 5, 6, 7, 8]);
    }
}
