//! Filter passes.

use pika::mem::access::MockMemoryAccess;
use pika::number::Double;
use pika::process::maps::{MapRegion, Permissions, RegionSafety};
use pika::scan::candidate::{Candidate, TypeFlags, ValueType};
use pika::scan::filter::{filter_candidates, FilterMode};

fn double(x: f64) -> Double {
    Double::from_bits(x.to_bits())
}

fn setup_mock_with_values(values: &[(u64, i32)]) -> MockMemoryAccess {
    let mut mock = MockMemoryAccess::new(1);
    let min_addr = values.iter().map(|(a, _)| *a).min().unwrap_or(0x1000);
    let max_addr = values.iter().map(|(a, _)| *a).max().unwrap_or(0x1000) + 8;
    let size = (max_addr - min_addr) as usize;
    let mut data = vec![0u8; size];
    for &(addr, val) in values {
        let offset = (addr - min_addr) as usize;
        data[offset..offset + 4].copy_from_slice(&val.to_le_bytes());
    }
    mock.add_region(min_addr, data);
    mock.set_maps(vec![MapRegion {
        start: min_addr,
        end: max_addr,
        permissions: Permissions {
            read: true,
            write: true,
            execute: false,
            shared: false,
        },
        offset: 0,
        device: "00:00".to_string(),
        inode: 0,
        pathname: String::new(),
        safety: RegionSafety::Safe,
    }]);
    mock
}

fn make_candidate(addr: u64, value: i32) -> Candidate {
    let mut last_value = [0u8; 8];
    last_value[..4].copy_from_slice(&value.to_le_bytes());
    Candidate {
        address: addr,
        types: TypeFlags::int32().union(TypeFlags::uint32()),
        confidence: 0,
        last_value,
    }
}

#[test]
fn filter_exact_match() {
    let mut mock = setup_mock_with_values(&[
        (0x1000, 95),
        (0x1004, 200),
        (0x1008, 95),
        (0x100C, 300),
    ]);

    let mut candidates = vec![
        make_candidate(0x1000, 100),
        make_candidate(0x1004, 100),
        make_candidate(0x1008, 100),
        make_candidate(0x100C, 100),
    ];

    let retained =
        filter_candidates(&mut mock, 1, &mut candidates, double(95.0), ValueType::I32, FilterMode::Exact)
            .unwrap();
    assert_eq!(retained, 2);
    assert_eq!(candidates[0].address, 0x1000);
    assert_eq!(candidates[1].address, 0x1008);
}

#[test]
fn filter_not_equal() {
    let mut mock = setup_mock_with_values(&[
        (0x1000, 95),
        (0x1004, 200),
        (0x1008, 95),
    ]);

    let mut candidates = vec![
        make_candidate(0x1000, 100),
        make_candidate(0x1004, 100),
        make_candidate(0x1008, 100),
    ];

    let retained = filter_candidates(
        &mut mock, 1, &mut candidates, double(95.0), ValueType::I32, FilterMode::NotEqual,
    )
    .unwrap();
    assert_eq!(retained, 1);
    assert_eq!(candidates[0].address, 0x1004); // only 200 != 95
}

#[test]
fn filter_increased() {
    let mut mock = setup_mock_with_values(&[
        (0x1000, 150), // was 100 -> now 150 (increased)
        (0x1004, 50),  // was 100 -> now 50 (decreased)
        (0x1008, 100), // was 100 -> now 100 (unchanged)
    ]);

    let mut candidates = vec![
        make_candidate(0x1000, 100),
        make_candidate(0x1004, 100),
        make_candidate(0x1008, 100),
    ];

    let retained = filter_candidates(
        &mut mock, 1, &mut candidates, double(0.0), ValueType::I32, FilterMode::Increased,
    )
    .unwrap();
    assert_eq!(retained, 1);
    assert_eq!(candidates[0].address, 0x1000);
}

#[test]
fn filter_decreased() {
    let mut mock = setup_mock_with_values(&[
        (0x1000, 150), // increased
        (0x1004, 50),  // decreased
        (0x1008, 100), // unchanged
    ]);

    let mut candidates = vec![
        make_candidate(0x1000, 100),
        make_candidate(0x1004, 100),
        make_candidate(0x1008, 100),
    ];

    let retained = filter_candidates(
        &mut mock, 1, &mut candidates, double(0.0), ValueType::I32, FilterMode::Decreased,
    )
    .unwrap();
    assert_eq!(retained, 1);
    assert_eq!(candidates[0].address, 0x1004);
}

#[test]
fn filter_changed() {
    let mut mock = setup_mock_with_values(&[
        (0x1000, 150), // changed
        (0x1004, 100), // unchanged
        (0x1008, 50),  // changed
    ]);

    let mut candidates = vec![
        make_candidate(0x1000, 100),
        make_candidate(0x1004, 100),
        make_candidate(0x1008, 100),
    ];

    let retained = filter_candidates(
        &mut mock, 1, &mut candidates, double(0.0), ValueType::I32, FilterMode::Changed,
    )
    .unwrap();
    assert_eq!(retained, 2);
    assert_eq!(candidates[0].address, 0x1000);
    assert_eq!(candidates[1].address, 0x1008);
}

#[test]
fn filter_unchanged() {
    let mut mock = setup_mock_with_values(&[
        (0x1000, 150), // changed
        (0x1004, 100), // unchanged
        (0x1008, 50),  // changed
    ]);

    let mut candidates = vec![
        make_candidate(0x1000, 100),
        make_candidate(0x1004, 100),
        make_candidate(0x1008, 100),
    ];

    let retained = filter_candidates(
        &mut mock, 1, &mut candidates, double(0.0), ValueType::I32, FilterMode::Unchanged,
    )
    .unwrap();
    assert_eq!(retained, 1);
    assert_eq!(candidates[0].address, 0x1004);
}

#[test]
fn filter_changed_plus_unchanged_is_all() {
    let mut mock = setup_mock_with_values(&[
        (0x1000, 150),
        (0x1004, 100),
        (0x1008, 50),
    ]);

    let base_candidates = vec![
        make_candidate(0x1000, 100),
        make_candidate(0x1004, 100),
        make_candidate(0x1008, 100),
    ];

    let mut changed = base_candidates.clone();
    let n_changed = filter_candidates(
        &mut mock, 1, &mut changed, double(0.0), ValueType::I32, FilterMode::Changed,
    )
    .unwrap();

    let mut unchanged = base_candidates.clone();
    let n_unchanged = filter_candidates(
        &mut mock, 1, &mut unchanged, double(0.0), ValueType::I32, FilterMode::Unchanged,
    )
    .unwrap();

    assert_eq!(n_changed + n_unchanged, base_candidates.len());
}

#[test]
fn filter_updates_last_value() {
    let mut mock = setup_mock_with_values(&[(0x1000, 200)]);

    let mut candidates = vec![make_candidate(0x1000, 100)];
    filter_candidates(
        &mut mock, 1, &mut candidates, double(0.0), ValueType::I32, FilterMode::Changed,
    )
    .unwrap();

    // last_value should now be 200
    let stored = i32::from_le_bytes(candidates[0].last_value[..4].try_into().unwrap());
    assert_eq!(stored, 200);
}

#[test]
fn filter_removes_unmapped() {
    let mut mock = MockMemoryAccess::new(1);
    mock.add_region(0x1000, vec![0u8; 16]);
    mock.set_maps(vec![MapRegion {
        start: 0x1000,
        end: 0x1010,
        permissions: Permissions {
            read: true,
            write: true,
            execute: false,
            shared: false,
        },
        offset: 0,
        device: "00:00".to_string(),
        inode: 0,
        pathname: String::new(),
        safety: RegionSafety::Safe,
    }]);

    let mut candidates = vec![
        make_candidate(0x1000, 0),
        make_candidate(0xDEAD_0000, 0), // unmapped
    ];

    let retained = filter_candidates(
        &mut mock, 1, &mut candidates, double(0.0), ValueType::I32, FilterMode::Exact,
    )
    .unwrap();
    assert_eq!(retained, 1);
    assert_eq!(candidates[0].address, 0x1000);
}

#[test]
fn filter_exact_narrows_types() {
    let mut mock = setup_mock_with_values(&[(0x1000, 100)]);

    let mut candidates = vec![Candidate {
        address: 0x1000,
        types: TypeFlags::int32().union(TypeFlags::uint32()).union(TypeFlags::float32()),
        confidence: 0,
        last_value: [0; 8],
    }];

    filter_candidates(
        &mut mock, 1, &mut candidates, double(100.0), ValueType::Auto, FilterMode::Exact,
    )
    .unwrap();

    assert!(candidates[0].types.contains(TypeFlags::int32()));
    // f32(100.0) = 0x42c80000 != i32(100) = 0x64000000
    assert!(!candidates[0].types.contains(TypeFlags::float32()));
}

#[test]
fn filter_mode_parsing() {
    assert_eq!(FilterMode::from_str_loose("exact").unwrap(), FilterMode::Exact);
    assert_eq!(FilterMode::from_str_loose("increased").unwrap(), FilterMode::Increased);
    assert_eq!(FilterMode::from_str_loose("inc").unwrap(), FilterMode::Increased);
    assert_eq!(FilterMode::from_str_loose(">").unwrap(), FilterMode::Increased);
    assert_eq!(FilterMode::from_str_loose("not-equal").unwrap(), FilterMode::NotEqual);
    assert_eq!(FilterMode::from_str_loose("unchanged").unwrap(), FilterMode::Unchanged);
    assert!(FilterMode::from_str_loose("bogus").is_err());
}

#[test]
fn filter_confidence_increments() {
    let mut mock = setup_mock_with_values(&[(0x1000, 42)]);
    let mut candidates = vec![Candidate {
        address: 0x1000,
        types: TypeFlags::int32().union(TypeFlags::uint32()),
        confidence: 5,
        last_value: [0; 8],
    }];

    filter_candidates(
        &mut mock, 1, &mut candidates, double(42.0), ValueType::I32, FilterMode::Exact,
    )
    .unwrap();
    assert_eq!(candidates[0].confidence, 6);
}

#[test]
fn wide_integers_are_compared_exactly() {
    let mut mock = MockMemoryAccess::new(1);
    mock.add_region(0x1000, ((1_u64 << 53) + 1).to_le_bytes().to_vec());
    for types in [TypeFlags::int64(), TypeFlags::uint64()] {
        let before = Candidate::with_value(0x1000, types, (1_u64 << 53).to_le_bytes());
        let mut kept = |mode: FilterMode| {
            let mut v = vec![before];
            filter_candidates(&mut mock, 1, &mut v, double(0.0), ValueType::Auto, mode).unwrap()
        };
        assert_eq!(kept(FilterMode::Increased), 1);
        assert_eq!(kept(FilterMode::Decreased), 0);
    }
}

#[test]
fn a_second_pass_over_the_same_memory_keeps_all() {
    let mut mock = MockMemoryAccess::new(1);
    mock.add_region(0x1000, (1..=64).collect());
    let wide = TypeFlags::int32().union(TypeFlags::int64());
    let all: Vec<Candidate> =
        (0..6).map(|i| Candidate::new(0x1000 + 8 * i, wide)).collect();
    let value = f64::from(i32::from_le_bytes([1, 2, 3, 4]));
    for mode in [FilterMode::Exact, FilterMode::NotEqual, FilterMode::Changed] {
        let mut first = all.clone();
        let n = filter_candidates(&mut mock, 1, &mut first, double(value), ValueType::Auto, mode)
            .unwrap();
        assert!(n > 0);
        let mut second = first.clone();
        let m = filter_candidates(
            &mut mock,
            1,
            &mut second,
            double(0.0),
            ValueType::Auto,
            FilterMode::Unchanged,
        )
        .unwrap();
        assert_eq!(m, n);
        for (a, b) in first.iter().zip(&second) {
            assert_eq!((a.address, a.types, a.confidence + 1), (b.address, b.types, b.confidence));
        }
    }
}
