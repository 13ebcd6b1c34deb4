//! Byte patterns.

use pika::mem::access::MockMemoryAccess;
use pika::process::maps::{MapRegion, Permissions, RegionSafety};
use pika::scan::aob::{aob_scan, byte_rarity, find_matches, parse_aob_pattern, pick_anchor};

fn region(start: u64, end: u64, safety: RegionSafety) -> MapRegion {
    MapRegion {
        start,
        end,
        permissions: Permissions { read: true, write: true, execute: false, shared: false },
        offset: 0,
        device: "00:00".to_string(),
        inode: 0,
        pathname: String::new(),
        safety,
    }
}

#[test]
fn patterns_are_parsed() {
    assert_eq!(
        parse_aob_pattern("48 89 ?? 24 *").unwrap(),
        vec![Some(0x48), Some(0x89), None, Some(0x24), None]
    );
    assert_eq!(parse_aob_pattern("").unwrap_err().message(), "empty AOB pattern");
    assert_eq!(
        parse_aob_pattern("?? ??").unwrap_err().message(),
        "AOB pattern has only wildcards"
    );
    assert_eq!(
        parse_aob_pattern("48 xyz").unwrap_err().message(),
        "invalid byte in AOB pattern: 'xyz'"
    );
}

#[test]
fn the_rarest_byte_is_the_anchor() {
    let pattern = [Some(0x00), None, Some(0x48), Some(0xe7)];
    let anchor = pick_anchor(&pattern);
    let best = pattern[anchor].unwrap();
    for b in pattern.into_iter().flatten() {
        assert!(byte_rarity(best) >= byte_rarity(b));
    }
    let data = [0x00, 0x11, 0x48, 0xe7, 0x00, 0x22, 0x48, 0xe7, 0x00];
    assert_eq!(find_matches(&data, &pattern, anchor), vec![0, 4]);
}

#[test]
fn matches_across_chunks_are_found() {
    let mut mock = MockMemoryAccess::new(1);
    let mut data = vec![0u8; 0x40_1000];
    // across the boundary between two chunks of 4 MB
    data[0x3f_fffe..0x40_0002].copy_from_slice(&[0xde, 0xad, 0xbe, 0xef]);
    data[0x10..0x14].copy_from_slice(&[0xde, 0xad, 0x00, 0xef]);
    mock.add_region(0x1000_0000, data);
    mock.set_maps(vec![region(0x1000_0000, 0x1040_1000, RegionSafety::Safe)]);
    let pattern = parse_aob_pattern("de ad ?? ef").unwrap();
    assert_eq!(
        aob_scan(&mut mock, 1, &pattern, false).unwrap(),
        vec![0x1000_0010, 0x103f_fffe]
    );
}

#[test]
fn read_only_regions_are_searched_on_request() {
    let mut mock = MockMemoryAccess::new(1);
    mock.add_region(0x1000, vec![0xcc; 16]);
    mock.add_region(0x2000, vec![0xcc; 4]);
    mock.add_region(0x3000, vec![0xcc; 4]);
    mock.set_maps(vec![
        region(0x1000, 0x1010, RegionSafety::NeverTouch),
        region(0x2000, 0x2004, RegionSafety::ReadOnly),
        region(0x3000, 0x3004, RegionSafety::Safe),
    ]);
    let pattern = parse_aob_pattern("cc cc cc cc").unwrap();
    assert_eq!(aob_scan(&mut mock, 1, &pattern, false).unwrap(), vec![0x3000]);
    assert_eq!(aob_scan(&mut mock, 1, &pattern, true).unwrap(), vec![0x2000, 0x3000]);
    assert!(aob_scan(&mut mock, 2, &pattern, true).is_err());
}
