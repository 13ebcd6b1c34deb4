//! Pointer chains.

use pika::mem::access::MockMemoryAccess;
use pika::process::maps::{MapRegion, Permissions, RegionSafety};
use pika::scan::pointer::{extract_module_bases, find_pointer_chains, PointerScanParams};

fn rw_perms() -> Permissions {
    Permissions {
        read: true,
        write: true,
        execute: false,
        shared: false,
    }
}

fn make_region(start: u64, end: u64, path: &str, safety: RegionSafety) -> MapRegion {
    MapRegion {
        start,
        end,
        permissions: Permissions {
            read: true,
            write: false,
            execute: true,
            shared: false,
        },
        offset: 0,
        device: "00:00".to_string(),
        inode: 0,
        pathname: path.to_string(),
        safety,
    }
}

#[test]
fn extract_modules_from_maps() {
    let regions = vec![
        make_region(
            0x0001_4000_0000,
            0x0001_4000_1000,
            "/path/to/Game.exe",
            RegionSafety::ReadOnly,
        ),
        make_region(
            0x0001_4000_1000,
            0x0001_4200_0000,
            "/path/to/Game.exe",
            RegionSafety::ReadOnly,
        ),
        make_region(
            0x0001_4200_0000,
            0x0001_4280_0000,
            "/path/to/Game.exe",
            RegionSafety::ReadOnly,
        ),
        make_region(
            0x0001_8000_0000,
            0x0001_8020_0000,
            "/path/to/GameLogic.dll",
            RegionSafety::ReadOnly,
        ),
        make_region(
            0x7f00_0000,
            0x7f00_1000,
            "/dev/nvidia0",
            RegionSafety::NeverTouch,
        ),
        make_region(0x1000, 0x2000, "", RegionSafety::Safe),
    ];

    let modules = extract_module_bases(&regions);
    assert_eq!(modules.len(), 2);
    let game = modules
        .iter()
        .find(|(name, _, _)| name.contains("Game.exe"));
    assert!(game.is_some());
    let (_, start, end) = game.unwrap();
    assert_eq!(*start, 0x0001_4000_0000);
    assert_eq!(*end, 0x0001_4280_0000);
}

#[test]
fn extract_modules_skips_anonymous() {
    let regions = vec![make_region(0x1000, 0x2000, "", RegionSafety::Safe)];
    let modules = extract_module_bases(&regions);
    assert!(modules.is_empty());
}

#[test]
fn extract_modules_skips_special_labels() {
    let regions = vec![
        make_region(0x1000, 0x2000, "[stack]", RegionSafety::Risky),
        make_region(0x3000, 0x4000, "[heap]", RegionSafety::Safe),
        make_region(0x5000, 0x6000, "[vdso]", RegionSafety::ReadOnly),
    ];
    let modules = extract_module_bases(&regions);
    assert!(modules.is_empty());
}

#[test]
fn default_params() {
    let params = PointerScanParams::default();
    assert_eq!(params.max_offset, 0x1000);
    assert_eq!(params.max_depth, 5);
}

#[test]
fn find_direct_pointer_chain() {
    // Layout:
    // Module "Game.exe" at 0x14000_0000 - 0x14000_2000
    //   At offset 0x100 in the module, a pointer to the target address
    // Heap at 0x2000_0000 - 0x2000_1000
    //   Target value at 0x2000_0500

    let mut mock = MockMemoryAccess::new(1);

    // Module region: write a pointer at 0x14000_0100 that points to 0x2000_0500
    let mut module_data = vec![0u8; 0x2000];
    let target_addr: u64 = 0x2000_0500;
    module_data[0x100..0x108].copy_from_slice(&target_addr.to_le_bytes());
    mock.add_region(0x0001_4000_0000, module_data);

    // Heap region: target value lives here
    let heap_data = vec![0u8; 0x1000];
    mock.add_region(0x2000_0000, heap_data);

    let regions = vec![
        MapRegion {
            start: 0x0001_4000_0000,
            end: 0x0001_4000_2000,
            permissions: rw_perms(),
            offset: 0,
            device: "00:00".to_string(),
            inode: 0,
            pathname: "/path/to/Game.exe".to_string(),
            safety: RegionSafety::Safe,
        },
        MapRegion {
            start: 0x2000_0000,
            end: 0x2000_1000,
            permissions: rw_perms(),
            offset: 0,
            device: "00:00".to_string(),
            inode: 0,
            pathname: String::new(),
            safety: RegionSafety::Safe,
        },
    ];
    mock.set_maps(regions.clone());

    let params = PointerScanParams {
        max_offset: 0x100,
        max_depth: 3,
        max_results: 10,
    };

    let chains = find_pointer_chains(&mut mock, 1, target_addr, &regions, &params).unwrap();
    assert!(!chains.is_empty(), "should find at least one chain");

    let chain = &chains[0];
    assert!(chain.base_module.contains("Game.exe"));
    assert_eq!(chain.base_offset, 0x100);
    assert_eq!(chain.links.len(), 1); // direct pointer, depth 1
    assert_eq!(chain.links[0].offset, 0); // exact pointer, no offset
}

#[test]
fn find_chain_with_offset() {
    // Module has a pointer to (target - 0x10), so offset is 0x10
    let mut mock = MockMemoryAccess::new(1);

    let target_addr: u64 = 0x2000_0510;
    let pointer_value: u64 = 0x2000_0500; // points 0x10 before target

    let mut module_data = vec![0u8; 0x1000];
    module_data[0x80..0x88].copy_from_slice(&pointer_value.to_le_bytes());
    mock.add_region(0x0001_4000_0000, module_data);
    mock.add_region(0x2000_0000, vec![0u8; 0x1000]);

    let regions = vec![
        MapRegion {
            start: 0x0001_4000_0000,
            end: 0x0001_4000_1000,
            permissions: rw_perms(),
            offset: 0,
            device: "00:00".to_string(),
            inode: 0,
            pathname: "/Game.exe".to_string(),
            safety: RegionSafety::Safe,
        },
        MapRegion {
            start: 0x2000_0000,
            end: 0x2000_1000,
            permissions: rw_perms(),
            offset: 0,
            device: "00:00".to_string(),
            inode: 0,
            pathname: String::new(),
            safety: RegionSafety::Safe,
        },
    ];
    mock.set_maps(regions.clone());

    let params = PointerScanParams {
        max_offset: 0x100,
        max_depth: 3,
        max_results: 10,
    };

    let chains = find_pointer_chains(&mut mock, 1, target_addr, &regions, &params).unwrap();
    assert!(!chains.is_empty());
    // The offset should be 0x10 (target - pointer_value)
    assert_eq!(chains[0].links[0].offset, 0x10);
}

#[test]
fn depth_limit_respected() {
    // Create a chain: module -> A -> B -> target (depth 3)
    // With max_depth=1, only direct pointers should be found
    let mut mock = MockMemoryAccess::new(1);
    let target: u64 = 0x3000_0100;

    // B points to target (at 0x2000_0000)
    let mut b_data = vec![0u8; 0x1000];
    b_data[0..8].copy_from_slice(&target.to_le_bytes());
    mock.add_region(0x2000_0000, b_data);

    // Module does NOT point to target directly
    let module_data = vec![0u8; 0x1000];
    mock.add_region(0x0001_4000_0000, module_data);

    // Target region
    mock.add_region(0x3000_0000, vec![0u8; 0x1000]);

    let regions = vec![
        MapRegion {
            start: 0x0001_4000_0000,
            end: 0x0001_4000_1000,
            permissions: rw_perms(),
            offset: 0,
            device: "00:00".to_string(),
            inode: 0,
            pathname: "/Game.exe".to_string(),
            safety: RegionSafety::Safe,
        },
        MapRegion {
            start: 0x2000_0000,
            end: 0x2000_1000,
            permissions: rw_perms(),
            offset: 0,
            device: "00:00".to_string(),
            inode: 0,
            pathname: String::new(),
            safety: RegionSafety::Safe,
        },
        MapRegion {
            start: 0x3000_0000,
            end: 0x3000_1000,
            permissions: rw_perms(),
            offset: 0,
            device: "00:00".to_string(),
            inode: 0,
            pathname: String::new(),
            safety: RegionSafety::Safe,
        },
    ];
    mock.set_maps(regions.clone());

    // With depth 1, no chains found (module doesn't directly point to target)
    let params = PointerScanParams {
        max_offset: 0x100,
        max_depth: 1,
        max_results: 10,
    };
    let chains = find_pointer_chains(&mut mock, 1, target, &regions, &params).unwrap();
    // B points to target but B is not in a module, and depth=1 doesn't allow further search
    assert!(chains.is_empty());
}

#[test]
fn two_level_chain() {
    // Module at 0x14000_0000 has pointer to 0x2000_0000 (an intermediate struct)
    // 0x2000_0000 has pointer to 0x3000_0100 (target)
    let mut mock = MockMemoryAccess::new(1);
    let target: u64 = 0x3000_0100;
    let intermediate: u64 = 0x2000_0000;

    // Module -> intermediate
    let mut module_data = vec![0u8; 0x1000];
    module_data[0x200..0x208].copy_from_slice(&intermediate.to_le_bytes());
    mock.add_region(0x0001_4000_0000, module_data);

    // Intermediate -> target
    let mut inter_data = vec![0u8; 0x1000];
    inter_data[0x50..0x58].copy_from_slice(&target.to_le_bytes());
    mock.add_region(0x2000_0000, inter_data);

    mock.add_region(0x3000_0000, vec![0u8; 0x1000]);

    let regions = vec![
        MapRegion {
            start: 0x0001_4000_0000,
            end: 0x0001_4000_1000,
            permissions: rw_perms(),
            offset: 0,
            device: "00:00".to_string(),
            inode: 0,
            pathname: "/Game.exe".to_string(),
            safety: RegionSafety::Safe,
        },
        MapRegion {
            start: 0x2000_0000,
            end: 0x2000_1000,
            permissions: rw_perms(),
            offset: 0,
            device: "00:00".to_string(),
            inode: 0,
            pathname: String::new(),
            safety: RegionSafety::Safe,
        },
        MapRegion {
            start: 0x3000_0000,
            end: 0x3000_1000,
            permissions: rw_perms(),
            offset: 0,
            device: "00:00".to_string(),
            inode: 0,
            pathname: String::new(),
            safety: RegionSafety::Safe,
        },
    ];
    mock.set_maps(regions.clone());

    let params = PointerScanParams {
        max_offset: 0x100,
        max_depth: 3,
        max_results: 10,
    };

    let chains = find_pointer_chains(&mut mock, 1, target, &regions, &params).unwrap();
    assert!(!chains.is_empty(), "should find the 2-level chain");
    // The chain should have 2 links
    let chain = chains.iter().find(|c| c.links.len() == 2);
    assert!(chain.is_some(), "should have a depth-2 chain");
}

#[test]
fn no_chains_when_no_pointers() {
    let mut mock = MockMemoryAccess::new(1);
    mock.add_region(0x0001_4000_0000, vec![0u8; 0x1000]);
    mock.add_region(0x2000_0000, vec![0u8; 0x1000]);

    let regions = vec![
        MapRegion {
            start: 0x0001_4000_0000,
            end: 0x0001_4000_1000,
            permissions: rw_perms(),
            offset: 0,
            device: "00:00".to_string(),
            inode: 0,
            pathname: "/Game.exe".to_string(),
            safety: RegionSafety::Safe,
        },
        MapRegion {
            start: 0x2000_0000,
            end: 0x2000_1000,
            permissions: rw_perms(),
            offset: 0,
            device: "00:00".to_string(),
            inode: 0,
            pathname: String::new(),
            safety: RegionSafety::Safe,
        },
    ];
    mock.set_maps(regions.clone());

    let params = PointerScanParams::default();
    let chains = find_pointer_chains(&mut mock, 1, 0x2000_0500, &regions, &params).unwrap();
    assert!(chains.is_empty());
}

#[test]
fn pointer_extract_modules_from_maps() {
    let regions = vec![
        make_region(0x14000_0000, 0x14000_1000, "/path/to/Game.exe", RegionSafety::ReadOnly),
        make_region(0x14000_1000, 0x14200_0000, "/path/to/Game.exe", RegionSafety::ReadOnly),
        make_region(0x14200_0000, 0x14280_0000, "/path/to/Game.exe", RegionSafety::ReadOnly),
        make_region(0x18000_0000, 0x18020_0000, "/path/to/GameLogic.dll", RegionSafety::ReadOnly),
        make_region(0x7f00_0000, 0x7f00_1000, "/dev/nvidia0", RegionSafety::NeverTouch),
        make_region(0x1000, 0x2000, "", RegionSafety::Safe), // anonymous
    ];

    let modules = extract_module_bases(&regions);
    assert_eq!(modules.len(), 2);

    // Game.exe should span the full range
    let game = modules.iter().find(|(name, _, _)| name.contains("Game.exe"));
    assert!(game.is_some());
    let (_, start, end) = game.unwrap();
    assert_eq!(*start, 0x14000_0000);
    assert_eq!(*end, 0x14280_0000);
}

#[test]
fn pointer_extract_modules_skips_anonymous() {
    let regions = vec![make_region(0x1000, 0x2000, "", RegionSafety::Safe)];
    let modules = extract_module_bases(&regions);
    assert!(modules.is_empty());
}

#[test]
fn pointer_extract_modules_skips_special_labels() {
    let regions = vec![
        make_region(0x1000, 0x2000, "[stack]", RegionSafety::Risky),
        make_region(0x3000, 0x4000, "[heap]", RegionSafety::Safe),
        make_region(0x5000, 0x6000, "[vdso]", RegionSafety::ReadOnly),
    ];
    let modules = extract_module_bases(&regions);
    assert!(modules.is_empty());
}

#[test]
fn pointer_default_params() {
    let params = PointerScanParams::default();
    assert_eq!(params.max_offset, 0x1000);
    assert_eq!(params.max_depth, 5);
}
