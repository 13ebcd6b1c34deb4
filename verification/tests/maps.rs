//! Memory maps: parsing and classification.

use pika::process::maps::{
    classify_region, parse_maps, parse_maps_line, MapRegion, Permissions, RegionSafety,
};

// ─── Permissions parsing ─────────────────────────────────────────────────

#[test]
fn parse_permissions_rwxp() {
    let p = Permissions::parse("rwxp").unwrap();
    assert!(p.read);
    assert!(p.write);
    assert!(p.execute);
    assert!(!p.shared);
}

#[test]
fn parse_permissions_r_xp() {
    let p = Permissions::parse("r-xp").unwrap();
    assert!(p.read);
    assert!(!p.write);
    assert!(p.execute);
    assert!(!p.shared);
}

#[test]
fn parse_permissions_rw_s() {
    let p = Permissions::parse("rw-s").unwrap();
    assert!(p.read);
    assert!(p.write);
    assert!(!p.execute);
    assert!(p.shared);
}

#[test]
fn permissions_display() {
    let p = Permissions {
        read: true,
        write: false,
        execute: true,
        shared: false,
    };
    assert_eq!(p.as_str(), "r-xp");
}

// ─── Line parsing ────────────────────────────────────────────────────────

#[test]
fn parse_basic_anonymous_region() {
    let line = "140000000-150000000 rw-p 00000000 00:00 0";
    let region = parse_maps_line(line).unwrap();
    assert_eq!(region.start, 0x1_4000_0000);
    assert_eq!(region.end, 0x1_5000_0000);
    assert!(region.permissions.write);
    assert!(!region.permissions.shared);
    assert!(region.pathname.is_empty());
    assert_eq!(region.safety, RegionSafety::Safe);
}

#[test]
fn parse_file_backed_region() {
    let line = "7f8a00000000-7f8a00010000 r-xp 00001000 08:02 12345 /usr/lib/libc.so.6";
    let region = parse_maps_line(line).unwrap();
    assert_eq!(region.start, 0x7f8a_0000_0000);
    assert_eq!(region.pathname, "/usr/lib/libc.so.6");
    assert_eq!(region.offset, 0x1000);
    assert_eq!(region.inode, 12345);
}

#[test]
fn parse_device_region() {
    let line = "7f2000000000-7f2100000000 rw-s 00000000 00:06 1111 /dev/nvidia0";
    let region = parse_maps_line(line).unwrap();
    assert_eq!(region.safety, RegionSafety::NeverTouch);
    assert!(region.permissions.shared);
}

#[test]
fn parse_stack_label() {
    let line = "7ffffffde000-7ffffffff000 rw-p 00000000 00:00 0 [stack]";
    let region = parse_maps_line(line).unwrap();
    assert_eq!(region.pathname, "[stack]");
    assert_eq!(region.safety, RegionSafety::Risky);
}

#[test]
fn parse_vdso() {
    let line = "7ffff7fc4000-7ffff7fc6000 r-xp 00000000 00:00 0 [vdso]";
    let region = parse_maps_line(line).unwrap();
    assert_eq!(region.safety, RegionSafety::ReadOnly);
}

// ─── Classification tests ────────────────────────────────────────────────

#[test]
fn classify_shared_mapping_is_never_touch() {
    // ANY shared mapping = NeverTouch, regardless of path
    let safety = classify_region(
        &Permissions { read: true, write: true, execute: false, shared: true },
        "",
        65536,
    );
    assert_eq!(safety, RegionSafety::NeverTouch);
}

#[test]
fn classify_nvidia_device() {
    let safety = classify_region(
        &Permissions { read: true, write: true, execute: false, shared: true },
        "/dev/nvidia0",
        268_435_456,
    );
    assert_eq!(safety, RegionSafety::NeverTouch);
}

#[test]
fn classify_nvidia_uvm() {
    let safety = classify_region(
        &Permissions { read: true, write: true, execute: false, shared: true },
        "/dev/nvidia-uvm",
        4_294_967_296,
    );
    assert_eq!(safety, RegionSafety::NeverTouch);
}

#[test]
fn classify_amd_render_node() {
    let safety = classify_region(
        &Permissions { read: true, write: true, execute: false, shared: true },
        "/dev/dri/renderD128",
        268_435_456,
    );
    assert_eq!(safety, RegionSafety::NeverTouch);
}

#[test]
fn classify_wine_shared_memory() {
    let safety = classify_region(
        &Permissions { read: true, write: true, execute: false, shared: true },
        "/dev/shm/wine-abcdef123456",
        65536,
    );
    assert_eq!(safety, RegionSafety::NeverTouch);
}

#[test]
fn classify_wineserver_path() {
    let safety = classify_region(
        &Permissions { read: true, write: true, execute: false, shared: false },
        "/tmp/.wine-1000/server-xxxxx/wineserver",
        4096,
    );
    assert_eq!(safety, RegionSafety::NeverTouch);
}

#[test]
fn classify_code_section() {
    let safety = classify_region(
        &Permissions { read: true, write: false, execute: true, shared: false },
        "/path/to/Game.exe",
        1_048_576,
    );
    assert_eq!(safety, RegionSafety::ReadOnly);
}

#[test]
fn classify_dxvk_dll_data() {
    let safety = classify_region(
        &Permissions { read: true, write: true, execute: false, shared: false },
        "/path/to/proton/lib/wine/dxvk/d3d11.dll",
        131_072,
    );
    assert_eq!(safety, RegionSafety::Risky);
}

#[test]
fn classify_vkd3d_dll() {
    let safety = classify_region(
        &Permissions { read: true, write: true, execute: false, shared: false },
        "/path/to/proton/lib64/wine/vkd3d-proton/d3d12.dll",
        65536,
    );
    assert_eq!(safety, RegionSafety::Risky);
}

#[test]
fn classify_dxgi_dll() {
    let safety = classify_region(
        &Permissions { read: true, write: true, execute: false, shared: false },
        "/path/to/proton/lib/wine/dxvk/dxgi.dll",
        32768,
    );
    assert_eq!(safety, RegionSafety::Risky);
}

#[test]
fn classify_vulkan_driver_lib() {
    let safety = classify_region(
        &Permissions { read: true, write: true, execute: false, shared: false },
        "/usr/lib/x86_64-linux-gnu/libvulkan_radeon.so",
        131_072,
    );
    assert_eq!(safety, RegionSafety::Risky);
}

#[test]
fn classify_mesa_lib() {
    let safety = classify_region(
        &Permissions { read: true, write: true, execute: false, shared: false },
        "/usr/lib/x86_64-linux-gnu/dri/radeonsi_dri.so",
        262_144,
    );
    assert_eq!(safety, RegionSafety::Risky);
}

#[test]
fn classify_nvidia_userspace_lib() {
    let safety = classify_region(
        &Permissions { read: true, write: true, execute: false, shared: false },
        "/usr/lib/x86_64-linux-gnu/libnvidia-glcore.so.535.129.03",
        524_288,
    );
    assert_eq!(safety, RegionSafety::Risky);
}

#[test]
fn classify_ntdll() {
    let safety = classify_region(
        &Permissions { read: true, write: true, execute: false, shared: false },
        "/path/to/proton/dist/lib64/wine/x86_64-windows/ntdll.dll",
        65536,
    );
    assert_eq!(safety, RegionSafety::Risky);
}

#[test]
fn classify_kernel32() {
    let safety = classify_region(
        &Permissions { read: true, write: true, execute: false, shared: false },
        "/path/to/proton/lib64/wine/x86_64-windows/kernel32.dll",
        32768,
    );
    assert_eq!(safety, RegionSafety::Risky);
}

#[test]
fn classify_anonymous_safe_heap() {
    let safety = classify_region(
        &Permissions { read: true, write: true, execute: false, shared: false },
        "",
        16_777_216, // 16MB - typical game heap region
    );
    assert_eq!(safety, RegionSafety::Safe);
}

#[test]
fn classify_anonymous_small_region_risky() {
    let safety = classify_region(
        &Permissions { read: true, write: true, execute: false, shared: false },
        "",
        2048, // < 4KB bookkeeping
    );
    assert_eq!(safety, RegionSafety::Risky);
}

#[test]
fn classify_anonymous_huge_region_risky() {
    let safety = classify_region(
        &Permissions { read: true, write: true, execute: false, shared: false },
        "",
        2_147_483_648, // 2GB - likely DXVK shader cache
    );
    assert_eq!(safety, RegionSafety::Risky);
}

#[test]
fn classify_heap_label() {
    let safety = classify_region(
        &Permissions { read: true, write: true, execute: false, shared: false },
        "[heap]",
        1_048_576,
    );
    assert_eq!(safety, RegionSafety::Safe);
}

#[test]
fn classify_stack_label() {
    let safety = classify_region(
        &Permissions { read: true, write: true, execute: false, shared: false },
        "[stack]",
        8_388_608, // 8MB default stack
    );
    assert_eq!(safety, RegionSafety::Risky);
}

#[test]
fn classify_game_exe_data_section() {
    let safety = classify_region(
        &Permissions { read: true, write: true, execute: false, shared: false },
        "/path/to/game/Game.exe",
        65536,
    );
    // Game .exe data section = Safe (not a Wine system DLL, not DXVK)
    assert_eq!(safety, RegionSafety::Safe);
}

#[test]
fn classify_game_dll_data_section() {
    let safety = classify_region(
        &Permissions { read: true, write: true, execute: false, shared: false },
        "/path/to/game/GameLogic.dll",
        131_072,
    );
    assert_eq!(safety, RegionSafety::Safe);
}

#[test]
fn classify_guard_page_no_perms() {
    let safety = classify_region(
        &Permissions { read: false, write: false, execute: false, shared: false },
        "",
        4096,
    );
    // No write permission -> ReadOnly (guard pages have no perms)
    assert_eq!(safety, RegionSafety::ReadOnly);
}

#[test]
fn classify_pulseaudio_shm() {
    let safety = classify_region(
        &Permissions { read: true, write: true, execute: false, shared: true },
        "/dev/shm/pulse-shm-12345",
        262_144,
    );
    assert_eq!(safety, RegionSafety::NeverTouch);
}

// ─── Full maps parsing ───────────────────────────────────────────────────

#[test]
fn parse_realistic_maps_output() {
    let maps = "\
140000000-140001000 r--p 00000000 00:00 0 /home/user/game/Game.exe
140001000-142000000 r-xp 00001000 00:00 0 /home/user/game/Game.exe
142000000-142800000 r--p 02000000 00:00 0 /home/user/game/Game.exe
142800000-142900000 rw-p 02800000 00:00 0 /home/user/game/Game.exe
142900000-14a000000 rw-p 00000000 00:00 0
7bc400000-7bc800000 r-xp 00000000 00:00 0 /path/to/dxvk/d3d11.dll
7bc800000-7bc820000 rw-p 00400000 00:00 0 /path/to/dxvk/d3d11.dll
7f2000000000-7f2100000000 rw-s 00000000 00:06 1111 /dev/nvidia0
7f4000000000-7f4000010000 rw-s 00000000 00:01 3333 /dev/shm/wine-abc123
7ffffffde000-7ffffffff000 rw-p 00000000 00:00 0 [stack]";

    let regions = parse_maps(maps).unwrap();
    assert_eq!(regions.len(), 10);

    // PE headers - ReadOnly
    assert_eq!(regions[0].safety, RegionSafety::ReadOnly);
    // .text - ReadOnly
    assert_eq!(regions[1].safety, RegionSafety::ReadOnly);
    // .rdata - ReadOnly
    assert_eq!(regions[2].safety, RegionSafety::ReadOnly);
    // .data/.bss - Safe (game exe)
    assert_eq!(regions[3].safety, RegionSafety::Safe);
    // Anonymous heap - Safe
    assert_eq!(regions[4].safety, RegionSafety::Safe);
    // DXVK code - ReadOnly (r-xp)
    assert_eq!(regions[5].safety, RegionSafety::ReadOnly);
    // DXVK data - Risky
    assert_eq!(regions[6].safety, RegionSafety::Risky);
    // NVIDIA GPU - NeverTouch
    assert_eq!(regions[7].safety, RegionSafety::NeverTouch);
    // Wine shm - NeverTouch
    assert_eq!(regions[8].safety, RegionSafety::NeverTouch);
    // Stack - Risky
    assert_eq!(regions[9].safety, RegionSafety::Risky);
}

#[test]
fn parse_maps_empty_input() {
    let regions = parse_maps("").unwrap();
    assert!(regions.is_empty());
}

#[test]
fn region_safety_flags() {
    assert!(RegionSafety::Safe.can_scan());
    assert!(RegionSafety::Safe.can_write());
    assert!(RegionSafety::ReadOnly.can_scan());
    assert!(!RegionSafety::ReadOnly.can_write());
    assert!(RegionSafety::Risky.can_scan());
    assert!(!RegionSafety::Risky.can_write());
    assert!(!RegionSafety::NeverTouch.can_scan());
    assert!(!RegionSafety::NeverTouch.can_write());
}

#[test]
fn region_size_calculation() {
    let r = MapRegion {
        start: 0x1000,
        end: 0x2000,
        permissions: Permissions { read: true, write: true, execute: false, shared: false },
        offset: 0,
        device: "00:00".to_string(),
        inode: 0,
        pathname: String::new(),
        safety: RegionSafety::Safe,
    };
    assert_eq!(r.size(), 0x1000);
    assert!(r.is_anonymous());
}

// ─── Edge cases: Intel / AMD DRI paths ───────────────────────────────────

#[test]
fn classify_intel_gpu() {
    let safety = classify_region(
        &Permissions { read: true, write: true, execute: false, shared: true },
        "/dev/dri/card0",
        65536,
    );
    assert_eq!(safety, RegionSafety::NeverTouch);
}

#[test]
fn classify_amd_card() {
    let safety = classify_region(
        &Permissions { read: true, write: true, execute: false, shared: true },
        "/dev/dri/card1",
        1_048_576,
    );
    assert_eq!(safety, RegionSafety::NeverTouch);
}

// ─── Edge cases: paths that should NOT match ─────────────────────────────

#[test]
fn unity_game_assembly_is_safe() {
    let safety = classify_region(
        &Permissions { read: true, write: true, execute: false, shared: false },
        "/path/to/game/GameAssembly.dll",
        2_097_152,
    );
    assert_eq!(safety, RegionSafety::Safe);
}

#[test]
fn unreal_engine_dll_is_safe() {
    let safety = classify_region(
        &Permissions { read: true, write: true, execute: false, shared: false },
        "/path/to/game/Engine/Binaries/Win64/UnrealEngine.dll",
        4_194_304,
    );
    assert_eq!(safety, RegionSafety::Safe);
}

#[test]
fn anonymous_256mb_is_safe() {
    // 256MB anonymous region is large but under the 1GB threshold
    let safety = classify_region(
        &Permissions { read: true, write: true, execute: false, shared: false },
        "",
        268_435_456,
    );
    assert_eq!(safety, RegionSafety::Safe);
}

#[test]
fn anonymous_exactly_1gb_is_safe() {
    let safety = classify_region(
        &Permissions { read: true, write: true, execute: false, shared: false },
        "",
        1_073_741_824, // exactly 1GB -- not > 1GB
    );
    assert_eq!(safety, RegionSafety::Safe);
}

#[test]
fn anonymous_over_1gb_is_risky() {
    let safety = classify_region(
        &Permissions { read: true, write: true, execute: false, shared: false },
        "",
        1_073_741_825, // 1GB + 1 byte
    );
    assert_eq!(safety, RegionSafety::Risky);
}

#[test]
fn maps_in_parts_are_read_part_by_part() {
    let one = "1000-2000 rw-p 0 0:0 0\n\n2000-3000 r--p 0 0:0 0 /x";
    let two = "3000-4000 rw-s 0 0:0 0";
    let all = parse_maps(&format!("{one}\n{two}")).unwrap();
    let mut parts = parse_maps(one).unwrap();
    parts.extend(parse_maps(two).unwrap());
    assert_eq!(all, parts);
    assert_eq!(all.len(), 3);
    assert!(parse_maps("").unwrap().is_empty());
    assert!(parse_maps(&format!("{one}\nbad\n{two}")).is_err());
}
