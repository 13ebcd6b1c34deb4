//! Code patches.

use pika::mem::access::{AccessError, MemoryAccess, MockMemoryAccess, Processes, Trace};
use pika::mem::patch::{hex_decode, hex_encode, validate_code_address, PatchManager};
use pika::process::maps::{MapRegion, Permissions, RegionSafety};

fn mock_with_code_region() -> MockMemoryAccess {
    let mut mock = MockMemoryAccess::new(1);
    // Simulate a code section with some x86_64 instructions
    let mut code = vec![0u8; 4096];
    // mov [rax+0x1c], ecx = 89 48 1c (3 bytes)
    code[0] = 0x89;
    code[1] = 0x48;
    code[2] = 0x1c;
    // nop = 90 (fill rest)
    for b in &mut code[3..16] {
        *b = 0x90;
    }
    mock.add_region(0x14000_0000, code);
    mock.set_maps(vec![MapRegion {
        start: 0x14000_0000,
        end: 0x14000_1000,
        permissions: Permissions { read: true, write: false, execute: true, shared: false },
        offset: 0,
        device: "00:00".to_string(),
        inode: 0,
        pathname: "game.exe".to_string(),
        safety: RegionSafety::ReadOnly,
    }]);
    mock
}

fn mock_with_nevertough_region() -> MockMemoryAccess {
    let mut mock = MockMemoryAccess::new(1);
    mock.add_region(0x7000, vec![0u8; 256]);
    mock.set_maps(vec![MapRegion {
        start: 0x7000,
        end: 0x7100,
        permissions: Permissions { read: true, write: true, execute: false, shared: true },
        offset: 0,
        device: "00:06".to_string(),
        inode: 1111,
        pathname: "/dev/nvidia0".to_string(),
        safety: RegionSafety::NeverTouch,
    }]);
    mock
}

#[test]
fn validate_accepts_executable_region() {
    let mut mock = mock_with_code_region();
    let result = validate_code_address(&mut mock, 1, 0x14000_0000, 3);
    assert!(result.is_ok());
}

#[test]
fn validate_rejects_nevertough() {
    let mut mock = mock_with_nevertough_region();
    let result = validate_code_address(&mut mock, 1, 0x7000, 2);
    assert!(result.is_err());
    assert!(result.unwrap_err().message().contains("NeverTouch"));
}

#[test]
fn validate_rejects_unmapped_address() {
    let mut mock = mock_with_code_region();
    let result = validate_code_address(&mut mock, 1, 0xDEAD_0000, 4);
    assert!(result.is_err());
    assert!(result.unwrap_err().message().contains("not in any mapped region"));
}

#[test]
fn nop_at_with_mock_writer() {
    let mut mock = mock_with_code_region();
    let mut manager = PatchManager::new();
    // NOP 3 bytes at 0x14000_0000
    let record = manager.nop_at(&mut mock, 1, 0x14000_0000, Some(3)).unwrap();
    assert_eq!(record.original_bytes, vec![0x89, 0x48, 0x1c]);
    assert_eq!(record.patched_bytes, vec![0x90, 0x90, 0x90]);
    assert_eq!(record.description, "nop 3 bytes");

    // Verify the mock memory was actually written
    let mut buf = [0u8; 3];
    mock.read(1, 0x14000_0000, &mut buf).unwrap();
    assert_eq!(buf, [0x90, 0x90, 0x90]);
}

#[test]
fn patch_and_restore_with_mock_writer() {
    let mut mock = mock_with_code_region();
    let mut manager = PatchManager::new();

    // Patch 2 bytes
    let record = manager.patch_at(&mut mock, 1, 0x14000_0000, &[0xEB, 0x05]).unwrap();
    assert_eq!(record.original_bytes, vec![0x89, 0x48]);

    // Verify patched
    let mut buf = [0u8; 2];
    mock.read(1, 0x14000_0000, &mut buf).unwrap();
    assert_eq!(buf, [0xEB, 0x05]);

    // Restore
    manager.restore_at(&mut mock, 1, 0x14000_0000).unwrap();

    // Verify restored
    mock.read(1, 0x14000_0000, &mut buf).unwrap();
    assert_eq!(buf, [0x89, 0x48]);
}

#[test]
fn list_shows_active_patches() {
    let mut mock = mock_with_code_region();
    let mut manager = PatchManager::new();
    manager.nop_at(&mut mock, 1, 0x14000_0000, Some(3)).unwrap();

    let list = manager.list();
    assert_eq!(list.len(), 1);
    assert_eq!(list[0].description, "nop 3 bytes");
}

#[test]
fn restore_nonexistent_address_errors() {
    let mut mock = mock_with_code_region();
    let mut manager = PatchManager::new();
    let result = manager.restore_at(&mut mock, 1, 0xDEAD_BEEF);
    assert!(result.is_err());
    assert!(result.unwrap_err().message().contains("no patch found"));
}

#[test]
fn hex_encode_decode_roundtrip() {
    let original = vec![0x48, 0x89, 0x5c, 0x24, 0x08];
    let encoded = hex_encode(&original);
    assert_eq!(encoded, "48 89 5c 24 08");
    let decoded = hex_decode(&encoded).unwrap();
    assert_eq!(decoded, original);
}

#[test]
fn hex_decode_invalid() {
    assert!(hex_decode("ZZ FF").is_err());
}

#[test]
fn nop_without_a_size_takes_the_instruction() {
    let mut mock = mock_with_code_region();
    let mut manager = PatchManager::new();
    let record = manager.nop_at(&mut mock, 1, 0x14000_0000, None).unwrap();
    assert_eq!(record.original_bytes, vec![0x89, 0x48, 0x1c]);
    assert_eq!(record.patched_bytes, vec![0x90, 0x90, 0x90]);
}

#[test]
fn nop_of_nothing_and_empty_patch_are_refused() {
    let mut mock = mock_with_code_region();
    let mut manager = PatchManager::new();
    assert!(manager.nop_at(&mut mock, 1, 0x14000_0000, Some(0)).is_err());
    assert!(manager.patch_at(&mut mock, 1, 0x14000_0000, &[]).is_err());
    assert!(manager.list().is_empty());
}

#[test]
fn restore_for_another_process_is_refused() {
    let mut mock = mock_with_code_region();
    let mut manager = PatchManager::new();
    manager.patch_at(&mut mock, 1, 0x14000_0000, &[0xEB, 0x05]).unwrap();
    assert_eq!(
        manager.restore_at(&mut mock, 2, 0x14000_0000).unwrap_err().message(),
        "patch at 0x140000000 belongs to pid 1 but restore requested for pid 2"
    );
    let mut buf = [0u8; 2];
    mock.read(1, 0x14000_0000, &mut buf).unwrap();
    assert_eq!(buf, [0xEB, 0x05]);
    // the patch is still there to be restored
    assert_eq!(manager.list().len(), 1);
    manager.restore_at(&mut mock, 1, 0x14000_0000).unwrap();
    mock.read(1, 0x14000_0000, &mut buf).unwrap();
    assert_eq!(buf, [0x89, 0x48]);
    assert!(manager.list().is_empty());
}

#[test]
fn a_patch_over_a_patch_keeps_the_first_original() {
    let mut mock = mock_with_code_region();
    let mut manager = PatchManager::new();
    manager.patch_at(&mut mock, 1, 0x14000_0000, &[0xEB, 0x05]).unwrap();
    let second = manager.nop_at(&mut mock, 1, 0x14000_0000, Some(3)).unwrap();
    assert_eq!(second.original_bytes, vec![0x89, 0x48, 0x1c]);
    assert_eq!(second.patched_bytes, vec![0x90; 3]);
    let third = manager.patch_at(&mut mock, 1, 0x14000_0000, &[0xCC]).unwrap();
    assert_eq!(third.original_bytes, vec![0x89, 0x48, 0x1c]);
    assert_eq!(manager.list().len(), 1);
    manager.restore_at(&mut mock, 1, 0x14000_0000).unwrap();
    let mut buf = [0u8; 3];
    mock.read(1, 0x14000_0000, &mut buf).unwrap();
    assert_eq!(buf, [0x89, 0x48, 0x1c]);
}

/// Memory of two processes, in which code can be made unwritable.
struct Two {
    code: [Vec<u8>; 2],
    locked: bool,
}

impl MemoryAccess for Two {
    fn trace(&self) -> Trace {
        unreachable!()
    }

    fn answers(&self) -> Processes {
        unreachable!()
    }

    fn sound(&self) -> bool {
        unreachable!()
    }

    fn read(&mut self, pid: u32, _address: u64, buffer: &mut [u8]) -> Result<usize, AccessError> {
        buffer.copy_from_slice(&self.code[pid as usize][..buffer.len()]);
        Ok(buffer.len())
    }

    fn write(&mut self, _pid: u32, _address: u64, _data: &[u8]) -> Result<usize, AccessError> {
        Err(AccessError { message: "no".to_string() })
    }

    fn read_maps(&mut self, _pid: u32) -> Result<Vec<MapRegion>, AccessError> {
        mock_with_code_region().read_maps(1)
    }

    fn write_code(&mut self, pid: u32, _address: u64, data: &[u8]) -> Result<usize, AccessError> {
        if self.locked {
            return Err(AccessError { message: "locked".to_string() });
        }
        self.code[pid as usize][..data.len()].copy_from_slice(data);
        Ok(data.len())
    }
}

#[test]
fn each_process_has_its_own_patches() {
    let mut mem = Two { code: [vec![1, 2, 3], vec![4, 5, 6]], locked: false };
    let mut manager = PatchManager::new();
    manager.patch_at(&mut mem, 0, 0x14000_0000, &[9, 9]).unwrap();
    manager.patch_at(&mut mem, 1, 0x14000_0000, &[8]).unwrap();
    assert_eq!(manager.list().len(), 2);
    assert!(manager.list().iter().all(|p| p.address == "0x140000000"));
    // a process that is not patched there hears of the one that was patched last
    assert_eq!(
        manager.restore_at(&mut mem, 7, 0x14000_0000).unwrap_err().message(),
        "patch at 0x140000000 belongs to pid 1 but restore requested for pid 7"
    );
    // what cannot be written back is not forgotten
    mem.locked = true;
    assert_eq!(
        manager.restore_at(&mut mem, 0, 0x14000_0000).unwrap_err().message(),
        "locked"
    );
    assert_eq!(manager.list().len(), 2);
    mem.locked = false;
    manager.restore_at(&mut mem, 0, 0x14000_0000).unwrap();
    assert_eq!(mem.code, [vec![1, 2, 3], vec![8, 5, 6]]);
    assert_eq!(
        manager.restore_at(&mut mem, 0, 0x14000_0000).unwrap_err().message(),
        "patch at 0x140000000 belongs to pid 1 but restore requested for pid 0"
    );
    manager.restore_at(&mut mem, 1, 0x14000_0000).unwrap();
    assert_eq!(mem.code, [vec![1, 2, 3], vec![4, 5, 6]]);
    assert_eq!(
        manager.restore_at(&mut mem, 1, 0x14000_0000).unwrap_err().message(),
        "no patch found at 0x140000000"
    );
}

#[test]
fn every_applied_patch_is_put_back() {
    let mut mem = Two { code: [vec![1, 2, 3], vec![4, 5, 6]], locked: false };
    let mut manager = PatchManager::new();
    manager.patch_at(&mut mem, 0, 0x14000_0000, &[9, 9]).unwrap();
    manager.patch_at(&mut mem, 1, 0x14000_0000, &[8]).unwrap();
    // patched once more, a process still has one patch, now the latest
    manager.patch_at(&mut mem, 0, 0x14000_0000, &[7, 7, 7]).unwrap();
    assert_eq!(manager.list().len(), 2);
    assert_eq!(
        manager.restore_at(&mut mem, 7, 0x14000_0000).unwrap_err().message(),
        "patch at 0x140000000 belongs to pid 0 but restore requested for pid 7"
    );
    manager.restore_all(&mut mem);
    assert_eq!(mem.code, [vec![1, 2, 3], vec![4, 5, 6]]);
    assert!(manager.list().is_empty());
}

#[test]
fn originals_are_as_long_as_the_patch() {
    let mut mock = mock_with_code_region();
    let before = mock.read_value(0x14000_0000, 4096);
    let mut manager = PatchManager::new();
    for n in [1, 2, 15] {
        let record = manager.nop_at(&mut mock, 1, 0x14000_0000, Some(n)).unwrap();
        assert_eq!(record.original_bytes, before[..n].to_vec());
        assert_eq!(mock.read_value(0x14000_0000, n), vec![0x90; n]);
        manager.restore_at(&mut mock, 1, 0x14000_0000).unwrap();
        assert_eq!(mock.read_value(0x14000_0000, 4096), before);
    }
}

#[test]
fn patch_past_the_end_is_refused() {
    let mut mock = mock_with_code_region();
    let mut manager = PatchManager::new();
    assert!(manager.patch_at(&mut mock, 1, 0x14000_0fff, &[0xEB, 0x05]).is_err());
}

#[test]
fn restore_all_puts_everything_back() {
    let mut mock = mock_with_code_region();
    let mut manager = PatchManager::new();
    manager.patch_at(&mut mock, 1, 0x14000_0000, &[0xEB, 0x05]).unwrap();
    manager.nop_at(&mut mock, 1, 0x14000_0100, Some(4)).unwrap();
    assert_eq!(manager.list().len(), 2);
    manager.restore_all(&mut mock);
    assert!(manager.list().is_empty());
    let mut buf = [0u8; 3];
    mock.read(1, 0x14000_0000, &mut buf).unwrap();
    assert_eq!(buf, [0x89, 0x48, 0x1c]);
    let mut zeros = [1u8; 4];
    mock.read(1, 0x14000_0100, &mut zeros).unwrap();
    assert_eq!(zeros, [0, 0, 0, 0]);
}

#[test]
fn hex_error_names_the_word() {
    assert_eq!(
        hex_decode("48 zz").unwrap_err().message(),
        "invalid hex byte 'zz': invalid digit found in string"
    );
    assert_eq!(hex_decode("  ").unwrap(), Vec::<u8>::new());
}
