//! What the library promises, on concrete values.

use pika::mem::access::{AccessError, MemoryAccess, MockMemoryAccess, Processes, Trace};
use pika::mem::hex::{hex_decode, hex_encode, hex_string};
use pika::mem::watch::record_hit;
use pika::mem::write::{encode_value, find_holding, write_value};
use pika::number::Double;
use pika::process::maps::{parse_maps, parse_maps_line, MapRegion, Permissions, RegionSafety};
use pika::process::pid::{extract_exe_name, list_wine_processes, ProcEntry};
use pika::rpc::methods::{dispatch, RpcState};
use pika::rpc::params::{parse_hex_address, Param};
use pika::rpc::types::{JsonRpcRequest, RpcResult};
use pika::scan::buffer::{scan_4byte_scalar, scan_8byte_aligned, scan_generic, scan_near};
use pika::scan::candidate::{Candidate, TypeFlags, ValueType};
use pika::scan::engine::{first_scan, sort_and_dedup, ScanSession, SessionRegistry};
use pika::scan::filter::{filter_candidates, FilterMode};
use pika::scan::pointer::{find_pointer_chains, PointerScanParams};
use pika::text;

fn double(x: f64) -> Double {
    Double::from_bits(x.to_bits())
}

fn safe(start: u64, end: u64) -> MapRegion {
    MapRegion {
        start,
        end,
        permissions: Permissions { read: true, write: true, execute: false, shared: false },
        offset: 0,
        device: "00:00".to_string(),
        inode: 0,
        pathname: String::new(),
        safety: RegionSafety::Safe,
    }
}

/// Memory that takes only some of what is written.
struct Stingy {
    regions: Vec<MapRegion>,
    written: Vec<(u64, Vec<u8>)>,
    takes: usize,
}

impl MemoryAccess for Stingy {
    fn trace(&self) -> Trace {
        unreachable!()
    }

    fn answers(&self) -> Processes {
        unreachable!()
    }

    fn sound(&self) -> bool {
        unreachable!()
    }

    fn read(&mut self, _pid: u32, _address: u64, buffer: &mut [u8]) -> Result<usize, AccessError> {
        buffer.fill(7);
        Ok(buffer.len() / 2)
    }

    fn write(&mut self, _pid: u32, address: u64, data: &[u8]) -> Result<usize, AccessError> {
        self.written.push((address, data.to_vec()));
        Ok(self.takes)
    }

    fn read_maps(&mut self, _pid: u32) -> Result<Vec<MapRegion>, AccessError> {
        Ok(self.regions.clone())
    }

    fn write_code(&mut self, _pid: u32, _address: u64, data: &[u8]) -> Result<usize, AccessError> {
        Ok(data.len())
    }
}

#[test]
fn a_read_gives_back_a_write() {
    let mut mock = MockMemoryAccess::new(1);
    mock.add_region(0x1000, (0..64).collect());
    let before = mock.read_value(0x1010, 4);
    assert_eq!(mock.write(1, 0x1010, &[9, 8, 7, 6]).unwrap(), 4);
    assert_eq!(mock.read_value(0x1010, 4), vec![9, 8, 7, 6]);
    assert_eq!(mock.read_value(0x100f, 1), vec![15]);
    mock.write(1, 0x1010, &before).unwrap();
    assert_eq!(mock.read_value(0x1000, 64), (0..64).collect::<Vec<u8>>());
}

#[test]
fn writes_are_guarded_by_a_fresh_look() {
    let mut mem = Stingy { regions: vec![safe(0x1000, 0x2000)], written: vec![], takes: 4 };
    write_value(&mut mem, 1, 0x1000, double(-1.0), ValueType::I32).unwrap();
    assert_eq!(mem.written, vec![(0x1000, vec![0xff; 4])]);
    mem.regions[0].safety = RegionSafety::Risky;
    mem.regions[0].pathname = "/x/dxvk.so".to_string();
    let e = write_value(&mut mem, 1, 0x1000, double(1.0), ValueType::I32).unwrap_err();
    assert_eq!(
        e.message(),
        "ABORT: address 0x1000 is in a Risky region (rw-p). \
         Only Safe regions can be written to. Region: 0x1000-0x2000 /x/dxvk.so"
    );
    assert_eq!(mem.written.len(), 1);
}

#[test]
fn written_values_stand_in_the_simulated_process() {
    let mut mock = MockMemoryAccess::new(1);
    mock.add_region(0x1000, (0..64).collect());
    mock.set_maps(vec![safe(0x1000, 0x1040)]);
    write_value(&mut mock, 1, 0x1010, double(-2.0), ValueType::I32).unwrap();
    let mut expected: Vec<u8> = (0..64).collect();
    expected[0x10..0x14].copy_from_slice(&(-2_i32).to_le_bytes());
    assert_eq!(mock.read_value(0x1000, 64), expected);
    // what is refused changes nothing
    assert!(write_value(&mut mock, 1, 0x103e, double(1.0), ValueType::I32).is_err());
    assert!(write_value(&mut mock, 2, 0x1010, double(1.0), ValueType::I32).is_err());
    mock.set_maps(vec![safe(0x1000, 0x2000)]);
    assert!(write_value(&mut mock, 1, 0x103e, double(1.0), ValueType::I32).is_err());
    assert_eq!(mock.read_value(0x1000, 64), expected);
}

#[test]
fn a_partial_write_is_an_error() {
    let mut mem = Stingy { regions: vec![safe(0x1000, 0x2000)], written: vec![], takes: 3 };
    let e = write_value(&mut mem, 1, 0x1000, double(1.0), ValueType::F64).unwrap_err();
    assert_eq!(e.message(), "partial write: wrote 3/8 bytes at 0x1000");
}

#[test]
fn write_errors_say_what_is_wrong() {
    let mut mock = MockMemoryAccess::new(1);
    mock.set_maps(vec![safe(0x1000, 0x2000)]);
    let mut failure = |pid: u32, address: u64, dtype: ValueType| {
        write_value(&mut mock, pid, address, double(1.0), dtype).unwrap_err().message()
    };
    assert_eq!(
        failure(1, 0x1000, ValueType::Auto),
        "cannot write with Auto type -- specify a concrete type"
    );
    assert_eq!(failure(2, 0x1000, ValueType::I32), "failed to read maps for pre-flight check");
    assert_eq!(
        failure(1, 0x1ffd, ValueType::I32),
        "ABORT: address 0x1ffd is not within any mapped region (may have been unmapped)"
    );
    assert_eq!(failure(1, 0x1000, ValueType::I32), "process_vm_writev failed");
}

#[test]
fn values_are_encoded_in_their_width() {
    for (dtype, bytes) in [
        (ValueType::I32, (-7_i32).to_le_bytes().to_vec()),
        (ValueType::U32, 0_u32.to_le_bytes().to_vec()),
        (ValueType::F32, (-7.5_f32).to_le_bytes().to_vec()),
        (ValueType::I64, (-7_i64).to_le_bytes().to_vec()),
        (ValueType::U64, 0_u64.to_le_bytes().to_vec()),
        (ValueType::F64, (-7.5_f64).to_le_bytes().to_vec()),
    ] {
        assert_eq!(encode_value(double(-7.5), dtype).unwrap(), bytes);
        assert_eq!(bytes.len(), dtype.byte_size());
    }
    assert!(encode_value(double(1.0), ValueType::Auto).is_err());
    assert_eq!(find_holding(&vec![safe(0, 8), safe(8, 16)], 6, 4), 2);
    assert_eq!(find_holding(&vec![safe(0, 8), safe(8, 16)], 8, 8), 1);
}

#[test]
fn hex_is_read_back() {
    let bytes: Vec<u8> = (0..=255).collect();
    assert_eq!(hex_decode(&hex_encode(&bytes)).unwrap(), bytes);
    assert_eq!(hex_string(&[0x0a, 0xff]), "0aff");
}

#[test]
fn map_lines_are_refused_with_a_reason() {
    let message = |line: &str| parse_maps_line(line).unwrap_err().message();
    assert_eq!(message("1000-2000 rw-p"), "malformed maps line: '1000-2000 rw-p'");
    assert_eq!(message("1000 rw-p 0 0:0 0"), "missing '-' in address range");
    assert_eq!(message("xx-2000 rw-p 0 0:0 0"), "invalid start address: 'xx'");
    assert_eq!(message("1000-yy rw-p 0 0:0 0"), "invalid end address: 'yy'");
    assert_eq!(message("1000-2000 rw 0 0:0 0"), "permissions string too short: 'rw'");
    assert_eq!(message("1000-2000 rw-p zz 0:0 0"), "invalid offset: 'zz'");
    assert_eq!(message("1000-2000 rw-p 0 0:0 x"), "invalid inode: 'x'");
    assert!(parse_maps_line("2000-1000 rw-p 0 0:0 0").is_err());
    assert!(parse_maps("1000-2000 rw-p 0 0:0 0\n\nbad\n").is_err());
}

#[test]
fn scans_keep_to_safe_regions() {
    let mut mock = MockMemoryAccess::new(1);
    for base in [0x1000, 0x3000, 0x5000] {
        let mut data = vec![0u8; 0x1000];
        data[8..12].copy_from_slice(&77_i32.to_le_bytes());
        mock.add_region(base, data);
    }
    let mut risky = safe(0x3000, 0x4000);
    risky.safety = RegionSafety::Risky;
    let mut unreadable = safe(0x5000, 0x6000);
    unreadable.permissions.read = false;
    mock.set_maps(vec![safe(0x1000, 0x2000), risky, unreadable]);
    let session = first_scan(&mut mock, 1, double(77.0), ValueType::I32).unwrap();
    assert_eq!(session.candidates.len(), 1);
    assert_eq!(session.candidates[0].address, 0x1008);
    assert_eq!(session.id.len(), 12);
    assert_ne!(
        first_scan(&mut mock, 1, double(77.0), ValueType::I32).unwrap().id,
        session.id
    );
    assert!(first_scan(&mut mock, 2, double(77.0), ValueType::I32).is_err());
}

#[test]
fn one_candidate_for_each_address() {
    let c = |address: u64| Candidate::new(address, TypeFlags::int32());
    let sorted = sort_and_dedup(&vec![c(5), c(3), c(5), c(4), c(3)]);
    let addresses: Vec<u64> = sorted.iter().map(|c| c.address).collect();
    assert_eq!(addresses, vec![3, 4, 5]);
}

#[test]
fn buffers_are_searched_at_their_alignment() {
    let mut buffer = vec![0u8; 40];
    buffer[8..16].copy_from_slice(&0x1122_3344_5566_7788_u64.to_le_bytes());
    let low = 0x5566_7788_u32;
    assert_eq!(scan_4byte_scalar(&buffer, low, 4), vec![8]);
    assert_eq!(scan_8byte_aligned(&buffer, &0x1122_3344_5566_7788_u64.to_le_bytes(), 8), vec![8]);
    assert_eq!(scan_generic(&buffer, &[0x77, 0x66], 1), vec![9]);
    assert_eq!(scan_generic(&buffer, &[0x77, 0x66], 2), Vec::<usize>::new());
    buffer[20..24].copy_from_slice(&1.0005_f32.to_le_bytes());
    assert_eq!(scan_near(&buffer, 1.0_f32.to_bits(), 4), vec![20]);
    assert_eq!(scan_near(&buffer, 1.01_f32.to_bits(), 4), Vec::<usize>::new());
}

fn candidate(address: u64, types: TypeFlags, last: u64) -> Candidate {
    Candidate::with_value(address, types, last.to_le_bytes())
}

#[test]
fn opposite_filters_share_out_the_candidates() {
    let mut mock = MockMemoryAccess::new(1);
    mock.add_region(0x1000, vec![0u8; 64]);
    mock.write_value(0x1000, &5_i32.to_le_bytes());
    mock.write_value(0x1008, &9_i32.to_le_bytes());
    let all: Vec<Candidate> = [0x1000, 0x1004, 0x1008, 0x9000]
        .into_iter()
        .map(|a| candidate(a, TypeFlags::int32(), 5))
        .collect();
    let mut kept = |mode: FilterMode| {
        let mut v = all.clone();
        filter_candidates(&mut mock, 1, &mut v, double(5.0), ValueType::I32, mode).unwrap();
        v.iter().map(|c| c.address).collect::<Vec<u64>>()
    };
    assert_eq!(kept(FilterMode::Exact), vec![0x1000]);
    assert_eq!(kept(FilterMode::NotEqual), vec![0x1004, 0x1008]);
    assert_eq!(kept(FilterMode::Changed), vec![0x1004, 0x1008]);
    assert_eq!(kept(FilterMode::Unchanged), vec![0x1000]);
    assert_eq!(kept(FilterMode::Increased), vec![0x1008]);
    assert_eq!(kept(FilterMode::Decreased), vec![0x1004]);
}

#[test]
fn each_type_has_its_own_order() {
    let mut mock = MockMemoryAccess::new(1);
    mock.add_region(0x1000, vec![0u8; 64]);
    // all ones: -1 signed, the largest unsigned
    mock.write_value(0x1000, &[0xff; 8]);
    for (types, rises) in [
        (TypeFlags::int32(), false),
        (TypeFlags::uint32(), true),
        (TypeFlags::int64(), false),
        (TypeFlags::uint64(), true),
        (TypeFlags::int32().union(TypeFlags::uint32()), true),
    ] {
        let mut v = vec![candidate(0x1000, types, 1)];
        let n = filter_candidates(
            &mut mock, 1, &mut v, double(0.0), ValueType::Auto, FilterMode::Increased,
        )
        .unwrap();
        assert_eq!(n == 1, rises, "{types:?}");
    }
    // not a number is neither more nor less
    for mode in [FilterMode::Increased, FilterMode::Decreased] {
        let mut v = vec![candidate(0x1000, TypeFlags::float32(), 1.0_f32.to_bits() as u64)];
        assert_eq!(
            filter_candidates(&mut mock, 1, &mut v, double(0.0), ValueType::Auto, mode).unwrap(),
            0
        );
    }
}

#[test]
fn a_pass_confirms_and_remembers() {
    let mut mock = MockMemoryAccess::new(1);
    mock.add_region(0x1000, vec![3u8; 64]);
    let mut v = vec![
        Candidate { confidence: 255, ..candidate(0x1000, TypeFlags::int64(), 0) },
        Candidate { confidence: 9, ..candidate(0x1010, TypeFlags::int64(), 0) },
    ];
    filter_candidates(&mut mock, 1, &mut v, double(0.0), ValueType::I64, FilterMode::Changed)
        .unwrap();
    assert_eq!(v[0].confidence, 255);
    assert_eq!(v[1].confidence, 10);
    assert_eq!(v[0].last_value, [3; 8]);
    assert!(FilterMode::Exact.needs_value());
    assert!(!FilterMode::Changed.needs_value());
}

#[test]
fn narrow_candidates_remember_four_bytes() {
    let mut mock = MockMemoryAccess::new(1);
    mock.add_region(0x1000, vec![3u8; 64]);
    let mut v = vec![
        candidate(0x1000, TypeFlags::int32(), 0),
        candidate(0x103c, TypeFlags::int32(), 0),
    ];
    filter_candidates(&mut mock, 1, &mut v, double(0.0), ValueType::I32, FilterMode::Changed)
        .unwrap();
    assert_eq!(v.len(), 2);
    assert_eq!(v[0].last_value, [3, 3, 3, 3, 0, 0, 0, 0]);
    assert_eq!(v[1].last_value, [3, 3, 3, 3, 0, 0, 0, 0]);
}

#[test]
fn sessions_are_handed_over_and_kept() {
    let mut registry = SessionRegistry::new();
    registry.insert(ScanSession {
        id: "a".to_string(),
        pid: 1,
        candidates: vec![Candidate::new(0x1000, TypeFlags::int32())],
        value: double(1.0),
        dtype: ValueType::I32,
    });
    let n = registry.with_session("a", |mut s| {
        s.candidates.push(Candidate::new(0x2000, TypeFlags::int32()));
        let n = s.candidates.len();
        (s, n)
    });
    assert_eq!(n, Some(2));
    assert_eq!(registry.get_candidate_count("a"), Some(2));
    assert_eq!(registry.with_session("b", |s| (s, ())), None);
    let list = registry.list();
    assert_eq!(list.len(), 1);
    assert_eq!(list[0].candidates, 2);
    assert!(SessionRegistry::default().list().is_empty());
}

#[test]
fn chains_are_short_first_and_lead_to_the_target() {
    let mut mock = MockMemoryAccess::new(1);
    let target = 0x3000_0100_u64;
    let mut module = vec![0u8; 0x1000];
    module[0x200..0x208].copy_from_slice(&0x2000_0000_u64.to_le_bytes());
    module[0x300..0x308].copy_from_slice(&(target - 8).to_le_bytes());
    mock.add_region(0x1_4000_0000, module);
    let mut middle = vec![0u8; 0x1000];
    middle[0x50..0x58].copy_from_slice(&target.to_le_bytes());
    mock.add_region(0x2000_0000, middle);
    mock.add_region(0x3000_0000, vec![0u8; 0x1000]);
    let mut game = safe(0x1_4000_0000, 0x1_4000_1000);
    game.pathname = "/Game.exe".to_string();
    let regions =
        vec![game, safe(0x2000_0000, 0x2000_1000), safe(0x3000_0000, 0x3000_1000)];
    let params = PointerScanParams { max_offset: 0x100, max_depth: 3, max_results: 10 };
    let chains = find_pointer_chains(&mut mock, 1, target, &regions, &params).unwrap();
    assert_eq!(chains.len(), 2);
    assert_eq!(chains[0].links.len(), 1);
    assert_eq!(chains[0].base_offset, 0x300);
    assert_eq!(chains[1].base_offset, 0x200);
    for chain in &chains {
        let mut at = 0x1_4000_0000 + chain.base_offset;
        for link in &chain.links {
            assert_eq!(link.address, at);
            let bytes: [u8; 8] = mock.read_value(at, 8).try_into().unwrap();
            at = u64::from_le_bytes(bytes).wrapping_add_signed(link.offset);
        }
        assert_eq!(at, target);
    }
}

#[test]
fn direct_pointers_are_found_within_the_limit() {
    let mut mock = MockMemoryAccess::new(1);
    let target = 0x3000_0100_u64;
    let mut module = vec![0u8; 0x1000];
    module[0x10..0x18].copy_from_slice(&(target - 0x20).to_le_bytes());
    module[0x40..0x48].copy_from_slice(&(target + 0x20).to_le_bytes());
    module[0x80..0x88].copy_from_slice(&(target - 0x21).to_le_bytes());
    module[0xc0..0xc8].copy_from_slice(&target.to_le_bytes());
    mock.add_region(0x1_4000_0000, module);
    let mut game = safe(0x1_4000_0000, 0x1_4000_1000);
    game.pathname = "/Game.exe".to_string();
    for max_offset in [0x20, -0x20] {
        let params = PointerScanParams { max_offset, max_depth: 1, max_results: 10 };
        let chains =
            find_pointer_chains(&mut mock, 1, target, &[game.clone()].to_vec(), &params).unwrap();
        let mut found: Vec<(u64, i64)> =
            chains.iter().map(|c| (c.base_offset, c.links[0].offset)).collect();
        found.sort();
        assert_eq!(found, vec![(0x10, 0x20), (0x40, -0x20), (0xc0, 0)]);
        assert!(chains.iter().all(|c| c.links.len() == 1));
    }
    let few = PointerScanParams { max_offset: 0x20, max_depth: 1, max_results: 2 };
    let chains = find_pointer_chains(&mut mock, 1, target, &vec![game], &few).unwrap();
    assert_eq!(chains.len(), 2);
}

#[test]
fn only_hosted_games_are_listed() {
    let entry = |name: &str, exe: Option<&str>, cmdline: Option<&str>| ProcEntry {
        name: name.to_string(),
        exe: exe.map(|s| s.to_string()),
        cmdline: cmdline.map(|s| s.to_string()),
    };
    let wine = Some("/usr/bin/wine64-preloader");
    let list = list_wine_processes(&vec![
        entry("1", wine, Some("Game.exe\0")),
        entry("2", None, Some("Game.exe\0")),
        entry("3", wine, None),
        entry("4", wine, Some("C:\\windows\\system32\\SERVICES.EXE\0")),
        entry("5", wine, Some("steam.exe\0")),
        entry("6", Some("/usr/bin/bash"), Some("Game.exe\0")),
        entry("net", wine, Some("Game.exe\0")),
        entry("4294967296", wine, Some("Game.exe\0")),
    ]);
    assert_eq!(list.len(), 1);
    assert_eq!(list[0].pid, 1);
    let loose = pika::pid::list_wine_processes(&vec![
        entry("2", None, Some("python3\0/x/Game.exe\0")),
        entry("5", None, Some("steam.exe\0")),
        entry("4", None, Some("explorer.exe\0")),
    ]);
    assert_eq!(loose.len(), 2);
    assert_eq!(
        pika::pid::find_process("GAME", &vec![entry("2", None, Some("x Game.exe"))]).len(),
        1
    );
}

#[test]
fn methods_that_only_look_write_nothing() {
    let mut state = RpcState::new(Stingy {
        regions: vec![safe(0x1000, 0x2000)],
        written: vec![],
        takes: 0,
    });
    for (method, params) in [
        ("scan.start", "{\"pid\": 1, \"value\": 7}"),
        ("scan.aob", "{\"pid\": 1, \"pattern\": \"07\"}"),
        ("pointer.scan", "{\"pid\": 1, \"target\": \"1000\"}"),
        ("memory.read", "{\"pid\": 1, \"address\": \"1000\", \"length\": 10}"),
        ("memory.disassemble", "{\"pid\": 1, \"address\": \"1000\"}"),
        ("maps.get", "{\"pid\": 1}"),
    ] {
        let req = JsonRpcRequest {
            jsonrpc: "2.0".to_string(),
            method: method.to_string(),
            params: serde_json::from_str(params).unwrap(),
            id: None,
        };
        let reply = dispatch(&mut state, &req, &Ok(vec![]));
        assert!(reply.response.error.is_none(), "{method}: {:?}", reply.response.error);
        if let Some(RpcResult::Memory(m)) = reply.response.result {
            // half of what was asked for came
            assert_eq!(m.bytes_read, 5);
            assert_eq!(m.hex, "0707070707");
        }
    }
    assert!(state.mem.written.is_empty());
}

#[test]
fn text_is_taken_apart() {
    let chars = |s: &str| s.chars().collect::<Vec<char>>();
    let back = |v: Vec<char>| v.into_iter().collect::<String>();
    assert_eq!(back(text::trim(&chars(" \u{a0}x y\t"))), "x y");
    assert_eq!(back(text::to_lower(&chars("AbC-\u{c4}"))), "abc-\u{c4}");
    assert_eq!(
        text::words(&chars(" a  b\nc ")).into_iter().map(back).collect::<Vec<_>>(),
        vec!["a", "b", "c"]
    );
    let lines: Vec<String> =
        text::lines(&chars("a\r\nb\n\nc\n")).into_iter().map(|v| v.into_iter().collect()).collect();
    assert_eq!(lines, "a\r\nb\n\nc\n".lines().collect::<Vec<_>>());
    assert_eq!(text::parse_number(&chars("+1f"), 16, 255), Ok(31));
    for bad in ["", "+", "-1", "1g", "100000000000000000"] {
        assert!(text::parse_number(&chars(bad), 16, u64::MAX).is_err(), "{bad}");
    }
    assert_eq!(text::address_text(0), "0x0");
    assert_eq!(text::address_text(u64::MAX), "0xffffffffffffffff");
    let mut s = String::new();
    text::push_signed_decimal(&mut s, i32::MIN);
    text::push_padded_hex(&mut s, 0xabc, 5);
    assert_eq!(s, "-214748364800abc");
}

#[test]
fn a_scan_finds_every_match_and_nothing_else() {
    let mut data = vec![0u8; 0x1000];
    for at in [0usize, 8, 0xffc] {
        data[at..at + 4].copy_from_slice(&1234_i32.to_le_bytes());
    }
    // not at a multiple of its size
    data[0x102..0x106].copy_from_slice(&1234_i32.to_le_bytes());
    data[0x204..0x208].copy_from_slice(&1234.0005_f32.to_le_bytes());
    data[0x300..0x308].copy_from_slice(&1234.0_f64.to_le_bytes());
    let mut mock = MockMemoryAccess::new(1);
    mock.add_region(0x1000, data);
    mock.set_maps(vec![safe(0x1000, 0x2000)]);
    let mut found = |dtype: ValueType| -> Vec<u64> {
        let session = first_scan(&mut mock, 1, double(1234.0), dtype).unwrap();
        session.candidates.iter().map(|c| c.address).collect()
    };
    assert_eq!(found(ValueType::I32), vec![0x1000, 0x1008, 0x1ffc]);
    assert_eq!(found(ValueType::F32), vec![0x1204]);
    assert_eq!(found(ValueType::F64), vec![0x1300]);
    assert_eq!(found(ValueType::Auto), vec![0x1000, 0x1008, 0x1204, 0x1300, 0x1ffc]);
}

#[test]
fn permissions_are_read_back_as_shown() {
    for bits in 0..16 {
        let p = Permissions {
            read: bits & 1 != 0,
            write: bits & 2 != 0,
            execute: bits & 4 != 0,
            shared: bits & 8 != 0,
        };
        assert_eq!(Permissions::parse(&p.as_str()).unwrap(), p);
    }
}

#[test]
fn addresses_are_read_back_as_shown() {
    for n in [0, 9, 10, 15, 16, 0x1_4000_0000, u64::MAX - 1, u64::MAX] {
        let shown = Param::Text(text::address_text(n));
        assert_eq!(parse_hex_address(Some(&shown)), Some(n));
    }
}

#[test]
fn hits_are_counted_once_for_each_instruction() {
    let mut hits = Vec::new();
    for rip in [0x10, 0x20, 0x10, 0x30, 0x10] {
        record_hit(&mut hits, rip, None, None);
    }
    let counts: Vec<(u64, u64)> = hits.iter().map(|h| (h.rip, h.hit_count)).collect();
    assert_eq!(counts, vec![(0x10, 3), (0x20, 1), (0x30, 1)]);
    hits[0].hit_count = u64::MAX;
    record_hit(&mut hits, 0x10, None, None);
    assert_eq!(hits[0].hit_count, u64::MAX);
}

#[test]
fn only_the_first_argument_names_the_program() {
    assert_eq!(extract_exe_name("C:\\Game.exe\0-x\0Other.exe\0").as_deref(), Some("Game.exe"));
    assert_eq!(extract_exe_name("C:\\Game.exe").as_deref(), Some("Game.exe"));
    assert_eq!(extract_exe_name("python3\0C:\\Game.exe\0"), None);
}

#[test]
fn refused_parameters_change_nothing() {
    let mut state = RpcState::new(Stingy {
        regions: vec![safe(0x1000, 0x2000)],
        written: vec![],
        takes: 4,
    });
    for method in ["memory.write", "memory.write_all", "freeze.start", "watch.start", "code.patch"] {
        let req = JsonRpcRequest {
            jsonrpc: "2.0".to_string(),
            method: method.to_string(),
            params: serde_json::from_str("{\"pid\": 1}").unwrap(),
            id: None,
        };
        let reply = dispatch(&mut state, &req, &Ok(vec![]));
        assert_eq!(reply.response.error.unwrap().code, -32602, "{method}");
        assert!(reply.effects.is_empty());
    }
    assert!(state.mem.written.is_empty());
    assert!(state.freeze.list().is_empty());
    assert!(state.watch.list().is_empty());
    assert!(state.patch.list().is_empty());
}
