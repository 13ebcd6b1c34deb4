//! The daemon's methods, from request to response.

use pika::mem::access::MockMemoryAccess;
use pika::process::maps::{MapRegion, Permissions, RegionSafety};
use pika::process::pid::ProcEntry;
use pika::rpc::client::{bad_response, response_outcome, RpcClient};
use pika::rpc::methods::hold::Effect;
use pika::rpc::methods::{dispatch, settle, Method, Reply, RpcState};
use pika::rpc::params::{parse_hex_address, Number, Param};
use pika::rpc::server::{line_content, plan_socket, process_line, Probe, SocketPlan};
use pika::rpc::types::{
    BulkJson, JsonRpcError, JsonRpcRequest, JsonRpcResponse, MemoryJson, RpcResult,
    INTERNAL_ERROR, INVALID_PARAMS, INVALID_REQUEST, METHOD_NOT_FOUND, PARSE_ERROR,
};
use serde_json::Value;

fn value(s: &str) -> Value {
    serde_json::from_str(s).unwrap()
}

fn region(start: u64, end: u64, execute: bool, safety: RegionSafety) -> MapRegion {
    MapRegion {
        start,
        end,
        permissions: Permissions { read: true, write: !execute, execute, shared: false },
        offset: 0,
        device: "00:00".to_string(),
        inode: 0,
        pathname: String::new(),
        safety,
    }
}

fn make_state() -> RpcState<MockMemoryAccess> {
    let mut mock = MockMemoryAccess::new(100);
    let mut data = vec![0u8; 4096];
    data[0..4].copy_from_slice(&42_i32.to_le_bytes());
    mock.add_region(0x14000_0000, data);
    mock.set_maps(vec![region(0x14000_0000, 0x14000_1000, false, RegionSafety::Safe)]);
    RpcState::new(mock)
}

fn no_processes() -> Result<Vec<ProcEntry>, String> {
    Ok(Vec::new())
}

fn request(method: &str, params: &str) -> JsonRpcRequest {
    JsonRpcRequest {
        jsonrpc: "2.0".to_string(),
        method: method.to_string(),
        params: value(params),
        id: Some(value("1")),
    }
}

fn call(state: &mut RpcState<MockMemoryAccess>, method: &str, params: &str) -> Reply {
    dispatch(state, &request(method, params), &no_processes())
}

fn result(reply: Reply) -> RpcResult {
    assert!(reply.response.error.is_none(), "error: {:?}", reply.response.error);
    assert_eq!(reply.response.id, Some(value("1")));
    reply.response.result.unwrap()
}

fn error(reply: Reply) -> JsonRpcError {
    assert!(reply.response.result.is_none());
    assert!(reply.effects.is_empty());
    reply.response.error.unwrap()
}

fn scan(state: &mut RpcState<MockMemoryAccess>, value: &str) -> (String, usize) {
    let params = format!("{{\"pid\": 100, \"value\": {value}, \"dtype\": \"i32\"}}");
    match result(call(state, "scan.start", &params)) {
        RpcResult::ScanStarted { session_id, candidates } => (session_id, candidates),
        other => panic!("{other:?}"),
    }
}

fn memory(reply: Reply) -> MemoryJson {
    match result(reply) {
        RpcResult::Memory(m) => m,
        other => panic!("{other:?}"),
    }
}

#[test]
fn dispatch_pid_list() {
    let mut state = make_state();
    let req = JsonRpcRequest {
        jsonrpc: "2.0".to_string(),
        method: "pid.list".to_string(),
        params: value("{}"),
        id: Some(value("1")),
    };
    let resp = dispatch(&mut state, &req, &no_processes()).response;
    assert!(resp.result.is_some());
    assert!(resp.error.is_none());
}

#[test]
fn dispatch_unknown_method() {
    let mut state = make_state();
    let reply = call(&mut state, "nonexistent", "{}");
    let resp = reply.response;
    assert!(resp.error.is_some());
    assert_eq!(resp.id, Some(value("1")));
    let e = resp.error.unwrap();
    assert_eq!(e.code, METHOD_NOT_FOUND);
    assert_eq!(e.message, "unknown method: nonexistent");
}

#[test]
fn dispatch_scan_start_and_filter() {
    let mut state = make_state();

    // Start scan
    let resp = call(&mut state, "scan.start", "{\"pid\": 100, \"value\": 42}").response;
    assert!(resp.error.is_none(), "scan.start error: {:?}", resp.error);
    let session_id = match resp.result.unwrap() {
        RpcResult::ScanStarted { session_id, candidates } => {
            assert!(candidates > 0);
            session_id
        }
        other => panic!("{other:?}"),
    };

    // Filter with same value (should retain candidates)
    let params = format!("{{\"session_id\": \"{session_id}\", \"new_value\": 42}}");
    let resp = call(&mut state, "scan.filter", &params).response;
    assert!(resp.error.is_none(), "scan.filter error: {:?}", resp.error);
}

#[test]
fn dispatch_memory_read() {
    let mut state = make_state();
    let reply = call(
        &mut state,
        "memory.read",
        "{\"pid\": 100, \"address\": \"0x140000000\", \"length\": 16}",
    );
    assert!(reply.response.error.is_none());
    let m = memory(reply);
    assert_eq!(m.bytes_read, 16);
    assert_eq!(m.hex, "2a000000000000000000000000000000");
    assert_eq!(m.interpretations.int32, Some(42));
}

#[test]
fn dispatch_memory_write() {
    let mut state = make_state();
    let resp = call(
        &mut state,
        "memory.write",
        "{\"pid\": 100, \"address\": \"0x140000000\", \"value\": 999, \"dtype\": \"i32\"}",
    )
    .response;
    assert!(resp.error.is_none(), "write error: {:?}", resp.error);

    // Verify the write
    let m = memory(call(
        &mut state,
        "memory.read",
        "{\"pid\": 100, \"address\": \"0x140000000\", \"length\": 4}",
    ));
    assert_eq!(m.interpretations.int32, Some(999));
    assert_eq!(m.interpretations.int64, None);
}

#[test]
fn parse_hex_addresses() {
    let text = |s: &str| Param::Text(s.to_string());
    assert_eq!(parse_hex_address(Some(&text("0x1000"))), Some(0x1000));
    assert_eq!(parse_hex_address(Some(&text("1000"))), Some(0x1000));
    assert_eq!(parse_hex_address(Some(&text("0X140000000"))), Some(0x14000_0000));
    assert_eq!(parse_hex_address(Some(&text("DEADBEEF"))), Some(0xDEAD_BEEF));
    assert_eq!(parse_hex_address(None), None);
    let number = Number { unsigned: Some(42), signed: Some(42), real: None };
    assert_eq!(parse_hex_address(Some(&Param::Number(number))), None); // not a string
    assert_eq!(parse_hex_address(Some(&text(""))), None);
    assert_eq!(parse_hex_address(Some(&text("0x"))), None);
    assert_eq!(parse_hex_address(Some(&text("10000000000000000"))), None);
}

#[test]
fn dispatch_scan_discard() {
    let mut state = make_state();

    // Start a session
    let (session_id, _) = scan(&mut state, "42");

    // Discard it
    let params = format!("{{\"session_id\": \"{session_id}\"}}");
    match result(call(&mut state, "scan.discard", &params)) {
        RpcResult::Discarded(d) => assert!(d),
        other => panic!("{other:?}"),
    }

    // Discard again -- should be false
    match result(call(&mut state, "scan.discard", "{\"session_id\": \"nonexistent\"}")) {
        RpcResult::Discarded(d) => assert!(!d),
        other => panic!("{other:?}"),
    }
}

#[test]
fn process_valid_request() {
    let mut state = make_state();
    let resp = process_line(&mut state, Ok(request("pid.list", "{}")), &no_processes()).response;
    assert!(resp.error.is_none());
    assert!(resp.result.is_some());
}

#[test]
fn process_invalid_json() {
    let mut state = make_state();
    let parsed = serde_json::from_str::<Value>("not json at all").map(|_| request("", "{}"));
    let reply = process_line(&mut state, parsed.map_err(|e| e.to_string()), &no_processes());
    let e = error(reply);
    assert_eq!(e.code, PARSE_ERROR);
    assert!(e.message.starts_with("JSON parse error: "));
}

#[test]
fn process_missing_method() {
    let mut state = make_state();
    let resp =
        process_line(&mut state, Ok(request("does.not.exist", "{}")), &no_processes()).response;
    assert!(resp.error.is_some());
    assert_eq!(resp.error.unwrap().code, METHOD_NOT_FOUND);
}

#[test]
fn validate_valid_request() {
    let req = JsonRpcRequest {
        jsonrpc: "2.0".to_string(),
        method: "test".to_string(),
        params: Value::Null,
        id: Some(value("1")),
    };
    assert!(req.validate().is_ok());
}

#[test]
fn validate_wrong_version() {
    let req = JsonRpcRequest {
        jsonrpc: "1.0".to_string(),
        method: "test".to_string(),
        params: Value::Null,
        id: Some(value("1")),
    };
    assert!(req.validate().is_err());
    assert_eq!(req.validate().unwrap_err(), "expected jsonrpc \"2.0\", got \"1.0\"");
    let e = dispatch(&mut make_state(), &req, &no_processes()).response.error.unwrap();
    assert_eq!(e.code, INVALID_REQUEST);
}

#[test]
fn validate_empty_method() {
    let req = JsonRpcRequest {
        jsonrpc: "2.0".to_string(),
        method: String::new(),
        params: Value::Null,
        id: Some(value("1")),
    };
    assert!(req.validate().is_err());
}

#[test]
fn client_roundtrip_via_socket() {
    let client = RpcClient::new("/tmp/pika.sock");
    assert_eq!(client.socket_path, "/tmp/pika.sock");
    let req = client.request("pid.list", value("{}"), value("1"));
    let reply = process_line(&mut make_state(), Ok(req), &no_processes());
    match response_outcome(reply.response.result, reply.response.error).unwrap() {
        RpcResult::Processes(v) => assert!(v.is_empty()),
        other => panic!("{other:?}"),
    }
}

#[test]
fn client_error_on_missing_socket() {
    let client = RpcClient::new("/tmp/pika-nonexistent-test.sock");
    let err = client.no_daemon();
    assert!(err.contains("cannot connect"), "error: {err}");
    assert_eq!(
        err,
        "cannot connect to pika daemon at /tmp/pika-nonexistent-test.sock.\n\
         Start it with: pika serve &"
    );
}

#[test]
fn client_scan_filter_workflow() {
    let mut mock = MockMemoryAccess::new(42);
    let mut data = vec![0u8; 4096];
    // Plant value 100 at offset 0x100
    data[0x100..0x104].copy_from_slice(&100_i32.to_le_bytes());
    mock.add_region(0x0001_4000_0000, data);
    mock.set_maps(vec![region(0x0001_4000_0000, 0x0001_4000_1000, false, RegionSafety::Safe)]);
    let mut state = RpcState::new(mock);

    // Start scan
    let started = call(&mut state, "scan.start", "{\"pid\": 42, \"value\": 100}");
    let session_id = match result(started) {
        RpcResult::ScanStarted { session_id, candidates } => {
            assert!(candidates > 0);
            session_id
        }
        other => panic!("{other:?}"),
    };

    // Filter (value hasn't changed, so same candidates remain)
    let params = format!("{{\"session_id\": \"{session_id}\", \"new_value\": 100}}");
    match result(call(&mut state, "scan.filter", &params)) {
        RpcResult::Filtered { candidates, top, .. } => {
            assert!(candidates > 0);
            assert_eq!(top.len(), candidates);
            assert_eq!(top[0].address, "0x140000100");
            assert_eq!(top[0].confidence, 1);
        }
        other => panic!("{other:?}"),
    }

    // List sessions
    match result(call(&mut state, "scan.list", "{}")) {
        RpcResult::Sessions(v) => {
            assert_eq!(v.len(), 1);
            assert_eq!(v[0].id, session_id);
            assert_eq!(v[0].pid, 42);
        }
        other => panic!("{other:?}"),
    }
}

#[test]
fn responses_are_read_as_results_or_errors() {
    let e = JsonRpcError { code: -32601, message: "not found".to_string(), data: None };
    assert_eq!(
        response_outcome(Some(1), Some(e)).unwrap_err(),
        "RPC error (-32601): not found"
    );
    assert_eq!(response_outcome(Some(1), None), Ok(1));
    assert_eq!(
        response_outcome::<i32>(None, None).unwrap_err(),
        "RPC response has neither result nor error"
    );
    assert_eq!(bad_response("x"), "invalid JSON-RPC response: x");
}

#[test]
fn responses_carry_what_they_should() {
    let ok = JsonRpcResponse::ok(Some(value("42")), RpcResult::Done);
    assert_eq!(ok.jsonrpc, "2.0");
    assert_eq!(ok.id, Some(value("42")));
    assert!(ok.result.is_some() && ok.error.is_none());
    let err = JsonRpcResponse::err(Some(value("1")), METHOD_NOT_FOUND, "not found".to_string());
    assert!(err.result.is_none());
    assert_eq!(err.error.unwrap().code, -32601);
    let note = JsonRpcResponse::notification("scan.progress", value("{\"progress\": 50}"));
    assert!(note.id.is_none());
    assert_eq!(note.method, "scan.progress");
    assert_eq!(note.params, value("{\"progress\": 50}"));
}

#[test]
fn handlers_name_the_missing_parameter() {
    let mut state = make_state();
    for (method, params, message) in [
        ("pid.find", "{}", "missing 'name' parameter"),
        ("maps.get", "null", "missing 'pid' parameter"),
        ("maps.get", "{\"pid\": -1}", "missing 'pid' parameter"),
        ("maps.get", "{\"pid\": \"100\"}", "missing 'pid' parameter"),
        ("scan.start", "{\"value\": 1}", "missing 'pid' parameter"),
        ("scan.start", "{\"pid\": 100}", "missing 'value' parameter"),
        ("scan.filter", "{}", "missing 'session_id'"),
        ("scan.filter", "{\"session_id\": \"x\"}", "missing 'new_value'"),
        (
            "scan.filter",
            "{\"session_id\": \"x\", \"mode\": \"ne\", \"new_value\": null}",
            "missing 'new_value'",
        ),
        ("scan.filter", "{\"session_id\": \"x\", \"new_value\": 1}", "session 'x' not found"),
        ("scan.filter", "{\"session_id\": \"x\", \"mode\": \"inc\"}", "session 'x' not found"),
        (
            "scan.filter",
            "{\"session_id\": \"x\", \"mode\": \"bogus\"}",
            "unknown filter mode: 'bogus'. Options: exact, not-equal, increased, decreased, changed, unchanged",
        ),
        ("scan.aob", "{\"pid\": 100}", "missing 'pattern'"),
        ("scan.candidates", "[]", "missing 'session_id'"),
        ("memory.read", "{\"pid\": 100, \"address\": 5}", "missing or invalid 'address'"),
        ("memory.write", "{\"pid\": 100, \"address\": \"0x1\"}", "missing 'value'"),
        (
            "memory.write",
            "{\"pid\": 100, \"address\": \"0x1\", \"value\": 1, \"dtype\": \"i8\"}",
            "missing or invalid 'dtype'",
        ),
        ("memory.write_all", "{\"session_id\": \"x\", \"value\": 1, \"dtype\": \"i32\"}", "session 'x' not found"),
        ("freeze.start_all", "{}", "missing 'session_id'"),
        ("freeze.stop", "{}", "missing or invalid 'address'"),
        ("pointer.scan", "{\"pid\": 100}", "missing or invalid 'target'"),
        ("watch.hits", "{}", "missing 'watch_id'"),
        (
            "watch.start",
            "{\"pid\": 100, \"address\": \"0x1\", \"mode\": \"x\"}",
            "invalid mode: x (expected 'write' or 'access')",
        ),
        (
            "watch.start",
            "{\"pid\": 100, \"address\": \"0x1\", \"size\": 3}",
            "invalid size: 3 (expected 1, 2, 4, or 8)",
        ),
        ("code.patch", "{\"pid\": 100, \"address\": \"0x1\"}", "missing 'bytes'"),
        (
            "code.patch",
            "{\"pid\": 100, \"address\": \"0x1\", \"bytes\": \"zz\"}",
            "invalid hex bytes: invalid hex byte 'zz': invalid digit found in string",
        ),
        (
            "memory.disassemble",
            "{\"pid\": 100, \"address\": \"0x1\", \"num_instructions\": 18446744073709551615}",
            "too many instructions",
        ),
    ] {
        let reply = call(&mut state, method, params);
        assert_eq!(reply.response.id, Some(value("1")), "{method} {params}");
        let e = error(reply);
        assert_eq!(e.code, INVALID_PARAMS, "{method} {params}");
        assert_eq!(e.message, message);
    }
}

#[test]
fn failures_are_internal_errors() {
    let mut state = make_state();
    for (method, params) in [
        ("maps.get", "{\"pid\": 7}"),
        ("scan.start", "{\"pid\": 7, \"value\": 1}"),
        ("scan.aob", "{\"pid\": 7, \"pattern\": \"90\"}"),
        ("pointer.scan", "{\"pid\": 7, \"target\": \"0x10\"}"),
        ("memory.read", "{\"pid\": 7, \"address\": \"0x10\"}"),
        ("memory.disassemble", "{\"pid\": 7, \"address\": \"0x10\"}"),
        ("memory.write", "{\"pid\": 100, \"address\": \"0x10\", \"value\": 1, \"dtype\": \"i32\"}"),
        ("memory.write", "{\"pid\": 100, \"address\": \"0x140000000\", \"value\": 1, \"dtype\": \"auto\"}"),
        ("watch.hits", "{\"watch_id\": \"x\"}"),
        ("watch.stop", "{\"watch_id\": \"x\"}"),
        ("code.nop", "{\"pid\": 100, \"address\": \"0x10\", \"size\": 1}"),
        ("code.restore", "{\"pid\": 100, \"address\": \"0x10\"}"),
    ] {
        let e = error(call(&mut state, method, params));
        assert_eq!(e.code, INTERNAL_ERROR, "{method}");
    }
    let unreadable = Err("no /proc".to_string());
    let reply = dispatch(&mut state, &request("pid.list", "{}"), &unreadable);
    assert_eq!(error(reply).message, "no /proc");
}

#[test]
fn types_are_read_by_name_or_tag() {
    let mut state = make_state();
    for dtype in ["\"i32\"", "{\"i32\": null}"] {
        let params = format!(
            "{{\"pid\": 100, \"address\": \"140000000\", \"value\": 7, \"dtype\": {dtype}}}"
        );
        assert!(matches!(result(call(&mut state, "memory.write", &params)), RpcResult::Done));
    }
    for dtype in ["{\"i32\": 1}", "{\"i32\": null, \"u32\": null}", "[\"i32\"]", "null"] {
        let params = format!(
            "{{\"pid\": 100, \"address\": \"140000000\", \"value\": 7, \"dtype\": {dtype}}}"
        );
        let e = error(call(&mut state, "memory.write", &params));
        assert_eq!(e.message, "missing or invalid 'dtype'");
    }
}

#[test]
fn a_process_identifier_has_32_bits() {
    let mut state = make_state();
    let reply = call(&mut state, "maps.get", "{\"pid\": 4294967396}");
    assert!(matches!(result(reply), RpcResult::Regions(_)));
}

#[test]
fn maps_are_shown() {
    let mut state = make_state();
    match result(call(&mut state, "maps.get", "{\"pid\": 100}")) {
        RpcResult::Regions(v) => {
            assert_eq!(v.len(), 1);
            assert_eq!(v[0].start, 0x14000_0000);
            assert_eq!(v[0].size, 0x1000);
            assert_eq!(v[0].permissions, "rw-p");
            assert_eq!(v[0].safety, "Safe");
        }
        other => panic!("{other:?}"),
    }
}

#[test]
fn reads_are_capped_and_interpreted() {
    let mut state = make_state();
    let m = memory(call(
        &mut state,
        "memory.read",
        "{\"pid\": 100, \"address\": \"140000000\", \"length\": 100000}",
    ));
    assert_eq!(m.bytes_read, 4096);
    let m = memory(call(&mut state, "memory.read", "{\"pid\": 100, \"address\": \"140000000\"}"));
    assert_eq!(m.bytes_read, 128);
    assert_eq!(m.address, "0x140000000");
    let params = "{\"pid\": 100, \"address\": \"140000000\", \"value\": -1.5, \"dtype\": \"f64\"}";
    assert!(matches!(result(call(&mut state, "memory.write", params)), RpcResult::Done));
    let m = memory(call(
        &mut state,
        "memory.read",
        "{\"pid\": 100, \"address\": \"140000000\", \"length\": 8}",
    ));
    assert_eq!(m.interpretations.float64.unwrap().bits, (-1.5_f64).to_bits());
    assert_eq!(m.interpretations.uint64, Some((-1.5_f64).to_bits()));
    assert_eq!(m.interpretations.int64, Some((-1.5_f64).to_bits() as i64));
    assert_eq!(m.interpretations.uint32, Some(0));
    assert_eq!(m.interpretations.float32, Some(0));
}

fn bulk(reply: Reply) -> BulkJson {
    match result(reply) {
        RpcResult::Written(b) | RpcResult::Frozen(b) => b,
        other => panic!("{other:?}"),
    }
}

#[test]
fn many_addresses_need_force() {
    let mut state = make_state();
    // zeros: far more than the limit
    let (many, count) = scan(&mut state, "0");
    assert!(count > 16);
    for (method, what) in [("memory.write_all", "write to "), ("freeze.start_all", "freeze ")] {
        let params = format!("{{\"session_id\": \"{many}\", \"value\": 9, \"dtype\": \"i32\"}}");
        let e = error(call(&mut state, method, &params));
        assert_eq!(e.code, INVALID_PARAMS);
        assert_eq!(
            e.message,
            format!("refusing to {what}{count} addresses (limit: 16). Narrow your scan or use --force")
        );
    }
    let params = format!(
        "{{\"session_id\": \"{many}\", \"value\": 9, \"dtype\": \"i32\", \"force\": true}}"
    );
    let b = bulk(call(&mut state, "memory.write_all", &params));
    assert_eq!(b.done, count);
    assert_eq!(b.failed, 0);
    assert_eq!(b.addresses.len(), count);
    let m = memory(call(
        &mut state,
        "memory.read",
        "{\"pid\": 100, \"address\": \"140000004\", \"length\": 4}",
    ));
    assert_eq!(m.interpretations.int32, Some(9));
}

#[test]
fn writes_to_all_report_each_failure() {
    let mut state = make_state();
    let (id, count) = scan(&mut state, "42");
    assert_eq!(count, 1);
    state.mem.set_maps(vec![region(0x14000_0000, 0x14000_1000, false, RegionSafety::Risky)]);
    let params = format!("{{\"session_id\": \"{id}\", \"value\": 9, \"dtype\": \"i32\"}}");
    let b = bulk(call(&mut state, "memory.write_all", &params));
    assert_eq!(b.done, 0);
    assert_eq!(b.failed, 1);
    assert_eq!(b.errors[0].address, "0x140000000");
    assert!(b.errors[0].error.contains("ABORT"));
}

#[test]
fn candidates_come_in_pages() {
    let mut state = make_state();
    let (id, count) = scan(&mut state, "0");
    let page = |state: &mut RpcState<MockMemoryAccess>, more: &str| {
        let params = format!("{{\"session_id\": \"{id}\"{more}}}");
        match result(call(state, "scan.candidates", &params)) {
            RpcResult::Page { total, offset, count, candidates, .. } => {
                assert_eq!(candidates.len(), count);
                (total, offset, count)
            }
            other => panic!("{other:?}"),
        }
    };
    assert_eq!(page(&mut state, ""), (count, 0, 100));
    assert_eq!(page(&mut state, ", \"limit\": 5000"), (count, 0, 1000));
    assert_eq!(page(&mut state, ", \"offset\": 1, \"limit\": 3"), (count, 1, 3));
    assert_eq!(page(&mut state, ", \"offset\": 1000000"), (count, 1000000, 0));
    let last = count - 1;
    assert_eq!(page(&mut state, &format!(", \"offset\": {last}")), (count, last, 1));
}

#[test]
fn byte_patterns_are_found() {
    let mut state = make_state();
    match result(call(&mut state, "scan.aob", "{\"pid\": 100, \"pattern\": \"2a 00 ?? 00\"}")) {
        RpcResult::Matches { count, addresses } => {
            assert_eq!(count, 1);
            assert_eq!(addresses, vec!["0x140000000"]);
        }
        other => panic!("{other:?}"),
    }
}

#[test]
fn pointer_chains_are_found() {
    let mut mock = MockMemoryAccess::new(1);
    let mut module = vec![0u8; 0x1000];
    module[0x100..0x108].copy_from_slice(&0x2000_0500_u64.to_le_bytes());
    mock.add_region(0x14000_0000, module);
    mock.add_region(0x2000_0000, vec![0u8; 0x1000]);
    let mut game = region(0x14000_0000, 0x14000_1000, false, RegionSafety::Safe);
    game.pathname = "/Game.exe".to_string();
    mock.set_maps(vec![game, region(0x2000_0000, 0x2000_1000, false, RegionSafety::Safe)]);
    let mut state = RpcState::new(mock);
    match result(call(&mut state, "pointer.scan", "{\"pid\": 1, \"target\": \"0x20000510\"}")) {
        RpcResult::Chains(v) => {
            assert_eq!(v.len(), 1);
            assert_eq!(v[0].base_module, "/Game.exe");
            assert_eq!(v[0].base_offset, 0x100);
            assert_eq!(v[0].links[0].offset, 0x10);
        }
        other => panic!("{other:?}"),
    }
    let none = "{\"pid\": 1, \"target\": \"0x20000510\", \"max_offset\": 8}";
    match result(call(&mut state, "pointer.scan", none)) {
        RpcResult::Chains(v) => assert!(v.is_empty()),
        other => panic!("{other:?}"),
    }
}

#[test]
fn instructions_are_decoded() {
    let mut state = make_state();
    state.mem.write_value(0x14000_0100, &[0x90, 0xc3]);
    let params = "{\"pid\": 100, \"address\": \"0x140000100\", \"num_instructions\": 2}";
    match result(call(&mut state, "memory.disassemble", params)) {
        RpcResult::Instructions(v) => {
            assert_eq!(v.len(), 2);
            assert_eq!(v[0].mnemonic, "nop");
            assert_eq!(v[1].mnemonic, "ret");
        }
        other => panic!("{other:?}"),
    }
}

#[test]
fn freezes_start_and_stop() {
    let mut state = make_state();
    let params = "{\"pid\": 100, \"address\": \"0x140000000\", \"value\": 7, \"dtype\": \"i32\"}";
    let reply = call(&mut state, "freeze.start", params);
    match &reply.effects[..] {
        [Effect::StartFreeze(e)] => {
            assert_eq!(e.address, 0x14000_0000);
            assert_eq!(e.interval_ms, 100);
        }
        other => panic!("{other:?}"),
    }
    match settle(&mut state, reply, &vec![None]).result {
        Some(RpcResult::FreezeStarted { address }) => assert_eq!(address, "0x140000000"),
        other => panic!("{other:?}"),
    }
    match result(call(&mut state, "freeze.list", "{}")) {
        RpcResult::Freezes(v) => assert_eq!(v.len(), 1),
        other => panic!("{other:?}"),
    }
    let reply = call(&mut state, "freeze.stop", "{\"address\": \"140000000\"}");
    assert!(matches!(&reply.effects[..], [Effect::StopFreeze(0x1_4000_0000)]));
    match result(call(&mut state, "freeze.list", "{}")) {
        RpcResult::Freezes(v) => assert!(v.is_empty()),
        other => panic!("{other:?}"),
    }
}

#[test]
fn a_freeze_without_a_thread_is_given_up() {
    let mut state = make_state();
    let params = "{\"pid\": 100, \"address\": \"0x140000000\", \"value\": 7, \"dtype\": \"i32\"}";
    let reply = call(&mut state, "freeze.start", params);
    let resp = settle(&mut state, reply, &vec![Some("out of threads".to_string())]);
    let e = resp.error.unwrap();
    assert_eq!(e.code, INTERNAL_ERROR);
    assert_eq!(e.message, "out of threads");
    assert!(state.freeze.list().is_empty());
}

#[test]
fn freezing_all_accounts_for_each() {
    let mut state = make_state();
    state.mem.write_value(0x14000_0010, &42_i32.to_le_bytes());
    let (id, count) = scan(&mut state, "42");
    assert_eq!(count, 2);
    let params = format!(
        "{{\"session_id\": \"{id}\", \"value\": 9, \"dtype\": \"i32\", \"interval_ms\": 20}}"
    );
    let reply = call(&mut state, "freeze.start_all", &params);
    assert_eq!(reply.effects.len(), 2);
    let resp = settle(&mut state, reply, &vec![None, Some("no".to_string())]);
    match resp.result.unwrap() {
        RpcResult::Frozen(b) => {
            assert_eq!(b.done, 1);
            assert_eq!(b.failed, 1);
            assert_eq!(b.addresses, vec!["0x140000000"]);
            assert_eq!(b.errors[0].address, "0x140000010");
            assert_eq!(b.errors[0].error, "no");
        }
        other => panic!("{other:?}"),
    }
    let list = state.freeze.list();
    assert_eq!(list.len(), 1);
    assert_eq!(list[0].interval_ms, 20);
}

#[test]
fn watches_start_and_stop() {
    let mut state = make_state();
    let params = "{\"pid\": 100, \"address\": \"0x1000\", \"mode\": \"access\", \"size\": 8, \"detail\": true}";
    let reply = call(&mut state, "watch.start", params);
    let id = match &reply.effects[..] {
        [Effect::StartWatch(id, config)] => {
            assert!(config.capture_registers);
            assert_eq!(config.size.as_bytes(), 8);
            id.clone()
        }
        other => panic!("{other:?}"),
    };
    let _ = settle(&mut state, reply, &vec![None]);
    match result(call(&mut state, "watch.list", "{}")) {
        RpcResult::Watches(v) => assert_eq!(v[0].mode, "access"),
        other => panic!("{other:?}"),
    }
    let params = format!("{{\"watch_id\": \"{id}\"}}");
    match result(call(&mut state, "watch.hits", &params)) {
        RpcResult::Hits(v) => assert!(v.is_empty()),
        other => panic!("{other:?}"),
    }
    let reply = call(&mut state, "watch.stop", &params);
    assert_eq!(reply.effects.len(), 1);
    assert!(state.watch.list().is_empty());
    let reply = call(&mut state, "watch.start", "{\"pid\": 100, \"address\": \"0x1000\"}");
    let resp = settle(&mut state, reply, &vec![Some("no".to_string())]);
    assert_eq!(resp.error.unwrap().message, "no");
    assert!(state.watch.list().is_empty());
}

#[test]
fn code_is_patched_and_restored() {
    let mut state = make_state();
    state.mem.add_region(0x4000, vec![0x89, 0x48, 0x1c, 0x90, 0x90, 0x90, 0x90, 0x90]);
    state.mem.set_maps(vec![region(0x4000, 0x4008, true, RegionSafety::ReadOnly)]);
    match result(call(&mut state, "code.nop", "{\"pid\": 100, \"address\": \"4000\"}")) {
        RpcResult::Nopped { address, original_bytes, patched_bytes } => {
            assert_eq!(address, "0x4000");
            assert_eq!(original_bytes, "89 48 1c");
            assert_eq!(patched_bytes, "90 90 90");
        }
        other => panic!("{other:?}"),
    }
    let restore = "{\"pid\": 100, \"address\": \"4000\"}";
    assert!(matches!(result(call(&mut state, "code.restore", restore)), RpcResult::Done));
    assert_eq!(state.mem.read_value(0x4000, 3), vec![0x89, 0x48, 0x1c]);
    let patch = "{\"pid\": 100, \"address\": \"4000\", \"bytes\": \"EB 05\"}";
    match result(call(&mut state, "code.patch", patch)) {
        RpcResult::Patched { original_bytes, .. } => assert_eq!(original_bytes, "89 48"),
        other => panic!("{other:?}"),
    }
    match result(call(&mut state, "code.list", "{}")) {
        RpcResult::Patches(v) => {
            assert_eq!(v.len(), 1);
            assert_eq!(v[0].description, "custom patch");
        }
        other => panic!("{other:?}"),
    }
}

#[test]
fn games_are_found_by_name() {
    let entry = |name: &str, exe: &str, cmdline: &str| ProcEntry {
        name: name.to_string(),
        exe: Some(exe.to_string()),
        cmdline: Some(cmdline.to_string()),
    };
    let proc = Ok(vec![
        entry("12", "/opt/proton/bin/wine64-preloader", "C:\\Game\\Avowed.exe\0--fast\0"),
        entry("13", "/opt/proton/bin/wine64-preloader", "C:\\windows\\explorer.exe\0"),
        entry("14", "/usr/bin/python3", "C:\\Game\\Avowed.exe\0"),
        entry("self", "/opt/proton/bin/wine", "C:\\Game\\Other.exe\0"),
        entry("15", "/opt/proton/bin/wine", "Z:\\Other.exe\0"),
    ]);
    let mut state = make_state();
    match result(dispatch(&mut state, &request("pid.list", "{}"), &proc)) {
        RpcResult::Processes(v) => {
            assert_eq!(v.len(), 2);
            assert_eq!(v[0].pid, 12);
            assert_eq!(v[0].name, "Avowed.exe");
            assert_eq!(v[0].exe_path, "C:\\Game\\Avowed.exe --fast");
            assert_eq!(v[1].pid, 15);
        }
        other => panic!("{other:?}"),
    }
    match result(dispatch(&mut state, &request("pid.find", "{\"name\": \"avow\"}"), &proc)) {
        RpcResult::Processes(v) => assert_eq!(v.len(), 1),
        other => panic!("{other:?}"),
    }
}

#[test]
fn heavy_methods_are_the_scans() {
    for name in ["scan.start", "scan.filter", "scan.aob", "pointer.scan"] {
        assert!(Method::named(name).unwrap().is_heavy());
    }
    for name in ["scan.list", "memory.write_all", "code.nop", "pid.list"] {
        assert!(!Method::named(name).unwrap().is_heavy());
    }
    assert!(Method::named("scan").is_none());
}

#[test]
fn lines_are_trimmed() {
    assert_eq!(line_content("  {} \r"), Some("{}".to_string()));
    assert_eq!(line_content(" \t "), None);
}

#[test]
fn a_running_daemon_is_left_alone() {
    let plan = |p: Probe| plan_socket("/tmp/x.sock", p);
    assert!(matches!(plan(Probe::Absent), SocketPlan::Bind));
    assert!(matches!(plan(Probe::Vanished), SocketPlan::Bind));
    assert!(matches!(plan(Probe::Refused), SocketPlan::ReplaceStale));
    match plan(Probe::Connected) {
        SocketPlan::Fail(e) => assert_eq!(
            e,
            "another pika daemon is already running on /tmp/x.sock. \
             Stop it first or use a different --socket path."
        ),
        other => panic!("{other:?}"),
    }
    match plan(Probe::Failed("EACCES".to_string())) {
        SocketPlan::Fail(e) => {
            assert_eq!(e, "cannot check existing socket at /tmp/x.sock: EACCES");
        }
        other => panic!("{other:?}"),
    }
}
