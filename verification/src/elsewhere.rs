//! What is left away from Linux, where no other process can be reached.

use crate::mem::access::{AccessError, MemoryAccess};
use crate::mem::disassemble::{DisasmError, Instruction};
use crate::mem::watch::WatchConfig;
use crate::process::pid::ProcessInfo;
use crate::process::platform::PlatformCheck;
use crate::text;
use vstd::prelude::*;

verus! {

/// Nothing can be scanned.
pub fn check_platform() -> (r: PlatformCheck)
    ensures
        !r.can_scan,
        text::texts(r.warnings@) == seq![
            "Not running on Linux. Memory scanning requires Linux with process_vm_readv.\npika is running in mock mode (no real process access)."@,
        ],
{
    let mut warnings: Vec<String> = Vec::new();
    warnings.push("Not running on Linux. Memory scanning requires Linux with process_vm_readv.\npika is running in mock mode (no real process access).".to_string());
    assert(text::texts(warnings@) =~= seq![warnings@[0]@]);
    PlatformCheck { can_scan: false, warnings }
}

/// There are no games.
pub fn list_wine_processes() -> (r: Vec<ProcessInfo>)
    ensures
        r@.len() == 0,
{
    Vec::new()
}

/// There are no games, whatever they are called.
pub fn find_process(_name_substr: &str) -> (r: Vec<ProcessInfo>)
    ensures
        r@.len() == 0,
{
    Vec::new()
}

/// No code can be decoded.
pub fn disassemble_at<M: MemoryAccess>(
    _mem: &mut M,
    _pid: u32,
    _address: u64,
    _num_instructions: usize,
) -> (r: Result<Vec<Instruction>, DisasmError>)
    ensures
        *final(_mem) == *old(_mem),
        r matches Err(e) && e@.says()
            == "disassembly requires Linux (capstone is not available on this platform)"@,
{
    Err(
        DisasmError::Decode(
            "disassembly requires Linux (capstone is not available on this platform)".to_string(),
        ),
    )
}

/// No code can be overwritten.
pub fn write_code(_pid: u32, _address: u64, _data: &[u8]) -> (r: Result<usize, AccessError>)
    ensures
        r matches Err(e) && e@ == "code patching requires Linux (/proc/pid/mem)"@,
{
    Err(AccessError { message: "code patching requires Linux (/proc/pid/mem)".to_string() })
}

/// No watch can be started.
pub fn start_watch(_config: WatchConfig) -> (r: Result<String, AccessError>)
    ensures
        r matches Err(e) && e@ == "hardware watchpoints require Linux (ptrace debug registers)"@,
{
    Err(
        AccessError {
            message: "hardware watchpoints require Linux (ptrace debug registers)".to_string(),
        },
    )
}

} // verus!
