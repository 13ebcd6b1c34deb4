//! Requests and responses.

use crate::mem::disassemble::Instruction;
use crate::mem::freeze::FreezeEntryJson;
use crate::mem::patch::PatchRecordJson;
use crate::mem::watch::{WatchEntryJson, WatchHitJson};
use crate::number::Double;
use crate::process::pid::ProcessInfo;
use crate::scan::candidate::CandidateJson;
use crate::scan::engine::SessionSummary;
use crate::scan::pointer::PointerChain;
use crate::text::same_text;
use serde_json::Value;
use vstd::prelude::*;

verus! {

/// A JSON value. What is inside is left to its crate.
#[verifier::external_type_specification]
#[verifier::external_body]
pub struct ExValue(serde_json::Value);

/// `Value` derives `Clone`: the copy is the same value.
pub assume_specification[ <serde_json::Value as Clone>::clone ](v: &serde_json::Value) -> (r:
    serde_json::Value)
    ensures
        r == *v,
;

/// The line is no JSON, or no request.
pub const PARSE_ERROR: i32 = -32700;

/// The request is not one of this protocol.
pub const INVALID_REQUEST: i32 = -32600;

/// There is no such method.
pub const METHOD_NOT_FOUND: i32 = -32601;

/// A parameter is missing or cannot be used.
pub const INVALID_PARAMS: i32 = -32602;

/// The method failed.
pub const INTERNAL_ERROR: i32 = -32603;

/// A request.
#[derive(Clone, Debug)]
pub struct JsonRpcRequest {
    /// Version of the protocol.
    pub jsonrpc: String,
    /// Name of the method.
    pub method: String,
    /// The parameters: an object, or null where there are none.
    pub params: Value,
    /// What the answer is to carry; none where no answer is expected.
    pub id: Option<Value>,
}

/// A response.
#[derive(Debug)]
pub struct JsonRpcResponse {
    /// Version of the protocol.
    pub jsonrpc: String,
    /// The result, where the method succeeded.
    pub result: Option<RpcResult>,
    /// The error, where it failed.
    pub error: Option<JsonRpcError>,
    /// What the request carried.
    pub id: Option<Value>,
}

/// An error in a response.
#[derive(Clone, Debug)]
pub struct JsonRpcError {
    /// The kind of error.
    pub code: i32,
    /// What is wrong.
    pub message: String,
    /// More about it.
    pub data: Option<Value>,
}

/// A region of a memory map in a reply.
#[derive(Clone, Debug)]
pub struct RegionJson {
    /// First address.
    pub start: u64,
    /// Address behind the last.
    pub end: u64,
    /// How many bytes it spans.
    pub size: u64,
    /// The four letters of its permissions.
    pub permissions: String,
    /// Name of its class.
    pub safety: String,
    /// What backs it.
    pub pathname: String,
}

/// What the first bytes of a piece of memory can stand for, as far as there are enough.
#[derive(Clone, Copy, Debug)]
pub struct Interpretations {
    /// Signed, four bytes.
    pub int32: Option<i32>,
    /// Unsigned, four bytes.
    pub uint32: Option<u32>,
    /// The bits of a number in single precision.
    pub float32: Option<u32>,
    /// Signed, eight bytes.
    pub int64: Option<i64>,
    /// Unsigned, eight bytes.
    pub uint64: Option<u64>,
    /// Double precision.
    pub float64: Option<Double>,
}

/// A piece of memory in a reply.
#[derive(Clone, Debug)]
pub struct MemoryJson {
    /// Where it is, in hexadecimal.
    pub address: String,
    /// How many bytes came.
    pub bytes_read: usize,
    /// The bytes, two digits each.
    pub hex: String,
    /// What they can stand for.
    pub interpretations: Interpretations,
}

/// An address that something failed for.
#[derive(Clone, Debug)]
pub struct BulkError {
    /// The address, in hexadecimal.
    pub address: String,
    /// What went wrong.
    pub error: String,
}

/// What came of doing a thing to every candidate of a session.
#[derive(Clone, Debug)]
pub struct BulkJson {
    /// How many addresses it was done for.
    pub done: usize,
    /// How many it failed for.
    pub failed: usize,
    /// The addresses it was done for, in hexadecimal.
    pub addresses: Vec<String>,
    /// The addresses it failed for.
    pub errors: Vec<BulkError>,
}

/// What a method returns.
#[allow(inconsistent_fields)]
#[derive(Debug)]
pub enum RpcResult {
    /// The game processes.
    Processes(Vec<ProcessInfo>),
    /// The memory map of a process.
    Regions(Vec<RegionJson>),
    /// A scan session was opened.
    ScanStarted {
        /// Identifier of the session.
        session_id: String,
        /// How many candidates it has.
        candidates: usize,
    },
    /// A scan session was filtered.
    Filtered {
        /// Identifier of the session.
        session_id: String,
        /// How many candidates are left.
        candidates: usize,
        /// The first of them.
        top: Vec<CandidateJson>,
    },
    /// Where a byte pattern matches.
    Matches {
        /// How often it matches.
        count: usize,
        /// The addresses, in hexadecimal.
        addresses: Vec<String>,
    },
    /// The scan sessions.
    Sessions(Vec<SessionSummary>),
    /// Some candidates of a session.
    Page {
        /// Identifier of the session.
        session_id: String,
        /// How many candidates it has.
        total: usize,
        /// How many come before these.
        offset: usize,
        /// How many these are.
        count: usize,
        /// These candidates.
        candidates: Vec<CandidateJson>,
    },
    /// Whether there was a session to close.
    Discarded(bool),
    /// A piece of memory.
    Memory(MemoryJson),
    /// It was done.
    Done,
    /// A value was written to the candidates of a session.
    Written(BulkJson),
    /// The candidates of a session were frozen.
    Frozen(BulkJson),
    /// Decoded instructions.
    Instructions(Vec<Instruction>),
    /// Pointer chains.
    Chains(Vec<PointerChain>),
    /// An address was frozen.
    FreezeStarted {
        /// The address, in hexadecimal.
        address: String,
    },
    /// The frozen addresses.
    Freezes(Vec<FreezeEntryJson>),
    /// A watch was opened.
    WatchStarted {
        /// Identifier of the watch.
        watch_id: String,
    },
    /// What a watch caught.
    Hits(Vec<WatchHitJson>),
    /// The watches.
    Watches(Vec<WatchEntryJson>),
    /// Code was overwritten with no-ops.
    Nopped {
        /// Where, in hexadecimal.
        address: String,
        /// What stood there.
        original_bytes: String,
        /// What stands there.
        patched_bytes: String,
    },
    /// Code was patched.
    Patched {
        /// Where, in hexadecimal.
        address: String,
        /// What stood there.
        original_bytes: String,
    },
    /// The code patches.
    Patches(Vec<PatchRecordJson>),
}

impl JsonRpcResponse {
    /// This reports an error with a code and a message, and carries `id`.
    pub open spec fn fails(self, id: Option<Value>, code: i32, message: Seq<char>) -> bool {
        &&& self.jsonrpc@ == "2.0"@
        &&& self.result is None
        &&& self.error matches Some(e) && e.code == code && e.message@ == message && e.data is None
        &&& self.id == id
    }

    /// This reports success, and carries `id`.
    pub open spec fn succeeds(self, id: Option<Value>, result: RpcResult) -> bool {
        &&& self.jsonrpc@ == "2.0"@
        &&& self.result == Some(result)
        &&& self.error is None
        &&& self.id == id
    }

    /// A response that reports success.
    pub fn ok(id: Option<Value>, result: RpcResult) -> (r: JsonRpcResponse)
        ensures
            r.succeeds(id, result),
    {
        JsonRpcResponse { jsonrpc: "2.0".to_string(), result: Some(result), error: None, id }
    }

    /// A response that reports an error.
    pub fn err(id: Option<Value>, code: i32, message: String) -> (r: JsonRpcResponse)
        ensures
            r.fails(id, code, message@),
    {
        JsonRpcResponse {
            jsonrpc: "2.0".to_string(),
            result: None,
            error: Some(JsonRpcError { code, message, data: None }),
            id,
        }
    }

    /// A request that expects no answer.
    pub fn notification(method: &str, params: Value) -> (r: JsonRpcRequest)
        ensures
            r.jsonrpc@ == "2.0"@,
            r.method@ == method@,
            r.params == params,
            r.id is None,
    {
        JsonRpcRequest {
            jsonrpc: "2.0".to_string(),
            method: method.to_string(),
            params,
            id: None,
        }
    }
}

impl JsonRpcRequest {
    /// What is wrong with the request, if anything is: the version, or that no method is
    /// named.
    pub open spec fn fault(self) -> Option<Seq<char>> {
        if self.jsonrpc@ != "2.0"@ {
            Some("expected jsonrpc \"2.0\", got \""@ + self.jsonrpc@ + "\""@)
        } else if self.method@.len() == 0 {
            Some("method must not be empty"@)
        } else {
            None
        }
    }

    /// Whether this is a request of this protocol.
    pub fn validate(&self) -> (r: Result<(), String>)
        ensures
            match r {
                Ok(()) => self.fault() is None,
                Err(e) => self.fault() == Some(e@),
            },
    {
        if !same_text(self.jsonrpc.as_str(), "2.0") {
            let mut e = "expected jsonrpc \"2.0\", got \"".to_string();
            e.append(self.jsonrpc.as_str());
            e.append("\"");
            return Err(e);
        }
        if self.method.as_str().unicode_len() == 0 {
            return Err("method must not be empty".to_string());
        }
        Ok(())
    }
}

/// A copy of what a request carries.
pub fn copy_id(id: &Option<Value>) -> (r: Option<Value>)
    ensures
        r == *id,
{
    match id {
        Some(v) => Some(v.clone()),
        None => None,
    }
}

} // verus!
