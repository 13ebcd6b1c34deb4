//! The other side of the protocol: what is asked, and what an answer comes to.

use crate::rpc::types::{JsonRpcError, JsonRpcRequest};
use crate::text;
use crate::text::push_signed_decimal;
use serde_json::Value;
use vstd::prelude::*;

verus! {

/// A client of the daemon at a socket.
#[derive(Clone, Debug)]
pub struct RpcClient {
    /// Path of the socket.
    pub socket_path: String,
}

impl RpcClient {
    /// A client of the daemon at a socket.
    pub fn new(socket_path: &str) -> (r: RpcClient)
        ensures
            r.socket_path@ == socket_path@,
    {
        RpcClient { socket_path: socket_path.to_string() }
    }

    /// The request for a method.
    pub fn request(&self, method: &str, params: Value, id: Value) -> (r: JsonRpcRequest)
        ensures
            r.jsonrpc@ == "2.0"@,
            r.method@ == method@,
            r.params == params,
            r.id == Some(id),
    {
        JsonRpcRequest {
            jsonrpc: "2.0".to_string(),
            method: method.to_string(),
            params,
            id: Some(id),
        }
    }

    /// What is said where nobody listens at the socket.
    pub fn no_daemon(&self) -> (r: String)
        ensures
            r@ == "cannot connect to pika daemon at "@ + self.socket_path@
                + ".\nStart it with: pika serve &"@,
    {
        let mut r = "cannot connect to pika daemon at ".to_string();
        r.append(self.socket_path.as_str());
        r.append(".\nStart it with: pika serve &");
        r
    }
}

/// What is said of an error in a response.
pub open spec fn rpc_error(e: JsonRpcError) -> Seq<char> {
    "RPC error ("@ + text::signed_decimal(e.code as int) + "): "@ + e.message@
}

/// What a response comes to: its error where it has one, else its result. One that has neither
/// is an error too.
pub fn response_outcome<T>(result: Option<T>, error: Option<JsonRpcError>) -> (r: Result<
    T,
    String,
>)
    ensures
        match (error, result) {
            (Some(e), _) => r matches Err(s) && s@ == rpc_error(e),
            (None, Some(v)) => r == Ok::<T, String>(v),
            (None, None) => r matches Err(s) && s@ == "RPC response has neither result nor error"@,
        },
{
    match error {
        Some(e) => {
            let mut s = "RPC error (".to_string();
            push_signed_decimal(&mut s, e.code);
            s.append("): ");
            s.append(e.message.as_str());
            Err(s)
        },
        None => match result {
            Some(v) => Ok(v),
            None => Err("RPC response has neither result nor error".to_string()),
        },
    }
}

/// What is said of a line that is no response.
pub fn bad_response(line: &str) -> (r: String)
    ensures
        r@ == "invalid JSON-RPC response: "@ + line@,
{
    let mut r = "invalid JSON-RPC response: ".to_string();
    r.append(line);
    r
}

} // verus!
