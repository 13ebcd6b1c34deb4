//! What the methods have in common: how one refuses.

use crate::rpc::types::{RpcResult, INTERNAL_ERROR, INVALID_PARAMS};
use vstd::prelude::*;

verus! {

/// Why a method returned nothing.
#[derive(Clone, Debug)]
pub struct Refusal {
    /// The kind of error.
    pub code: i32,
    /// What is wrong.
    pub message: String,
}

/// What a method came to.
pub type MethodResult = Result<RpcResult, Refusal>;

/// The method refused, with a code and a message.
pub open spec fn refuses(r: MethodResult, code: i32, message: Seq<char>) -> bool {
    r matches Err(e) && e.code == code && e.message@ == message
}

/// Refuses because of a parameter.
pub fn bad_params(message: &str) -> (r: MethodResult)
    ensures
        refuses(r, INVALID_PARAMS, message@),
{
    Err(Refusal { code: INVALID_PARAMS, message: message.to_string() })
}

/// Refuses because something failed.
pub fn failed(message: String) -> (r: MethodResult)
    ensures
        refuses(r, INTERNAL_ERROR, message@),
{
    Err(Refusal { code: INTERNAL_ERROR, message })
}

/// What is said of a session that does not exist.
pub open spec fn no_session(id: Seq<char>) -> Seq<char> {
    "session '"@ + id + "' not found"@
}

/// Refuses because there is no such session.
pub fn missing_session(id: &str) -> (r: MethodResult)
    ensures
        refuses(r, INVALID_PARAMS, no_session(id@)),
{
    let mut message = "session '".to_string();
    message.append(id);
    message.append("' not found");
    Err(Refusal { code: INVALID_PARAMS, message })
}

} // verus!
