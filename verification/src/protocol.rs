//! The wire contract of the three operations — Map, Reduce and Ping — as
//! transport-agnostic request/response shapes, and the typed errors they
//! can fail with.

use vstd::prelude::*;

verus! {

/// A key-value pair: the unit of output of a map invocation and of input
/// to a reduce invocation. Keys may repeat; grouping happens at reduce
/// time.
pub struct KeyValuePair {
    pub key: String,
    pub value: String,
}

impl View for KeyValuePair {
    type V = (Seq<char>, Seq<char>);

    open spec fn view(&self) -> (Seq<char>, Seq<char>) {
        (self.key@, self.value@)
    }
}

/// A Map call: apply the named map function to the content of one input
/// unit.
pub struct MapRequest {
    pub file_path: String,
    pub map_function: String,
}

/// The intermediate pairs a Map call produced.
pub struct MapResponse {
    pub intermediate_results: Vec<KeyValuePair>,
}

/// A Reduce call: group the pairs by key and apply the named reduce
/// function once per distinct key.
pub struct ReduceRequest {
    pub intermediate_results: Vec<KeyValuePair>,
    pub reduce_function: String,
}

/// The serialized result of a Reduce call.
pub struct ReduceResponse {
    pub final_result: String,
}

/// A Ping call: the worker identity travels as request metadata, so it is
/// optional here.
pub struct PingRequest {
    pub worker_id: Option<String>,
}

/// The liveness answer: `"OK"` for a known-identity ping, `"UNKNOWN"` when
/// no identity was supplied.
pub struct PingResponse {
    pub status: String,
}

/// The typed errors of the protocol: a missing input file, an unregistered
/// function name, a value failing the reduce function's required parsing, a
/// transport failure, and a liveness expiry (the last two are never built
/// by the handlers here; they belong to the transport and the failure
/// detector).
#[derive(Debug, Clone, Copy, PartialEq, Eq, Structural)]
pub enum RpcError {
    NotFound,
    FunctionNotFound,
    InvalidArgument,
    Unavailable,
    Timeout,
}

} // verus!
