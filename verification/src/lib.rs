//! A distributed map-reduce coordination library.
//!
//! The crate models the job coordination layer of a map-reduce system:
//! a registry of named map/reduce functions, the coordinator that tracks
//! workers and tasks with heartbeat-driven failure recovery, the
//! request/response protocol for the Map, Reduce and Ping operations,
//! and the client-side orchestration of a multi-file job.

pub mod client;
pub mod config;
pub mod coordinator;
pub mod ext;
pub mod functions;
pub mod numbers;
pub mod protocol;
pub mod server;
pub mod utils;
pub mod words;

pub use functions::FunctionRegistry;
pub use protocol::KeyValuePair;
