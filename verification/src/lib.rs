//! A distributed dataflow engine: typed values and events, the five operators that run
//! a user's function over them, and the coordinator that parts a job among workers,
//! deploys it and follows its executions from the first heartbeat to the last
//! acknowledgement.
//!
//! The logic here is verified; the one thing taken on trust is std's reading of UTF-8
//! (see [`value`]). What the engine does with the world outside (the scripting
//! runtime, the channels and calls between workers, the clock) comes in through
//! closures and plain values, and goes out as values that say what to do.

pub mod api;
pub mod apiserver;
pub mod cluster;
pub mod coord;
pub mod dataflow;
pub mod edge;
pub mod event;
pub mod execution;
pub mod graph;
pub mod managers;
pub mod object;
pub mod order;
pub mod rpc;
pub mod scheduler;
pub mod state;
pub mod storage;
pub mod value;
