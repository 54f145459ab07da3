//! Storage, routing and client-protocol logic of a replicated key-value
//! store driven by a Raft consensus engine.

pub mod entry;
pub mod network;
pub mod service;
pub mod state_machine;
pub mod store;
