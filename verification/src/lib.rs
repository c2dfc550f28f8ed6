//! Replay engine for recorded HTTP interactions: incoming requests are
//! normalized to a canonical key, matched against a store of recorded
//! responses, and answered according to a configurable selection behaviour.

pub mod behaviour;
pub mod errors;
pub mod in_memory;
pub mod req_resp;
pub mod text;
pub mod urls;
