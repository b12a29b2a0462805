//! The worker of one domain of a streaming dataflow graph: record
//! propagation, timestamp-ordered transactions, migrations and replay.

pub mod records;
pub mod state;
pub mod chunks;
pub mod domain;
pub mod laws;
pub mod packet;
