//! How the keyspace outlives the process: a log of write commands, and
//! snapshots.

pub mod aof;
pub mod snapshot;
