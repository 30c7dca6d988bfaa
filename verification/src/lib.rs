//! A Redis-compatible in-memory cache, as a verified library.

pub mod broadcast;
pub mod buf;
pub mod bytemap;
pub mod cluster;
pub mod collection_laws;
pub mod collections;
pub mod commands;
pub mod config;
pub mod decimal;
pub mod eviction_laws;
pub mod execute;
pub mod keyspace_laws;
pub mod laws;
pub mod persistence;
pub mod pubsub;
pub mod replica;
pub mod replication;
pub mod request_laws;
pub mod resp;
pub mod routing_laws;
pub mod score;
pub mod score_laws;
pub mod server;
pub mod service_laws;
pub mod shard;
pub mod store;
pub mod store_laws;
pub mod subscriber;
pub mod value;
pub mod view_laws;
pub mod wire_laws;
