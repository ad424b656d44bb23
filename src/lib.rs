//! Structured key-value storage for a blockchain node: fixed-width and raw
//! codecs, a column-partitioned byte store with atomic changesets, a typed
//! table adapter on top of it, and Merkle roots for merkleized tables.

pub mod codec;
pub mod database;
pub mod column;
pub mod kv_store;
pub mod merkle;
pub mod order;
pub mod producer;
pub mod structured;
pub mod tables;
pub mod types;
