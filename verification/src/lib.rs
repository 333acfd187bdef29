//! Verified core of a versioned, branchable semantic search store.

pub mod batch;
pub mod branch;
pub mod cleanup;
pub mod config;
pub mod dedup;
pub mod delta;
pub mod distance;
pub mod domain_path;
pub mod filter;
pub mod grouping;
pub mod index;
pub mod integrity;
pub mod order;
pub mod pieces;
pub mod pq;
pub mod resolve;
pub mod retag;
pub mod rollup;
pub mod scan;
pub mod schema;
pub mod search;
pub mod stats;
pub mod store;
pub mod suggest;
pub mod sweep;
pub mod table;
pub mod tags;
pub mod tasks;
pub mod text;
pub mod words;
pub mod write;
