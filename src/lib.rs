//! Ingestion-and-storage core of a Bitcoin blockchain indexer: the header
//! chain tracker, the row schema of the key-value store, the two indexing
//! passes, block-file framing and the node client's decision logic.
pub mod chain;
pub mod codec;
pub mod daemon;
pub mod fetch;
pub mod header;
pub mod indexer;
pub mod schema;
pub mod signal;
pub mod store;
pub mod util;
