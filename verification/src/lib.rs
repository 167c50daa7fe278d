//! A persistent key-value and list store.
//!
//! The store keeps two containers: a scalar map from keys to single string
//! values, and a list map from names to ordered sequences of values. Each
//! container is serialized in full to its own JSON document; loading tolerates
//! a missing or undecodable document by starting from an empty container.
//!
//! File reading and writing, and the command-line surface, live outside this
//! library: callers hand in the raw bytes of each document and receive the
//! bytes to be written back.

pub mod codec;
pub mod store;
