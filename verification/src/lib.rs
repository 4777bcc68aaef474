//! Snapshot files of a mail store: the record stream they are made of, the
//! key layouts of the twelve record families, and the replay of a snapshot
//! into batched write operations for the destination store.
//!
//! Reading goes through [`codec`] (bytes to records), [`interpret`] and
//! [`registry`] (a record in its context to write operations) and
//! [`engine`] (operations to batches, and whole files to the actions that
//! restore them). Writing goes through [`export`] (entries to records) and
//! [`writer`] (records to bytes). [`batch`] lays a batch out as the
//! destination store takes it, and [`laws`] holds what is proved of the
//! whole.

pub mod batch;
pub mod bitmap;
pub mod bytes;
pub mod codec;
pub mod engine;
pub mod error;
pub mod export;
pub mod family;
pub mod interpret;
pub mod laws;
pub mod ops;
pub mod registry;
pub mod writer;
