//! A log-structured key-value store: records are appended to data files,
//! and an in-memory index maps each key to the location of its latest value.
pub mod codec;
pub mod error;
pub mod keydir;
pub mod naming;
pub mod recovery;
pub mod store;
