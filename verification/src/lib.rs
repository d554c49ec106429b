//! Core logic of a deduplicating backup store.
//!
//! A store keeps immutable chunks addressed by the digest of their
//! plaintext, composes them into logical files through fixed and dynamic
//! indexes, runs one-writer backup sessions, and reclaims unreferenced
//! chunks with a mark-and-sweep collector.

pub mod backup_info;
pub mod blob;
pub mod crypto;
pub mod datastore;
pub mod chunk_store;
pub mod digest;
pub mod dynamic_index;
pub mod error;
pub mod fixed_index;
pub mod gc;
pub mod manifest;
pub mod media;
pub mod rrd;
pub mod session;
pub mod traffic_control;
pub mod time;

pub use digest::DIGEST_LEN;
