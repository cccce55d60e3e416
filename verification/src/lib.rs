//! A durable, crash-consistent key-value store core.
//!
//! The store keeps string-to-string (byte-to-byte) mappings behind a
//! write-ahead append log: every mutation is first encoded as a
//! self-delimiting, checksummed frame and appended to the log, and only
//! then reflected in an in-memory index.  The index is a derived cache:
//! it can always be rebuilt by replaying the log from the start, which is
//! how a store recovers after a crash.

pub mod codec;
pub mod log;
pub mod index;
pub mod store;
