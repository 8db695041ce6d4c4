//! Verified storage engine for a local media library.
//!
//! The crate models a tree of collections, tags attachable to assets under a
//! mutual-exclusion group discipline, a content-addressed duplicate-detection
//! cache keyed by CRC32, and a recycle bin with cascading recovery.  All
//! structural operations are verified against the invariants stated on the
//! `Storage` aggregate.  Calls into outside crates (checksums, identifier
//! generation, media-header parsing) stand behind small trusted wrappers.

pub mod ids;
pub mod idmap;
pub mod color;
pub mod cache;
pub mod meta;
pub mod tags;
pub mod text;
pub mod collection;
pub mod assets;
pub mod checksum;
pub mod errors;
pub mod event;
pub mod storage;
pub mod legacy;
