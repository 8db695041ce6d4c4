//! Per-entity metadata: byte size and timestamps.
//!
//! Timestamps are Unix seconds.  Entities backed by a file carry the file's
//! stat data; entities created in memory (collections, tags, a fresh library)
//! are stamped with the current time.

use vstd::prelude::*;

verus! {

/// Byte size, creation time and last-modified time of an entity.
/// `created_at` is `None` where the origin offers no creation time.
#[derive(Clone, Copy, PartialEq, Eq, Structural, Debug)]
pub struct Metadata {
    pub byte_size: u64,
    pub created_at: Option<i64>,
    pub last_modified: i64,
}

/// Relies on `chrono::Local::now` and `DateTime::timestamp`: the current
/// time as Unix seconds.  Nothing is promised of the value.
#[verifier::external_body]
pub(crate) fn now_timestamp() -> i64 {
    chrono::Local::now().timestamp()
}

impl Metadata {
    /// Metadata for an entity created right now with the given size.
    pub fn now(byte_size: u64) -> (r: Metadata)
        ensures
            r.byte_size == byte_size,
            r.created_at == Some(r.last_modified),
    {
        let t = now_timestamp();
        Metadata { byte_size, created_at: Some(t), last_modified: t }
    }
}

/// Name and metadata of the library as a whole.
#[derive(Clone, Debug)]
pub struct LibraryMeta {
    pub name: String,
    pub meta: Metadata,
}

impl LibraryMeta {
    /// Library metadata stamped with the current time.
    pub fn new(name: String) -> (r: LibraryMeta)
        ensures
            r.name == name,
            r.meta.byte_size == 0,
            r.meta.created_at == Some(r.meta.last_modified),
    {
        LibraryMeta { name, meta: Metadata::now(0) }
    }
}

impl Default for LibraryMeta {
    /// An unnamed library with no creation time, stamped as modified now.
    fn default() -> (r: LibraryMeta)
        ensures
            r.name@ == Seq::<char>::empty(),
            r.meta.byte_size == 0,
            r.meta.created_at is None,
    {
        LibraryMeta {
            name: String::new(),
            meta: Metadata { byte_size: 0, created_at: None, last_modified: now_timestamp() },
        }
    }
}

} // verus!
