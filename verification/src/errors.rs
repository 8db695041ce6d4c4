//! The error kinds of the storage engine.
//!
//! Every operation that can fail names the entity it missed or the rule it
//! refused to break; nothing here is fatal to the caller.

use vstd::prelude::*;
use vstd::string::StringExecFns;
use crate::ids::{AssetId, CollectionId, TagId};

verus! {

/// Why a storage operation was refused.
#[derive(Clone, Copy, PartialEq, Eq, Structural, Debug)]
pub enum StorageError {
    /// The asset is not in the live map.
    AssetNotFound(AssetId),
    /// The collection is not in the live map.
    CollectionNotFound(CollectionId),
    /// The tag is not in the live map.
    TagNotFound(TagId),
    /// The operation would delete, recolor or move the root collection.
    IllegalCollectionModification(CollectionId),
}

/// The message shown when a command arrives before any library is open.
pub fn storage_not_initialized() -> (r: String)
    ensures
        r@ == "Storage not initialized."@,
{
    String::from_str("Storage not initialized.")
}

} // verus!
