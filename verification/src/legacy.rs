//! Migration of the legacy, folder-based library layout into the current
//! collection/tag model — the versioned migration step run once at load
//! time.
//!
//! The remapping follows the newer model's reading of the old data: every
//! folder becomes a collection under its (sanitized) parent, keeping its
//! identifier, name and deletion flag; every folder additionally yields a
//! fresh tag named after it, grouped under the folder's parent collection
//! and colored with that collection's random color; the old flat tags land
//! ungrouped and uncolored under the root; each asset keeps its identifier
//! and properties, holds its parent folder's tag under that tag's group,
//! and keeps its old flat tags ungrouped; collections left without
//! children and content are pruned.  Inconsistent links in the input — an
//! unknown or self-referential parent — fall back to the root, so the
//! result is well-formed for any input.  The construction runs entirely
//! through the verified record operations of [`Storage`]; their contracts
//! carry the per-step details this function's own contract leaves out.

use vstd::prelude::*;
use crate::ids::{CollectionId, FolderId, TagId, AssetId};
use crate::idmap::{UMap, USet};
use crate::color::Color;
use crate::meta::{LibraryMeta, Metadata};
use crate::assets::{AssetProperty, AssetType};
use crate::storage::Storage;
use crate::tags::TagGroupConflictResolve;

verus! {

/// A folder of the legacy layout.
pub struct LegacyFolder {
    pub id: FolderId,
    pub parent: Option<FolderId>,
    pub name: String,
    pub is_deleted: bool,
    pub children: Vec<FolderId>,
    pub content: Vec<AssetId>,
    pub tags: Vec<TagId>,
    pub meta: Metadata,
}

/// A flat tag of the legacy layout.
pub struct LegacyTag {
    pub id: TagId,
    pub name: String,
    pub color: Color,
    pub meta: Metadata,
}

/// An asset of the legacy layout.
pub struct LegacyAsset {
    pub id: AssetId,
    pub parent: FolderId,
    pub name: String,
    pub ty: AssetType,
    pub ext: String,
    pub props: AssetProperty,
    pub meta: Metadata,
    pub tags: Vec<TagId>,
    pub src: String,
}

/// A persisted library in the legacy layout.
pub struct LegacyStorage {
    pub root_id: FolderId,
    pub folders: Vec<LegacyFolder>,
    pub tags: Vec<LegacyTag>,
    pub assets: Vec<LegacyAsset>,
    pub lib_meta: LibraryMeta,
}

/// Whether `j` is the first position in `tags` holding its identifier.
pub open spec fn first_tag_occurrence(tags: Seq<LegacyTag>, j: int) -> bool {
    forall|k: int| 0 <= k < j ==> (#[trigger] tags[k]).id != tags[j].id
}

/// Whether `j` is the first position in `assets` holding its identifier.
pub open spec fn first_asset_occurrence(assets: Seq<LegacyAsset>, j: int) -> bool {
    forall|k: int| 0 <= k < j ==> (#[trigger] assets[k]).id != assets[j].id
}

/// The facts the migration keeps about one remapped flat tag.
pub open spec fn legacy_tag_kept(s: Storage, lt: LegacyTag) -> bool {
    &&& s.tags@.dom().contains(lt.id.0)
    &&& s.tags@[lt.id.0].name == lt.name
    &&& s.tags@[lt.id.0].parent == s.sp_collections.root
    &&& s.tags@[lt.id.0].group is None
    &&& s.tags@[lt.id.0].color is None
    &&& !s.tags@[lt.id.0].is_deleted
}

/// The facts the migration keeps about one remapped asset.
pub open spec fn legacy_asset_kept(s: Storage, la: LegacyAsset) -> bool {
    &&& s.assets@.dom().contains(la.id.0)
    &&& s.assets@[la.id.0].name == la.name
    &&& s.assets@[la.id.0].ext == la.ext
    &&& s.assets@[la.id.0].ty == la.ty
    &&& s.assets@[la.id.0].props == la.props
    &&& s.assets@[la.id.0].src == la.src
    &&& s.assets@[la.id.0].meta == la.meta
    &&& !s.assets@[la.id.0].is_deleted
}

/// Only folder identifiers (and the root) appear as collections.
pub open spec fn collections_from_folders(s: Storage, folders: Seq<LegacyFolder>) -> bool {
    forall|c: u128| #[trigger] s.collections@.dom().contains(c)
        ==> c == s.sp_collections.root.0
            || exists|j: int| 0 <= j < folders.len()
                && (#[trigger] folders[j]).id.0 == c
}

/// Remaps a legacy library into the current model.
pub fn migrate_legacy(legacy: LegacyStorage) -> (r: Storage)
    ensures
        r.wf(),
        r.lib_meta == legacy.lib_meta,
        collections_from_folders(r, legacy.folders@),
        forall|j: int| 0 <= j < legacy.tags@.len() && first_tag_occurrence(legacy.tags@, j)
            ==> legacy_tag_kept(r, #[trigger] legacy.tags@[j]),
        forall|j: int| 0 <= j < legacy.assets@.len()
            && first_asset_occurrence(legacy.assets@, j)
            ==> legacy_asset_kept(r, #[trigger] legacy.assets@[j]),
{
    let LegacyStorage { root_id, folders, tags, assets, lib_meta } = legacy;
    let mut s = Storage::new_library(String::new());
    let root = s.sp_collections.root;
    // The identifiers the folders use, for link sanitization.
    let mut fids: USet = USet::new();
    let fn_count = folders.len();
    let mut i: usize = 0;
    while i < fn_count
        invariant
            fn_count == folders@.len(),
            i <= fn_count,
            fids.wf(),
        decreases fn_count - i,
    {
        fids.insert(folders[i].id.0);
        i += 1;
    }
    // Folders become collections, inserted soft-deleted and detached so
    // that link order does not matter; the legacy root names the fresh
    // root.
    let mut i: usize = 0;
    while i < fn_count
        invariant
            fn_count == folders@.len(),
            i <= fn_count,
            s.wf(),
            fids.wf(),
            root == s.sp_collections.root,
            s.tags@.dom() == Set::<u128>::empty(),
            s.assets@.dom() == Set::<u128>::empty(),
            collections_from_folders(s, folders@),
        decreases fn_count - i,
    {
        let f = &folders[i];
        if f.id.0 == root_id.0 {
            let _ = s.rename_collection(root, f.name.clone());
        } else {
            let parent = match f.parent {
                Some(p) => {
                    if p.0 != f.id.0 && p.0 != root_id.0 && fids.contains(p.0) {
                        CollectionId(p.0)
                    } else {
                        root
                    }
                },
                None => root,
            };
            let _ = s.insert_collection_record(
                CollectionId(f.id.0),
                parent,
                f.name.clone(),
                None,
                f.meta,
            );
            proof {
                assert forall|c: u128| #[trigger] s.collections@.dom().contains(c)
                    implies c == root.0
                        || exists|j: int| 0 <= j < folders@.len()
                            && (#[trigger] folders@[j]).id.0 == c by {
                    if c == f.id.0 {
                        assert(folders@[i as int].id.0 == c);
                    }
                }
            }
        }
        i += 1;
    }
    // Bring the folders the input marks live back into their parents'
    // listings.
    let mut i: usize = 0;
    while i < fn_count
        invariant
            fn_count == folders@.len(),
            i <= fn_count,
            s.wf(),
            root == s.sp_collections.root,
            s.tags@.dom() == Set::<u128>::empty(),
            s.assets@.dom() == Set::<u128>::empty(),
            collections_from_folders(s, folders@),
        decreases fn_count - i,
    {
        let f = &folders[i];
        if f.id.0 != root_id.0 && !f.is_deleted {
            let _ = s.revive_collection(CollectionId(f.id.0));
        }
        i += 1;
    }
    // The old flat tags land ungrouped and uncolored under the root.
    let tn = tags.len();
    let mut i: usize = 0;
    while i < tn
        invariant
            tn == tags@.len(),
            i <= tn,
            s.wf(),
            root == s.sp_collections.root,
            s.assets@.dom() == Set::<u128>::empty(),
            collections_from_folders(s, folders@),
            forall|j: int| 0 <= j < i && first_tag_occurrence(tags@, j)
                ==> legacy_tag_kept(s, #[trigger] tags@[j]),
            forall|t: u128| #[trigger] s.tags@.dom().contains(t)
                ==> exists|j: int| 0 <= j < i && (#[trigger] tags@[j]).id.0 == t,
        decreases tn - i,
    {
        let t = &tags[i];
        let inserted = s.insert_tag_record(t.id, root, None, t.name.clone(), None, t.meta);
        proof {
            if inserted {
                assert(tags@[i as int].id.0 == t.id.0);
            } else {
                // a duplicate of an earlier tag: nothing changed
                assert(s.tags@.dom().contains(t.id.0));
            }
            assert forall|j: int| 0 <= j < i + 1 && first_tag_occurrence(tags@, j)
                implies legacy_tag_kept(s, #[trigger] tags@[j]) by {
                if j == i {
                    if !inserted {
                        let k = choose|k: int|
                            0 <= k < i && (#[trigger] tags@[k]).id.0 == t.id.0;
                        assert(tags@[k].id == tags@[i as int].id);
                    }
                }
            }
            assert forall|t2: u128| #[trigger] s.tags@.dom().contains(t2)
                implies exists|j: int| 0 <= j < i + 1
                    && (#[trigger] tags@[j]).id.0 == t2 by {
                if t2 == t.id.0 {
                    assert(tags@[i as int].id.0 == t2);
                }
            }
        }
        i += 1;
    }
    // Every folder yields a fresh tag named after it, grouped under the
    // folder's parent collection.
    let mut ftags: UMap<TagId> = UMap::new();
    let mut i: usize = 0;
    while i < fn_count
        invariant
            fn_count == folders@.len(),
            tn == tags@.len(),
            i <= fn_count,
            s.wf(),
            fids.wf(),
            ftags.wf(),
            root == s.sp_collections.root,
            s.assets@.dom() == Set::<u128>::empty(),
            collections_from_folders(s, folders@),
            forall|j: int| 0 <= j < tn && first_tag_occurrence(tags@, j)
                ==> legacy_tag_kept(s, #[trigger] tags@[j]),
        decreases fn_count - i,
    {
        let f = &folders[i];
        if !ftags.contains_key(f.id.0) {
            let candidate = if f.id.0 == root_id.0 {
                root
            } else {
                match f.parent {
                    Some(p) => {
                        if p.0 != f.id.0 && p.0 != root_id.0 && fids.contains(p.0) {
                            CollectionId(p.0)
                        } else {
                            root
                        }
                    },
                    None => root,
                }
            };
            let parent_col = if s.collections.contains_key(candidate.0) {
                candidate
            } else {
                root
            };
            let tag = match s.create_tag(f.name.clone(), parent_col) {
                Ok(t) => t,
                Err(_) => {
                    proof {
                        assert(false);
                    }
                    TagId(0)
                },
            };
            match s.regroup_tag(tag, Some(parent_col), TagGroupConflictResolve::Override) {
                Ok(()) => {},
                Err(_) => {
                    proof {
                        assert(false);
                    }
                },
            }
            ftags.insert(f.id.0, tag);
            proof {
                assert forall|j: int| 0 <= j < tn && first_tag_occurrence(tags@, j)
                    implies legacy_tag_kept(s, #[trigger] tags@[j]) by {
                    assert(tags@[j].id.0 != tag.0);
                }
                assert(s.assets@.dom() =~= Set::<u128>::empty());
            }
        }
        i += 1;
    }
    // Collections holding tags get a random color; their grouped tags
    // inherit it.  The root is left uncolored.
    let mut to_color: Vec<u128> = Vec::new();
    let cn = s.collections.len();
    let mut i: usize = 0;
    while i < cn
        invariant
            cn == s.collections.keys_seq().len(),
            i <= cn,
            s.wf(),
            root == s.sp_collections.root,
            forall|j: int| 0 <= j < to_color@.len()
                ==> s.collections@.dom().contains(#[trigger] to_color@[j])
                    && to_color@[j] != root.0,
        decreases cn - i,
    {
        let c = s.collections.key_at(i);
        let col = s.collections.val_at(i);
        proof {
            assert(s.collections@[c].wf());
        }
        if c != root.0 && col.content.len() != 0 {
            to_color.push(c);
            proof {
                assert forall|j: int| 0 <= j < to_color@.len()
                    implies s.collections@.dom().contains(#[trigger] to_color@[j])
                        && to_color@[j] != root.0 by {}
            }
        }
        i += 1;
    }
    let pn = to_color.len();
    let mut i: usize = 0;
    while i < pn
        invariant
            pn == to_color@.len(),
            tn == tags@.len(),
            i <= pn,
            s.wf(),
            root == s.sp_collections.root,
            s.assets@.dom() == Set::<u128>::empty(),
            collections_from_folders(s, folders@),
            forall|j: int| 0 <= j < to_color@.len()
                ==> s.collections@.dom().contains(#[trigger] to_color@[j])
                    && to_color@[j] != root.0,
            forall|j: int| 0 <= j < tn && first_tag_occurrence(tags@, j)
                ==> legacy_tag_kept(s, #[trigger] tags@[j]),
        decreases pn - i,
    {
        let c = CollectionId(to_color[i]);
        match s.recolor_collection(c, Some(Color::random())) {
            Ok(()) => {},
            Err(_) => {
                proof {
                    assert(false);
                }
            },
        }
        proof {
            assert forall|j: int| 0 <= j < tn && first_tag_occurrence(tags@, j)
                implies legacy_tag_kept(s, #[trigger] tags@[j]) by {
                let t = tags@[j].id.0;
                assert(s.tags@[t].group is None);
            }
        }
        i += 1;
    }
    // Assets keep their identifiers and properties, hold their parent
    // folder's tag under that tag's group, and keep their old flat tags
    // ungrouped.
    let an = assets.len();
    let mut i: usize = 0;
    while i < an
        invariant
            an == assets@.len(),
            tn == tags@.len(),
            i <= an,
            s.wf(),
            ftags.wf(),
            root == s.sp_collections.root,
            collections_from_folders(s, folders@),
            forall|j: int| 0 <= j < tn && first_tag_occurrence(tags@, j)
                ==> legacy_tag_kept(s, #[trigger] tags@[j]),
            forall|j: int| 0 <= j < i && first_asset_occurrence(assets@, j)
                ==> legacy_asset_kept(s, #[trigger] assets@[j]),
            forall|a: u128| #[trigger] s.assets@.dom().contains(a)
                ==> exists|j: int| 0 <= j < i && (#[trigger] assets@[j]).id.0 == a,
        decreases an - i,
    {
        let a = &assets[i];
        let grouped = match ftags.get(a.parent.0) {
            Some(t) => {
                let tv = *t;
                match s.tags.get(tv.0) {
                    Some(tagv) => match tagv.group {
                        Some(g) => Some((g, tv)),
                        None => None,
                    },
                    None => None,
                }
            },
            None => None,
        };
        let inserted = s.insert_asset_record(
            a.id,
            a.name.clone(),
            a.ext.clone(),
            a.ty,
            a.props,
            a.meta,
            a.src.clone(),
            grouped,
            &a.tags,
        );
        proof {
            if inserted {
                assert(assets@[i as int].id.0 == a.id.0);
            } else {
                assert(s.assets@.dom().contains(a.id.0));
            }
            assert forall|j: int| 0 <= j < i + 1 && first_asset_occurrence(assets@, j)
                implies legacy_asset_kept(s, #[trigger] assets@[j]) by {
                if j == i {
                    if !inserted {
                        let k = choose|k: int|
                            0 <= k < i && (#[trigger] assets@[k]).id.0 == a.id.0;
                        assert(assets@[k].id == assets@[i as int].id);
                    }
                }
            }
            assert forall|a2: u128| #[trigger] s.assets@.dom().contains(a2)
                implies exists|j: int| 0 <= j < i + 1
                    && (#[trigger] assets@[j]).id.0 == a2 by {
                if a2 == a.id.0 {
                    assert(assets@[i as int].id.0 == a2);
                }
            }
        }
        i += 1;
    }
    // Prune collections left without children and content.
    let mut prune: Vec<u128> = Vec::new();
    let cn = s.collections.len();
    let mut i: usize = 0;
    while i < cn
        invariant
            cn == s.collections.keys_seq().len(),
            i <= cn,
            s.wf(),
            root == s.sp_collections.root,
            forall|j: int| 0 <= j < prune@.len() ==> #[trigger] prune@[j] != root.0,
        decreases cn - i,
    {
        let c = s.collections.key_at(i);
        let col = s.collections.val_at(i);
        proof {
            assert(s.collections@[c].wf());
        }
        if c != root.0 && col.children.len() == 0 && col.content.len() == 0 {
            prune.push(c);
            proof {
                assert forall|j: int| 0 <= j < prune@.len()
                    implies #[trigger] prune@[j] != root.0 by {}
            }
        }
        i += 1;
    }
    let pn = prune.len();
    let mut i: usize = 0;
    while i < pn
        invariant
            pn == prune@.len(),
            tn == tags@.len(),
            an == assets@.len(),
            i <= pn,
            s.wf(),
            root == s.sp_collections.root,
            collections_from_folders(s, folders@),
            forall|j: int| 0 <= j < prune@.len() ==> #[trigger] prune@[j] != root.0,
            forall|j: int| 0 <= j < tn && first_tag_occurrence(tags@, j)
                ==> legacy_tag_kept(s, #[trigger] tags@[j]),
            forall|j: int| 0 <= j < an && first_asset_occurrence(assets@, j)
                ==> legacy_asset_kept(s, #[trigger] assets@[j]),
        decreases pn - i,
    {
        let ghost pre = s;
        let _ = s.delete_collection(CollectionId(prune[i]));
        proof {
            assert forall|j: int| 0 <= j < tn && first_tag_occurrence(tags@, j)
                implies legacy_tag_kept(s, #[trigger] tags@[j]) by {
                let t = tags@[j].id.0;
                // the tag is listed only by the root, which survives every
                // deletion, so it is never torn down with a collection
                if !s.tags@.dom().contains(t) {
                    let c = choose|c: u128|
                        pre.collections@.dom().contains(c)
                            && !s.collections@.dom().contains(c)
                            && #[trigger] pre.collections@[c].content@.contains(t);
                    assert(pre.tags@[t].parent.0 == c);
                    assert(c == root.0);
                }
            }
        }
        i += 1;
    }
    s.lib_meta = lib_meta;
    s
}

} // verus!
