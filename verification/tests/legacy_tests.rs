use snowflake::assets::{AssetProperty, AssetType, RasterGraphicsProperty};
use snowflake::color::Color;
use snowflake::ids::{AssetId, FolderId, TagId};
use snowflake::legacy::{migrate_legacy, LegacyAsset, LegacyFolder, LegacyStorage, LegacyTag};
use snowflake::meta::{LibraryMeta, Metadata};

fn meta() -> Metadata {
    Metadata { byte_size: 10, created_at: Some(1), last_modified: 2 }
}

fn folder(id: u128, parent: Option<u128>, name: &str, deleted: bool) -> LegacyFolder {
    LegacyFolder {
        id: FolderId(id),
        parent: parent.map(FolderId),
        name: name.to_string(),
        is_deleted: deleted,
        children: vec![],
        content: vec![],
        tags: vec![],
        meta: meta(),
    }
}

#[test]
fn migration_remaps_folders_tags_and_assets() {
    let legacy = LegacyStorage {
        root_id: FolderId(1),
        folders: vec![
            folder(1, None, "library", false),
            folder(2, Some(1), "photos", false),
            folder(3, Some(2), "holiday", false),
        ],
        tags: vec![LegacyTag {
            id: TagId(77),
            name: "старый".to_string(),
            color: Color { r: 1, g: 2, b: 3, a: 4 },
            meta: meta(),
        }],
        assets: vec![LegacyAsset {
            id: AssetId(500),
            parent: FolderId(3),
            name: "beach".to_string(),
            ty: AssetType::RasterGraphics,
            ext: "png".to_string(),
            props: AssetProperty::RasterGraphics(RasterGraphicsProperty { width: 4, height: 2 }),
            meta: meta(),
            tags: vec![TagId(77)],
            src: "camera".to_string(),
        }],
        lib_meta: LibraryMeta { name: "lib".to_string(), meta: meta() },
    };

    let s = migrate_legacy(legacy);
    let root = s.sp_collections.root;

    // the legacy root named the fresh root; folders keep their identifiers
    assert_eq!(s.collections.get(root.0).unwrap().name, "library");
    let photos = s.collections.get(2).unwrap();
    assert_eq!(photos.name, "photos");
    assert_eq!(photos.parent, Some(root));
    assert!(!photos.is_deleted);
    // the leaf folder becomes a tag under its parent's collection; the
    // childless, contentless collection for it is pruned
    assert!(s.collections.get(3).is_none());
    assert!(!s.collections.get(2).unwrap().children.contains(3));

    // the old flat tag sits ungrouped and uncolored under the root
    let old_tag = s.tags.get(77).unwrap();
    assert_eq!(old_tag.name, "старый");
    assert_eq!(old_tag.parent, root);
    assert!(old_tag.group.is_none());
    assert!(old_tag.color.is_none());

    // the asset keeps identifier and fields, holds its folder's tag under
    // that tag's group, and keeps the flat tag ungrouped
    let a = s.assets.get(500).unwrap();
    assert_eq!(a.name, "beach");
    assert_eq!(a.ext, "png");
    assert_eq!(a.src, "camera");
    assert!(!a.is_deleted);
    assert!(a.tags.ungrouped.contains(77));
    let (group, folder_tag) = {
        assert_eq!(a.tags.grouped.len(), 1);
        (a.tags.grouped.key_at(0), *a.tags.grouped.val_at(0))
    };
    let ft = s.tags.get(folder_tag.0).unwrap();
    assert_eq!(ft.name, "holiday");
    assert_eq!(ft.group.map(|g| g.0), Some(group));
    // the folder tag inherited its collection's color
    assert!(ft.color.is_some());
    assert_eq!(s.collections.get(group).unwrap().color, ft.color);
}

#[test]
fn migration_sanitizes_and_prunes() {
    let legacy = LegacyStorage {
        root_id: FolderId(1),
        folders: vec![
            folder(1, None, "root", false),
            folder(2, Some(999), "orphan", false), // unknown parent
            folder(3, Some(3), "selfish", false),  // self-referential parent
            folder(4, Some(1), "binned", true),    // soft-deleted, empty: pruned
        ],
        tags: vec![],
        assets: vec![],
        lib_meta: LibraryMeta { name: "lib".to_string(), meta: meta() },
    };

    let s = migrate_legacy(legacy);
    let root = s.sp_collections.root;

    // inconsistent parents fall back to the root... and since those folders
    // end up childless with only their own folder tags living in their
    // parents' content, empty ones are pruned
    for id in [2u128, 3u128] {
        if let Some(c) = s.collections.get(id) {
            assert_eq!(c.parent, Some(root));
        }
    }
    // the empty soft-deleted folder was pruned with nothing else lost
    assert!(s.collections.get(4).is_none());
    assert!(s.collections.get(root.0).is_some());
}
