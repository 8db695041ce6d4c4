use snowflake::assets::{AssetProperty, RawAsset};
use snowflake::ids::{AssetId, TagId};
use snowflake::storage::Storage;
use snowflake::tags::TagGroupConflictResolve;

/// A minimal 1x1 PNG header, enough for the size sniffer.
fn tiny_png() -> Vec<u8> {
    vec![
        0x89, 0x50, 0x4e, 0x47, 0x0d, 0x0a, 0x1a, 0x0a, // signature
        0x00, 0x00, 0x00, 0x0d, b'I', b'H', b'D', b'R', // IHDR chunk
        0x00, 0x00, 0x00, 0x01, 0x00, 0x00, 0x00, 0x01, // 1 x 1
        0x08, 0x06, 0x00, 0x00, 0x00, 0x1f, 0x15, 0xc4, 0x89,
    ]
}

fn raw(bytes: Vec<u8>, ext: &str, src: &str) -> RawAsset {
    RawAsset { bytes, ext: ext.to_string(), src: src.to_string() }
}

fn import_one(storage: &mut Storage, bytes: Vec<u8>, ext: &str) -> AssetId {
    let (_, ids) = storage.add_raw_assets(None, &vec![raw(bytes, ext, "")]);
    ids[0].expect("the buffer should have been accepted")
}

#[test]
fn import_reads_png_dimensions() {
    let mut s = Storage::new_library("lib".to_string());
    let id = import_one(&mut s, tiny_png(), "png");
    let a = s.assets.get(id.0).unwrap();
    match &a.props {
        AssetProperty::RasterGraphics(p) => {
            assert_eq!(p.width, 1);
            assert_eq!(p.height, 1);
        }
        _ => panic!("expected raster properties"),
    }
    assert_eq!(a.ext, "png");
    assert!(!a.is_deleted);
}

#[test]
fn import_reads_svg_view_box() {
    let mut s = Storage::new_library("lib".to_string());
    let svg = b"<svg viewBox=\"2 1 12 6\"><rect/></svg>".to_vec();
    let id = import_one(&mut s, svg, "svg");
    let a = s.assets.get(id.0).unwrap();
    match &a.props {
        AssetProperty::VectorGraphics(p) => {
            assert_eq!(p.width, 10);
            assert_eq!(p.height, 5);
        }
        _ => panic!("expected vector properties"),
    }
}

#[test]
fn unrecognized_or_unparsable_buffers_are_skipped() {
    let mut s = Storage::new_library("lib".to_string());
    let (dups, ids) = s.add_raw_assets(
        None,
        &vec![
            raw(vec![1, 2, 3], "txt", ""),   // unknown extension
            raw(vec![1, 2, 3], "png", ""),   // not a real image
            raw(vec![1, 2, 3], "glb", ""),   // not a real model
            raw(b"<svg></svg>".to_vec(), "svg", ""), // no viewBox
        ],
    );
    assert_eq!(ids, vec![None, None, None, None]);
    assert!(dups.reduce().is_none());
}

#[test]
fn duplicate_import_round_trip() {
    // importing byte-identical content twice surfaces one group of two;
    // deleting one of them removes it from the group
    let mut s = Storage::new_library("lib".to_string());
    let (_, ids1) = s.add_raw_assets(None, &vec![raw(tiny_png(), "png", "a.png")]);
    let a = ids1[0].unwrap();
    let (dups, ids2) = s.add_raw_assets(None, &vec![raw(tiny_png(), "png", "b.png")]);
    let b = ids2[0].unwrap();

    let crc = *s.cache.asset_crc.get(a.0).unwrap();
    let group = dups.0.get(crc as u128).expect("one duplicate group");
    assert_eq!(group.len(), 2);
    assert!(group.contains(&a) && group.contains(&b));

    s.delete_asset(a).unwrap();
    let bucket = s.cache.crc_lookup.get(crc as u128).unwrap();
    assert!(!bucket.contains(&a));
    assert!(bucket.contains(&b));
}

#[test]
fn initialize_with_identical_files_reports_one_group() {
    // a library built from two byte-identical images reports one group of
    // size two
    let mut s = Storage::new_library("lib".to_string());
    let (_, ids) = s.add_raw_assets(
        None,
        &vec![raw(tiny_png(), "png", "a.png"), raw(tiny_png(), "png", "b.png")],
    );
    assert!(ids[0].is_some() && ids[1].is_some());
    let all = s.cache.get_all_duplication();
    assert_eq!(all.len(), 1);
    let crc = all.key_at(0);
    assert_eq!(all.get(crc).unwrap().len(), 2);
}

#[test]
fn tag_virtual_path_follows_moves() {
    // create collection C1, tag T1 under it, tag an asset, move the tag to
    // C2: the virtual path is now [C2's name, tag name]
    let mut s = Storage::new_library("lib".to_string());
    let root = s.sp_collections.root;
    let c1 = s.create_collection("C1".to_string(), root).unwrap();
    let c2 = s.create_collection("C2".to_string(), root).unwrap();
    let t1 = s.create_tag("T1".to_string(), c1).unwrap();
    let x = import_one(&mut s, tiny_png(), "png");
    s.add_tag_to_asset(x, t1, TagGroupConflictResolve::Override).unwrap();

    s.move_tag_to(t1, c2).unwrap();
    let path = s.get_tag_virtual_path(t1).unwrap();
    assert_eq!(path, vec!["C2".to_string(), "T1".to_string()]);
    assert!(s.get_assets_containing_tag(t1).contains(&x));
}

#[test]
fn soft_delete_collection_hides_assets_and_recover_restores() {
    // soft-delete a collection holding an asset through its tag: the asset
    // leaves the live listing; recovering with content restores both
    let mut s = Storage::new_library("lib".to_string());
    let root = s.sp_collections.root;
    let f = s.create_collection("F".to_string(), root).unwrap();
    let t = s.create_tag("T".to_string(), f).unwrap();
    let (_, ids) = s.add_raw_assets(Some(t), &vec![raw(tiny_png(), "png", "")]);
    let x = ids[0].unwrap();

    assert!(s.get_all_assets().contains(&x));
    s.move_collection_to_recycle_bin(f).unwrap();
    assert!(!s.get_all_assets().contains(&x));
    assert!(s.collections.get(f.0).unwrap().is_deleted);
    assert!(s.cache.asset_crc.get(x.0).is_none());

    let recovered = s.recover_collection(f, true).unwrap();
    assert_eq!(recovered, vec![x]);
    assert!(!s.collections.get(f.0).unwrap().is_deleted);
    assert!(s.get_all_assets().contains(&x));

    // re-register the checksum the caller re-reads from the backing file
    let crc = snowflake::checksum::Checksums::from_bytes(&tiny_png()).crc32;
    assert!(s.register_asset_crc(x, crc));
    assert!(s.cache.asset_crc.get(x.0).is_some());
}

#[test]
fn soft_delete_and_recover_asset_restores_cache_membership() {
    let mut s = Storage::new_library("lib".to_string());
    let x = import_one(&mut s, tiny_png(), "png");
    let crc = *s.cache.asset_crc.get(x.0).unwrap();

    s.move_asset_to_recycle_bin(x).unwrap();
    assert!(s.assets.get(x.0).unwrap().is_deleted);
    assert!(s.recycle_bin.assets.contains(x.0));
    assert!(s.cache.asset_crc.get(x.0).is_none());

    assert!(s.recover_asset(x, crc));
    let a = s.assets.get(x.0).unwrap();
    assert!(!a.is_deleted);
    assert!(!s.recycle_bin.assets.contains(x.0));
    assert_eq!(*s.cache.asset_crc.get(x.0).unwrap(), crc);
    assert!(s.cache.crc_lookup.get(crc as u128).unwrap().contains(&x));
}

#[test]
fn root_collection_is_protected() {
    let mut s = Storage::new_library("lib".to_string());
    let root = s.sp_collections.root;
    let before_len = s.collections.len();

    assert!(s.move_collection_to_recycle_bin(root).is_err());
    assert!(s.recolor_collection(root, None).is_err());
    let c = s.create_collection("C".to_string(), root).unwrap();
    assert!(s.move_collection_to(root, c).is_err());

    assert_eq!(s.collections.len(), before_len + 1);
    assert!(!s.collections.get(root.0).unwrap().is_deleted);
}

#[test]
fn tree_integrity_after_moves() {
    let mut s = Storage::new_library("lib".to_string());
    let root = s.sp_collections.root;
    let a = s.create_collection("A".to_string(), root).unwrap();
    let b = s.create_collection("B".to_string(), root).unwrap();
    let c = s.create_collection("C".to_string(), a).unwrap();

    s.move_collection_to(c, b).unwrap();

    // C sits in exactly B's child set, and its parent pointer matches
    assert!(s.collections.get(b.0).unwrap().children.contains(c.0));
    assert!(!s.collections.get(a.0).unwrap().children.contains(c.0));
    assert!(!s.collections.get(root.0).unwrap().children.contains(c.0));
    assert_eq!(s.collections.get(c.0).unwrap().parent, Some(b));

    // self-moves are refused
    assert!(s.move_collection_to(b, b).is_err());
}

#[test]
fn tag_mutual_exclusion_by_group() {
    let mut s = Storage::new_library("lib".to_string());
    let root = s.sp_collections.root;
    let g = s.create_collection("G".to_string(), root).unwrap();
    let t1 = s.create_tag("one".to_string(), g).unwrap();
    let t2 = s.create_tag("two".to_string(), g).unwrap();
    s.regroup_tag(t1, Some(g), TagGroupConflictResolve::Override).unwrap();
    s.regroup_tag(t2, Some(g), TagGroupConflictResolve::Override).unwrap();
    let x = import_one(&mut s, tiny_png(), "png");

    s.add_tag_to_asset(x, t1, TagGroupConflictResolve::Override).unwrap();
    s.add_tag_to_asset(x, t2, TagGroupConflictResolve::Override).unwrap();
    {
        let a = s.assets.get(x.0).unwrap();
        // only the second tag remains under the group
        assert!(!a.tags.contains_id(t1));
        assert!(a.tags.contains_id(t2));
    }

    // with the Remove policy the incumbent wins
    s.add_tag_to_asset(x, t1, TagGroupConflictResolve::Remove).unwrap();
    {
        let a = s.assets.get(x.0).unwrap();
        assert!(!a.tags.contains_id(t1));
        assert!(a.tags.contains_id(t2));
    }
}

#[test]
fn regroup_moves_memberships_on_assets() {
    let mut s = Storage::new_library("lib".to_string());
    let root = s.sp_collections.root;
    let g = s.create_collection("G".to_string(), root).unwrap();
    let t = s.create_tag("t".to_string(), root).unwrap();
    let x = import_one(&mut s, tiny_png(), "png");
    s.add_tag_to_asset(x, t, TagGroupConflictResolve::Override).unwrap();
    assert!(s.assets.get(x.0).unwrap().tags.ungrouped.contains(t.0));

    s.regroup_tag(t, Some(g), TagGroupConflictResolve::Override).unwrap();
    let a = s.assets.get(x.0).unwrap();
    assert!(!a.tags.ungrouped.contains(t.0));
    assert_eq!(a.tags.grouped.get(g.0), Some(&t));
    assert_eq!(s.tags.get(t.0).unwrap().group, Some(g));
}

#[test]
fn renames_change_only_names() {
    let mut s = Storage::new_library("lib".to_string());
    let root = s.sp_collections.root;
    let c = s.create_collection("old".to_string(), root).unwrap();
    let t = s.create_tag("old".to_string(), c).unwrap();
    let x = import_one(&mut s, tiny_png(), "png");

    s.rename_collection(c, "new".to_string()).unwrap();
    s.rename_tag(t, "new".to_string()).unwrap();
    s.rename_asset(x, "new".to_string()).unwrap();

    assert_eq!(s.collections.get(c.0).unwrap().name, "new");
    assert_eq!(s.tags.get(t.0).unwrap().name, "new");
    assert_eq!(s.assets.get(x.0).unwrap().name, "new");
    assert_eq!(s.collections.get(c.0).unwrap().parent, Some(root));

    // unknown identifiers are reported
    assert!(s.rename_asset(AssetId(424242), "x".to_string()).is_err());
    assert!(s.rename_tag(TagId(424242), "x".to_string()).is_err());
}

#[test]
fn delete_tag_detaches_it() {
    let mut s = Storage::new_library("lib".to_string());
    let root = s.sp_collections.root;
    let c = s.create_collection("C".to_string(), root).unwrap();
    let t = s.create_tag("T".to_string(), c).unwrap();
    assert!(s.collections.get(c.0).unwrap().content.contains(t.0));

    s.delete_tag(t).unwrap();
    assert!(s.tags.get(t.0).is_none());
    assert!(!s.collections.get(c.0).unwrap().content.contains(t.0));
    assert!(s.delete_tag(t).is_err());
}

#[test]
fn statistics_count_assets_per_extension() {
    let mut s = Storage::new_library("lib".to_string());
    import_one(&mut s, tiny_png(), "png");
    import_one(&mut s, tiny_png(), "png");
    import_one(&mut s, b"<svg viewBox=\"0 0 4 4\"/>".to_vec(), "svg");

    let stats = s.gen_statistics();
    assert_eq!(stats.total_assets, 3);
    let mut png = 0;
    let mut svg = 0;
    for (ext, count) in &stats.asset_ext {
        if ext == "png" {
            png = *count;
        } else if ext == "svg" {
            svg = *count;
        }
    }
    assert_eq!(png, 2);
    assert_eq!(svg, 1);
}

#[test]
fn recover_assets_reports_reintroduced_duplicates() {
    let mut s = Storage::new_library("lib".to_string());
    let a = import_one(&mut s, tiny_png(), "png");
    let b = import_one(&mut s, tiny_png(), "png");
    let crc = *s.cache.asset_crc.get(a.0).unwrap();

    s.move_asset_to_recycle_bin(a).unwrap();
    let dups = s.recover_assets(&vec![(a, crc)]);
    let group = dups.0.get(crc as u128).expect("recovery reintroduces the duplicate");
    assert!(group.contains(&a) && group.contains(&b));
}

#[test]
fn delete_root_collection_is_illegal() {
    // hard-deleting the root fails and leaves the graph unchanged
    let mut s = Storage::new_library("lib".to_string());
    let root = s.sp_collections.root;
    let c = s.create_collection("C".to_string(), root).unwrap();
    let before = s.collections.len();

    assert!(matches!(
        s.delete_collection(root),
        Err(snowflake::errors::StorageError::IllegalCollectionModification(r)) if r == root
    ));
    assert_eq!(s.collections.len(), before);
    assert!(s.collections.get(root.0).is_some());
    assert!(s.collections.get(c.0).is_some());
}

#[test]
fn delete_collection_removes_subtree_and_tags() {
    let mut s = Storage::new_library("lib".to_string());
    let root = s.sp_collections.root;
    let a = s.create_collection("A".to_string(), root).unwrap();
    let b = s.create_collection("B".to_string(), a).unwrap();
    let keep = s.create_collection("keep".to_string(), root).unwrap();
    let ta = s.create_tag("ta".to_string(), a).unwrap();
    let tb = s.create_tag("tb".to_string(), b).unwrap();
    let tkeep = s.create_tag("tk".to_string(), keep).unwrap();

    s.delete_collection(a).unwrap();

    assert!(s.collections.get(a.0).is_none());
    assert!(s.collections.get(b.0).is_none());
    assert!(s.tags.get(ta.0).is_none());
    assert!(s.tags.get(tb.0).is_none());
    assert!(s.collections.get(keep.0).is_some());
    assert!(s.tags.get(tkeep.0).is_some());
    assert!(!s.collections.get(root.0).unwrap().children.contains(a.0));
    assert!(s.collections.get(root.0).unwrap().children.contains(keep.0));
}

#[test]
fn soft_delete_and_recover_tag() {
    let mut s = Storage::new_library("lib".to_string());
    let root = s.sp_collections.root;
    let c = s.create_collection("C".to_string(), root).unwrap();
    let t = s.create_tag("T".to_string(), c).unwrap();

    s.move_tag_to_recycle_bin(t).unwrap();
    assert!(s.tags.get(t.0).unwrap().is_deleted);
    assert!(s.recycle_bin.tags.contains(t.0));
    assert!(!s.collections.get(c.0).unwrap().content.contains(t.0));

    // recovering the tag under a soft-deleted parent re-links the parent
    s.move_collection_to_recycle_bin(c).unwrap();
    s.recover_tag(t).unwrap();
    assert!(!s.tags.get(t.0).unwrap().is_deleted);
    assert!(!s.collections.get(c.0).unwrap().is_deleted);
    assert!(s.collections.get(c.0).unwrap().content.contains(t.0));
    assert!(s.collections.get(root.0).unwrap().children.contains(c.0));
}

#[test]
fn moving_into_own_subtree_is_refused() {
    // a destination inside the moved subtree would close a cycle
    let mut s = Storage::new_library("lib".to_string());
    let root = s.sp_collections.root;
    let a = s.create_collection("A".to_string(), root).unwrap();
    let b = s.create_collection("B".to_string(), a).unwrap();
    let c = s.create_collection("C".to_string(), b).unwrap();

    assert!(s.move_collection_to(a, c).is_err());
    assert!(s.move_collection_to(a, b).is_err());
    // the graph is unchanged
    assert_eq!(s.collections.get(a.0).unwrap().parent, Some(root));
    assert_eq!(s.collections.get(b.0).unwrap().parent, Some(a));
    // an unrelated move still works
    let d = s.create_collection("D".to_string(), root).unwrap();
    s.move_collection_to(b, d).unwrap();
    assert_eq!(s.collections.get(b.0).unwrap().parent, Some(d));
}

#[test]
fn validation_accepts_consistent_and_refuses_broken_storages() {
    // a freshly built library (with an empty, to-be-rebuilt cache) passes
    let mut good = Storage::new_library("lib".to_string());
    let root = good.sp_collections.root;
    let c = good.create_collection("C".to_string(), root).unwrap();
    let _t = good.create_tag("T".to_string(), c).unwrap();
    good.cache = snowflake::cache::StorageCache::new();
    assert!(good.check_wf());

    // a dangling child link is refused
    let mut broken = Storage::new_library("lib".to_string());
    let root = broken.sp_collections.root;
    let c = broken.create_collection("C".to_string(), root).unwrap();
    let mut stray = snowflake::collection::Collection::new(
        snowflake::ids::CollectionId(424242),
        Some(root),
        None,
        "stray".to_string(),
    );
    stray.children.insert(c.0); // claims someone else's child
    broken.collections.insert(424242, stray);
    assert!(!broken.check_wf());
}
