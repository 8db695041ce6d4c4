use snowflake::cache::StorageCache;
use snowflake::ids::AssetId;

#[test]
fn checksum_invariant_add_and_remove() {
    let mut cache = StorageCache::new();
    let a = AssetId(1);
    let b = AssetId(2);

    assert!(cache.add_asset(0xdead, a).is_none());
    let bucket = cache.crc_lookup.get(0xdead).unwrap();
    assert!(bucket.contains(&a));

    // a second asset with the same checksum is a duplicate of the first:
    // the report names the members that already shared the checksum
    let dup = cache.add_asset(0xdead, b).unwrap();
    let group = dup.0.get(0xdead).unwrap();
    assert_eq!(group, &vec![a]);
    // the bucket itself now holds both
    let bucket = cache.crc_lookup.get(0xdead).unwrap();
    assert!(bucket.contains(&a) && bucket.contains(&b));

    // removing one asset leaves the other in the bucket
    cache.remove_asset(a);
    let bucket = cache.crc_lookup.get(0xdead).unwrap();
    assert!(!bucket.contains(&a));
    assert!(bucket.contains(&b));

    // removing the last sharer drops the checksum key entirely
    cache.remove_asset(b);
    assert!(cache.crc_lookup.get(0xdead).is_none());
    assert!(cache.asset_crc.get(1).is_none());
    assert!(cache.asset_crc.get(2).is_none());
}

#[test]
fn changing_a_checksum_moves_the_asset() {
    let mut cache = StorageCache::new();
    let a = AssetId(7);
    cache.add_asset(10, a);
    cache.add_asset(20, a);
    assert!(cache.crc_lookup.get(10).is_none());
    assert!(cache.crc_lookup.get(20).unwrap().contains(&a));
    assert_eq!(*cache.asset_crc.get(7).unwrap(), 20);
}

#[test]
fn duplicate_reports() {
    let mut cache = StorageCache::new();
    cache.add_asset(1, AssetId(10));
    cache.add_asset(1, AssetId(11));
    cache.add_asset(2, AssetId(12));

    let all = cache.get_all_duplication();
    assert!(all.get(1).is_some());
    assert!(all.get(2).is_none());

    let some = cache.get_duplications(&vec![2u32]);
    assert!(some.get(1).is_none());
    assert!(some.get(2).is_none());

    let some = cache.get_duplications(&vec![1u32, 2u32]);
    let group = some.get(1).unwrap();
    assert_eq!(group.len(), 2);
}

#[test]
fn build_inverts_the_checksum_map() {
    let mut m = snowflake::idmap::UMap::new();
    m.insert(100, 5u32);
    m.insert(101, 5u32);
    m.insert(102, 6u32);
    let cache = StorageCache::build(&m);
    let bucket = cache.crc_lookup.get(5).unwrap();
    assert!(bucket.contains(&AssetId(100)) && bucket.contains(&AssetId(101)));
    assert_eq!(cache.crc_lookup.get(6).unwrap().len(), 1);
    assert_eq!(*cache.asset_crc.get(102).unwrap(), 6);
}
