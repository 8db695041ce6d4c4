use snowflake::assets::{
    classify, id_hex_string, AssetType, GltfModelProperty, GltfPrimitive,
    VectorGraphicsProperty,
};

#[test]
fn extension_classification() {
    assert_eq!(AssetType::from_ext("png"), Some(AssetType::RasterGraphics));
    assert_eq!(AssetType::from_ext("webp"), Some(AssetType::RasterGraphics));
    assert_eq!(AssetType::from_ext("tiff"), Some(AssetType::RasterGraphics));
    assert_eq!(AssetType::from_ext("svg"), Some(AssetType::VectorGraphics));
    assert_eq!(AssetType::from_ext("glb"), Some(AssetType::GltfModel));
    assert_eq!(AssetType::from_ext("txt"), None);
    assert_eq!(AssetType::from_ext("PNG"), None);
    assert_eq!(AssetType::from_ext(""), None);
}

#[test]
fn storage_folders() {
    assert_eq!(AssetType::RasterGraphics.storage_folder(), "images");
    assert_eq!(AssetType::VectorGraphics.storage_folder(), "images");
    assert_eq!(AssetType::GltfModel.storage_folder(), "models");
}

#[test]
fn view_box_parsing() {
    let p = VectorGraphicsProperty::from_view_box("0 0 100 50").unwrap();
    assert_eq!(p.width, 100);
    assert_eq!(p.height, 50);

    let p = VectorGraphicsProperty::from_view_box("5 10 15 40").unwrap();
    assert_eq!(p.width, 10);
    assert_eq!(p.height, 30);

    // unparsable pieces drop out, leaving too few
    assert!(VectorGraphicsProperty::from_view_box("0 0 100").is_none());
    assert!(VectorGraphicsProperty::from_view_box("0 0 100 50 9").is_none());
    assert!(VectorGraphicsProperty::from_view_box("0 0 1e2 50").is_none());
    assert!(VectorGraphicsProperty::from_view_box("").is_none());
    // reversed borders are rejected
    assert!(VectorGraphicsProperty::from_view_box("100 0 0 50").is_none());
}

#[test]
fn gltf_statistics_from_primitives() {
    // two primitives with overlapping vertex buffer ranges: 0..24 and
    // 12..36 merge into 0..36, three bytes-per-float * 3 floats = 12 bytes
    // per vertex
    let prims = vec![
        GltfPrimitive { index_count: 9, view_offset: 0, view_length: 24 },
        GltfPrimitive { index_count: 6, view_offset: 12, view_length: 24 },
    ];
    let p = GltfModelProperty::from_primitives(&prims).unwrap();
    assert_eq!(p.triangles, 3 + 2);
    assert_eq!(p.vertices, 3);

    // disjoint ranges are counted separately
    let prims = vec![
        GltfPrimitive { index_count: 3, view_offset: 0, view_length: 12 },
        GltfPrimitive { index_count: 3, view_offset: 100, view_length: 24 },
    ];
    let p = GltfModelProperty::from_primitives(&prims).unwrap();
    assert_eq!(p.triangles, 2);
    assert_eq!(p.vertices, 3);

    // order does not matter
    let prims = vec![
        GltfPrimitive { index_count: 3, view_offset: 100, view_length: 24 },
        GltfPrimitive { index_count: 3, view_offset: 0, view_length: 12 },
    ];
    let p = GltfModelProperty::from_primitives(&prims).unwrap();
    assert_eq!(p.vertices, 3);

    assert!(GltfModelProperty::from_primitives(&vec![]).is_none());
}

#[test]
fn gltf_bytes_must_parse() {
    assert!(GltfModelProperty::new(&[1, 2, 3, 4]).is_none());
}

#[test]
fn classify_rejects_mismatched_content() {
    assert!(classify("png", &[0, 1, 2]).is_none());
    assert!(classify("svg", b"not xml at all").is_none());
    assert!(classify("bogus", &[]).is_none());
}

#[test]
fn identifier_hex_rendering() {
    assert_eq!(id_hex_string(0), "00000000000000000000000000000000");
    assert_eq!(
        id_hex_string(0xdeadbeef),
        "000000000000000000000000deadbeef"
    );
    assert_eq!(
        id_hex_string(u128::MAX),
        "ffffffffffffffffffffffffffffffff"
    );
}
