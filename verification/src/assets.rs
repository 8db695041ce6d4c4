//! Assets: managed media files, their types and type-specific properties.
//!
//! An asset is a raster image, a vector image or a glTF model, classified by
//! file extension.  Property extraction reads the media headers: pixel
//! dimensions for raster images (through `imagesize`), the `viewBox` of an
//! SVG document (through `svg`, with the arithmetic verified here), and
//! triangle/vertex counts of a glTF model (through `gltf`, with the
//! buffer-range merging verified here).

use vstd::prelude::*;
use crate::ids::AssetId;
use crate::meta::Metadata;
use crate::tags::TagContainer;
use crate::text::{str_eq, parse_u32, parse_u32_spec, split_spaces, split_spaces_spec};

verus! {

/// The kind of a managed media file.
#[derive(Clone, Copy, PartialEq, Eq, Structural, Debug)]
pub enum AssetType {
    RasterGraphics,
    VectorGraphics,
    GltfModel,
}

/// The asset type an extension denotes, if any.
pub open spec fn spec_asset_type(e: Seq<char>) -> Option<AssetType> {
    if e == "apng"@ || e == "png"@ || e == "avif"@ || e == "gif"@ || e == "jpg"@
        || e == "jpeg"@ || e == "jfif"@ || e == "pjpeg"@ || e == "pjp"@ || e == "webp"@
        || e == "bmp"@ || e == "ico"@ || e == "cur"@ || e == "tif"@ || e == "tiff"@ {
        Some(AssetType::RasterGraphics)
    } else if e == "svg"@ {
        Some(AssetType::VectorGraphics)
    } else if e == "glb"@ {
        Some(AssetType::GltfModel)
    } else {
        None
    }
}

impl AssetType {
    /// Classifies a file extension; unrecognized extensions yield `None` and
    /// the file is skipped by ingestion.
    pub fn from_ext(ext: &str) -> (r: Option<AssetType>)
        ensures
            r == spec_asset_type(ext@),
    {
        if str_eq(ext, "apng") || str_eq(ext, "png") || str_eq(ext, "avif")
            || str_eq(ext, "gif") || str_eq(ext, "jpg") || str_eq(ext, "jpeg")
            || str_eq(ext, "jfif") || str_eq(ext, "pjpeg") || str_eq(ext, "pjp")
            || str_eq(ext, "webp") || str_eq(ext, "bmp") || str_eq(ext, "ico")
            || str_eq(ext, "cur") || str_eq(ext, "tif") || str_eq(ext, "tiff") {
            Some(AssetType::RasterGraphics)
        } else if str_eq(ext, "svg") {
            Some(AssetType::VectorGraphics)
        } else if str_eq(ext, "glb") {
            Some(AssetType::GltfModel)
        } else {
            None
        }
    }

    /// The name of the storage subfolder holding this type's content files.
    pub open spec fn spec_storage_folder(self) -> Seq<char> {
        match self {
            AssetType::RasterGraphics | AssetType::VectorGraphics => "images"@,
            AssetType::GltfModel => "models"@,
        }
    }

    /// Images (raster and vector) live under `images`, models under
    /// `models`.
    pub fn storage_folder(self) -> (r: &'static str)
        ensures
            r@ == self.spec_storage_folder(),
    {
        match self {
            AssetType::RasterGraphics | AssetType::VectorGraphics => "images",
            AssetType::GltfModel => "models",
        }
    }
}

/// Pixel dimensions of a raster image.
#[derive(Clone, Copy, PartialEq, Eq, Structural, Debug)]
pub struct RasterGraphicsProperty {
    pub width: u32,
    pub height: u32,
}

/// The raster property a dimension pair denotes, truncated to 32 bits.
pub open spec fn spec_raster_props(w: int, h: int) -> RasterGraphicsProperty {
    RasterGraphicsProperty {
        width: (w % 0x1_0000_0000) as u32,
        height: (h % 0x1_0000_0000) as u32,
    }
}

impl RasterGraphicsProperty {
    /// Property from the dimensions a header sniff reported.
    pub fn new(width: usize, height: usize) -> (r: RasterGraphicsProperty)
        ensures
            r == spec_raster_props(width as int, height as int),
    {
        RasterGraphicsProperty {
            width: ((width as u64) % 0x1_0000_0000u64) as u32,
            height: ((height as u64) % 0x1_0000_0000u64) as u32,
        }
    }
}

/// Dimensions parsed from an SVG `viewBox`.
#[derive(Clone, Copy, PartialEq, Eq, Structural, Debug)]
pub struct VectorGraphicsProperty {
    pub width: u32,
    pub height: u32,
}

/// The numbers a `viewBox` attribute value denotes: the values of those
/// space-separated pieces that parse as 32-bit decimals.
pub open spec fn spec_view_box_values(vb: Seq<char>) -> Seq<u32> {
    split_spaces_spec(vb)
        .map_values(|t: Seq<char>| parse_u32_spec(t))
        .filter(|o: Option<u32>| o is Some)
        .map_values(|o: Option<u32>| o->Some_0)
}

/// The dimensions a `viewBox` attribute value denotes: exactly four of its
/// pieces parse, and the borders are ordered.
pub open spec fn spec_view_box_dims(vb: Seq<char>) -> Option<VectorGraphicsProperty> {
    let v = spec_view_box_values(vb);
    if v.len() == 4 && v[0] <= v[2] && v[1] <= v[3] {
        Some(VectorGraphicsProperty {
            width: (v[2] - v[0]) as u32,
            height: (v[3] - v[1]) as u32,
        })
    } else {
        None
    }
}

impl VectorGraphicsProperty {
    /// Parses a `viewBox` attribute value: four space-separated decimal
    /// borders `min-x min-y max-x max-y`; width and height are the border
    /// differences.  Any other shape — more or fewer parsable pieces, or
    /// reversed borders — is rejected.
    pub fn from_view_box(vb: &str) -> (r: Option<VectorGraphicsProperty>)
        ensures
            r == spec_view_box_dims(vb@),
    {
        let toks = split_spaces(vb);
        let mut vals: Vec<u32> = Vec::new();
        let n = toks.len();
        let mut i: usize = 0;
        proof {
            assert(toks@.subrange(0, 0) =~= Seq::<String>::empty());
            assert(toks@.subrange(0, 0).map_values(|t: String| t@)
                =~= Seq::<Seq<char>>::empty());
            lemma_filtered_values(Seq::<Seq<char>>::empty(), vals@);
        }
        while i < n
            invariant
                n == toks@.len(),
                i <= n,
                toks@.map_values(|t: String| t@) == split_spaces_spec(vb@),
                filtered_values(toks@.subrange(0, i as int).map_values(|t: String| t@))
                    == vals@,
            decreases n - i,
        {
            let ghost pre = toks@.subrange(0, i as int).map_values(|t: String| t@);
            let ghost post = toks@.subrange(0, i + 1).map_values(|t: String| t@);
            match parse_u32(&toks[i]) {
                Some(v) => vals.push(v),
                None => {},
            }
            proof {
                assert(post =~= pre.push(toks@[i as int]@));
                lemma_filtered_values_step(pre, toks@[i as int]@);
            }
            i += 1;
        }
        proof {
            assert(toks@.subrange(0, n as int) =~= toks@);
            assert(vals@ == spec_view_box_values(vb@)) by {
                lemma_filtered_values_is_view_box(toks@.map_values(|t: String| t@));
            }
        }
        if vals.len() == 4 && vals[0] <= vals[2] && vals[1] <= vals[3] {
            Some(VectorGraphicsProperty {
                width: vals[2] - vals[0],
                height: vals[3] - vals[1],
            })
        } else {
            None
        }
    }
}

/// The parsable values among a sequence of pieces.
pub open spec fn filtered_values(toks: Seq<Seq<char>>) -> Seq<u32> {
    toks.map_values(|t: Seq<char>| parse_u32_spec(t))
        .filter(|o: Option<u32>| o is Some)
        .map_values(|o: Option<u32>| o->Some_0)
}

/// The empty piece list has no values.
proof fn lemma_filtered_values(toks: Seq<Seq<char>>, vals: Seq<u32>)
    requires
        toks.len() == 0,
        vals.len() == 0,
    ensures
        filtered_values(toks) == vals,
{
    reveal(Seq::filter);
    assert(toks.map_values(|t: Seq<char>| parse_u32_spec(t))
        =~= Seq::<Option<u32>>::empty());
    assert(filtered_values(toks) =~= vals);
}

/// Appending one piece appends its value exactly when it parses.
proof fn lemma_filtered_values_step(toks: Seq<Seq<char>>, t: Seq<char>)
    ensures
        filtered_values(toks.push(t)) == match parse_u32_spec(t) {
            Some(v) => filtered_values(toks).push(v),
            None => filtered_values(toks),
        },
{
    reveal(Seq::filter);
    let m0 = toks.map_values(|q: Seq<char>| parse_u32_spec(q));
    let m1 = toks.push(t).map_values(|q: Seq<char>| parse_u32_spec(q));
    assert(m1 =~= m0.push(parse_u32_spec(t)));
    let pred = |o: Option<u32>| o is Some;
    assert(m1.drop_last() =~= m0);
    assert(m1.filter(pred) == if pred(parse_u32_spec(t)) {
        m0.filter(pred).push(parse_u32_spec(t))
    } else {
        m0.filter(pred)
    });
    match parse_u32_spec(t) {
        Some(v) => {
            assert(filtered_values(toks.push(t))
                =~= filtered_values(toks).push(v));
        },
        None => {
            assert(filtered_values(toks.push(t)) =~= filtered_values(toks));
        },
    }
}

/// `filtered_values` over the split pieces is `spec_view_box_values`.
proof fn lemma_filtered_values_is_view_box(toks: Seq<Seq<char>>)
    ensures
        forall|vb: Seq<char>| split_spaces_spec(vb) == toks
            ==> #[trigger] spec_view_box_values(vb) == filtered_values(toks),
{
}

/// One glTF mesh primitive, reduced to what the statistics need: the number
/// of indices and the byte range of its vertex position buffer view.
#[derive(Clone, Copy, PartialEq, Eq, Structural, Debug)]
pub struct GltfPrimitive {
    pub index_count: u64,
    pub view_offset: u64,
    pub view_length: u64,
}

/// Statistics of a glTF model: triangle count from the index buffers, and a
/// deduplicated vertex count from the merged vertex buffer byte ranges.
#[derive(Clone, Copy, PartialEq, Eq, Structural, Debug)]
pub struct GltfModelProperty {
    pub triangles: u32,
    pub vertices: u32,
}

/// Total triangle count: each primitive contributes a third of its indices.
pub open spec fn tri_sum(prims: Seq<GltfPrimitive>) -> int
    decreases prims.len(),
{
    if prims.len() == 0 {
        0
    } else {
        tri_sum(prims.drop_last()) + prims.last().index_count as int / 3
    }
}

/// Every vertex buffer byte range ends within the 64-bit range.
pub open spec fn ranges_fit(prims: Seq<GltfPrimitive>) -> bool {
    forall|i: int| 0 <= i < prims.len()
        ==> (#[trigger] prims[i]).view_offset + prims[i].view_length <= u64::MAX
}

/// The half-open byte range of each primitive's vertex buffer view.
pub open spec fn spec_ranges(prims: Seq<GltfPrimitive>) -> Seq<(u64, u64)> {
    prims.map_values(|p: GltfPrimitive| (p.view_offset, (p.view_offset + p.view_length) as u64))
}

/// Inserting into a start-sorted range list, keeping it sorted: the new
/// range goes before every range with a strictly larger start.
pub open spec fn insert_sorted(s: Seq<(u64, u64)>, x: (u64, u64)) -> Seq<(u64, u64)>
    decreases s.len(),
{
    if s.len() == 0 {
        seq![x]
    } else if s.last().0 <= x.0 {
        s.push(x)
    } else {
        insert_sorted(s.drop_last(), x).push(s.last())
    }
}

/// Insertion sort of ranges by start.
pub open spec fn sort_ranges_spec(s: Seq<(u64, u64)>) -> Seq<(u64, u64)>
    decreases s.len(),
{
    if s.len() == 0 {
        s
    } else {
        insert_sorted(sort_ranges_spec(s.drop_last()), s.last())
    }
}

/// Merging a start-sorted range list: a range starting within the last
/// merged range extends it (to the larger end), any other range opens a new
/// merged range.
pub open spec fn merge_ranges_spec(s: Seq<(u64, u64)>) -> Seq<(u64, u64)>
    decreases s.len(),
{
    if s.len() == 0 {
        s
    } else {
        let m = merge_ranges_spec(s.drop_last());
        let x = s.last();
        if m.len() == 0 {
            seq![x]
        } else {
            let lastm = m.last();
            if x.0 <= lastm.1 {
                m.update(
                    m.len() - 1,
                    (lastm.0, if x.1 > lastm.1 { x.1 } else { lastm.1 }),
                )
            } else {
                m.push(x)
            }
        }
    }
}

/// The vertex count a range list accounts for: each range holds one vertex
/// per twelve bytes (three 32-bit position coordinates).
pub open spec fn range_span_sum(s: Seq<(u64, u64)>) -> int
    decreases s.len(),
{
    if s.len() == 0 {
        0
    } else {
        range_span_sum(s.drop_last()) + (s.last().1 - s.last().0) / 12
    }
}

/// The vertex count of a primitive list: sort the vertex buffer ranges,
/// merge the overlapping ones, count twelve bytes per vertex.
pub open spec fn spec_vertex_count(prims: Seq<GltfPrimitive>) -> int {
    range_span_sum(merge_ranges_spec(sort_ranges_spec(spec_ranges(prims))))
}

/// Every range is ordered (start at most end).
pub open spec fn ranges_wf(s: Seq<(u64, u64)>) -> bool {
    forall|i: int| 0 <= i < s.len() ==> (#[trigger] s[i]).0 <= s[i].1
}

/// Triangle totals only grow with more primitives.
proof fn lemma_tri_sum_monotone(s: Seq<GltfPrimitive>, i: int)
    requires
        0 <= i <= s.len(),
    ensures
        tri_sum(s.subrange(0, i)) <= tri_sum(s),
        tri_sum(s) >= 0,
    decreases s.len() - i,
{
    if i == s.len() {
        assert(s.subrange(0, i) =~= s);
        lemma_tri_sum_nonneg(s);
    } else {
        lemma_tri_sum_monotone(s, i + 1);
        let q = s.subrange(0, i + 1);
        assert(q.drop_last() =~= s.subrange(0, i));
        lemma_tri_sum_nonneg(s.subrange(0, i));
    }
}

proof fn lemma_tri_sum_nonneg(s: Seq<GltfPrimitive>)
    ensures
        tri_sum(s) >= 0,
    decreases s.len(),
{
    if s.len() > 0 {
        lemma_tri_sum_nonneg(s.drop_last());
    }
}

/// Vertex totals of a well-formed range list only grow with more ranges.
proof fn lemma_span_sum_monotone(s: Seq<(u64, u64)>, i: int)
    requires
        0 <= i <= s.len(),
        ranges_wf(s),
    ensures
        range_span_sum(s.subrange(0, i)) <= range_span_sum(s),
        range_span_sum(s) >= 0,
    decreases s.len() - i,
{
    if i == s.len() {
        assert(s.subrange(0, i) =~= s);
        lemma_span_sum_nonneg(s);
    } else {
        lemma_span_sum_monotone(s, i + 1);
        let q = s.subrange(0, i + 1);
        assert(q.drop_last() =~= s.subrange(0, i));
        assert(ranges_wf(s.subrange(0, i)));
        lemma_span_sum_nonneg(s.subrange(0, i));
    }
}

proof fn lemma_span_sum_nonneg(s: Seq<(u64, u64)>)
    requires
        ranges_wf(s),
    ensures
        range_span_sum(s) >= 0,
    decreases s.len(),
{
    if s.len() > 0 {
        assert(ranges_wf(s.drop_last()));
        lemma_span_sum_nonneg(s.drop_last());
        assert(s[s.len() - 1].0 <= s[s.len() - 1].1);
    }
}

/// Inserting into a well-formed sorted list at the scanned position matches
/// the recursive insertion spec.
proof fn lemma_insert_sorted_at(s: Seq<(u64, u64)>, x: (u64, u64), j: int)
    requires
        0 <= j <= s.len(),
        forall|k: int| j <= k < s.len() ==> (#[trigger] s[k]).0 > x.0,
        j > 0 ==> s[j - 1].0 <= x.0,
    ensures
        insert_sorted(s, x) == s.subrange(0, j).push(x) + s.subrange(j, s.len() as int),
    decreases s.len(),
{
    if s.len() == 0 {
        assert(insert_sorted(s, x) =~= s.subrange(0, j).push(x)
            + s.subrange(j, s.len() as int));
    } else if j == s.len() {
        assert(s.last().0 <= x.0);
        assert(s.subrange(0, j) =~= s);
        assert(insert_sorted(s, x) =~= s.subrange(0, j).push(x)
            + s.subrange(j, s.len() as int));
    } else {
        assert(s[s.len() - 1].0 > x.0);
        let t = s.drop_last();
        assert(forall|k: int| j <= k < t.len() ==> (#[trigger] t[k]).0 > x.0);
        lemma_insert_sorted_at(t, x, j);
        assert(t.subrange(0, j) =~= s.subrange(0, j));
        assert(insert_sorted(s, x) =~= s.subrange(0, j).push(x)
            + s.subrange(j, s.len() as int)) by {
            assert(insert_sorted(s, x)
                == (t.subrange(0, j).push(x) + t.subrange(j, t.len() as int)).push(s.last()));
        }
    }
}

/// Insertion preserves range well-formedness.
proof fn lemma_insert_sorted_wf(s: Seq<(u64, u64)>, x: (u64, u64))
    requires
        ranges_wf(s),
        x.0 <= x.1,
    ensures
        ranges_wf(insert_sorted(s, x)),
        insert_sorted(s, x).len() == s.len() + 1,
    decreases s.len(),
{
    if s.len() == 0 {
    } else if s.last().0 <= x.0 {
    } else {
        assert(ranges_wf(s.drop_last()));
        lemma_insert_sorted_wf(s.drop_last(), x);
    }
}

/// Sorting preserves range well-formedness.
proof fn lemma_sort_ranges_wf(s: Seq<(u64, u64)>)
    requires
        ranges_wf(s),
    ensures
        ranges_wf(sort_ranges_spec(s)),
        sort_ranges_spec(s).len() == s.len(),
    decreases s.len(),
{
    if s.len() > 0 {
        assert(ranges_wf(s.drop_last()));
        lemma_sort_ranges_wf(s.drop_last());
        assert(s.last().0 <= s.last().1);
        lemma_insert_sorted_wf(sort_ranges_spec(s.drop_last()), s.last());
    }
}

/// Merging preserves range well-formedness.
proof fn lemma_merge_ranges_wf(s: Seq<(u64, u64)>)
    requires
        ranges_wf(s),
    ensures
        ranges_wf(merge_ranges_spec(s)),
    decreases s.len(),
{
    if s.len() > 0 {
        assert(ranges_wf(s.drop_last()));
        lemma_merge_ranges_wf(s.drop_last());
        let m = merge_ranges_spec(s.drop_last());
        let x = s.last();
        assert(x.0 <= x.1);
        if m.len() > 0 && x.0 <= m.last().1 {
            let merged = merge_ranges_spec(s);
            assert(m.last().0 <= m.last().1);
            assert forall|i: int| 0 <= i < merged.len()
                implies (#[trigger] merged[i]).0 <= merged[i].1 by {
                if i < merged.len() - 1 {
                    assert(merged[i] == m[i]);
                }
            }
        }
    }
}

/// Inserts `x` into the start-sorted `v`, keeping it sorted.
fn insert_range(v: &mut Vec<(u64, u64)>, x: (u64, u64))
    ensures
        final(v)@ == insert_sorted(old(v)@, x),
{
    let mut j = v.len();
    while j > 0 && v[j - 1].0 > x.0
        invariant
            j <= v@.len(),
            forall|k: int| j <= k < v@.len() ==> (#[trigger] v@[k]).0 > x.0,
            *v == *old(v),
        decreases j,
    {
        j -= 1;
    }
    proof {
        lemma_insert_sorted_at(v@, x, j as int);
    }
    v.insert(j, x);
    proof {
        assert(final(v)@ =~= old(v)@.subrange(0, j as int).push(x)
            + old(v)@.subrange(j as int, old(v)@.len() as int));
    }
}

impl GltfModelProperty {
    /// Computes the model statistics from the primitive records: the
    /// triangle count is a third of the total index count, and the vertex
    /// count comes from sorting the vertex buffer byte ranges by start,
    /// merging the overlapping ones and counting twelve bytes per vertex.
    /// Rejected: an empty primitive list, a byte range beyond the 64-bit
    /// limit, or totals beyond it.
    pub fn from_primitives(prims: &Vec<GltfPrimitive>) -> (r: Option<GltfModelProperty>)
        ensures
            match r {
                Some(p) => {
                    &&& prims@.len() > 0
                    &&& ranges_fit(prims@)
                    &&& tri_sum(prims@) <= u64::MAX
                    &&& spec_vertex_count(prims@) <= u64::MAX
                    &&& p.triangles as int == tri_sum(prims@) % 0x1_0000_0000
                    &&& p.vertices as int == spec_vertex_count(prims@) % 0x1_0000_0000
                },
                None => prims@.len() == 0 || !ranges_fit(prims@)
                    || tri_sum(prims@) > u64::MAX
                    || spec_vertex_count(prims@) > u64::MAX,
            },
    {
        let n = prims.len();
        if n == 0 {
            return None;
        }
        // Triangle total.
        let mut tri: u64 = 0;
        let mut i: usize = 0;
        while i < n
            invariant
                n == prims@.len(),
                i <= n,
                tri as int == tri_sum(prims@.subrange(0, i as int)),
            decreases n - i,
        {
            let inc = prims[i].index_count / 3;
            proof {
                let q = prims@.subrange(0, i + 1);
                assert(q.drop_last() =~= prims@.subrange(0, i as int));
                if tri > u64::MAX - inc {
                    lemma_tri_sum_monotone(prims@, i + 1);
                }
            }
            if tri > u64::MAX - inc {
                return None;
            }
            tri = tri + inc;
            i += 1;
        }
        proof {
            assert(prims@.subrange(0, n as int) =~= prims@);
        }
        // Vertex buffer ranges, checked to fit.
        let mut ranges: Vec<(u64, u64)> = Vec::new();
        let mut i: usize = 0;
        while i < n
            invariant
                n == prims@.len(),
                i <= n,
                forall|k: int| 0 <= k < i
                    ==> (#[trigger] prims@[k]).view_offset + prims@[k].view_length
                        <= u64::MAX,
                ranges@ == spec_ranges(prims@.subrange(0, i as int)),
            decreases n - i,
        {
            let p = prims[i];
            if p.view_length > u64::MAX - p.view_offset {
                return None;
            }
            ranges.push((p.view_offset, p.view_offset + p.view_length));
            proof {
                assert(ranges@ =~= spec_ranges(prims@.subrange(0, i + 1)));
            }
            i += 1;
        }
        proof {
            assert(prims@.subrange(0, n as int) =~= prims@);
        }
        // Sort by range start.
        let mut sorted: Vec<(u64, u64)> = Vec::new();
        let m = ranges.len();
        let mut i: usize = 0;
        while i < m
            invariant
                m == ranges@.len(),
                i <= m,
                sorted@ == sort_ranges_spec(ranges@.subrange(0, i as int)),
            decreases m - i,
        {
            insert_range(&mut sorted, ranges[i]);
            proof {
                let q = ranges@.subrange(0, i + 1);
                assert(q.drop_last() =~= ranges@.subrange(0, i as int));
            }
            i += 1;
        }
        proof {
            assert(ranges@.subrange(0, m as int) =~= ranges@);
            assert(ranges_wf(ranges@)) by {
                assert forall|k: int| 0 <= k < ranges@.len()
                    implies (#[trigger] ranges@[k]).0 <= ranges@[k].1 by {
                    assert(ranges@[k] == spec_ranges(prims@)[k]);
                }
            }
            lemma_sort_ranges_wf(ranges@);
            lemma_merge_ranges_wf(sorted@);
        }
        // Merge overlapping ranges.
        let mut merged: Vec<(u64, u64)> = Vec::new();
        let sn = sorted.len();
        let mut i: usize = 0;
        while i < sn
            invariant
                sn == sorted@.len(),
                i <= sn,
                merged@ == merge_ranges_spec(sorted@.subrange(0, i as int)),
            decreases sn - i,
        {
            let x = sorted[i];
            proof {
                let q = sorted@.subrange(0, i + 1);
                assert(q.drop_last() =~= sorted@.subrange(0, i as int));
                assert(q.last() == sorted@[i as int]);
            }
            let ml = merged.len();
            if ml == 0 {
                merged.push(x);
                proof {
                    assert(merged@ =~= seq![x]);
                }
            } else {
                let last = merged[ml - 1];
                if x.0 <= last.1 {
                    let newend = if x.1 > last.1 { x.1 } else { last.1 };
                    merged[ml - 1] = (last.0, newend);
                } else {
                    merged.push(x);
                }
            }
            i += 1;
        }
        proof {
            assert(sorted@.subrange(0, sn as int) =~= sorted@);
            assert(merged@ == merge_ranges_spec(sort_ranges_spec(spec_ranges(prims@))));
            assert(ranges_wf(merged@)) by {
                lemma_merge_ranges_wf(sorted@);
            }
        }
        // Vertex total over the merged ranges.
        let mut verts: u64 = 0;
        let mn = merged.len();
        let mut i: usize = 0;
        while i < mn
            invariant
                mn == merged@.len(),
                i <= mn,
                ranges_wf(merged@),
                merged@ == merge_ranges_spec(sort_ranges_spec(spec_ranges(prims@))),
                verts as int == range_span_sum(merged@.subrange(0, i as int)),
            decreases mn - i,
        {
            let (s0, e0) = merged[i];
            proof {
                assert(merged@[i as int].0 <= merged@[i as int].1);
                let q = merged@.subrange(0, i + 1);
                assert(q.drop_last() =~= merged@.subrange(0, i as int));
                if verts > u64::MAX - (e0 - s0) / 12 {
                    lemma_span_sum_monotone(merged@, i + 1);
                }
            }
            let inc = (e0 - s0) / 12;
            if verts > u64::MAX - inc {
                return None;
            }
            verts = verts + inc;
            i += 1;
        }
        proof {
            assert(merged@.subrange(0, mn as int) =~= merged@);
        }
        Some(GltfModelProperty {
            triangles: (tri % 0x1_0000_0000) as u32,
            vertices: (verts % 0x1_0000_0000) as u32,
        })
    }
}


/// The property union of an asset, by type.
#[derive(Clone, Copy, PartialEq, Eq, Structural, Debug)]
pub enum AssetProperty {
    RasterGraphics(RasterGraphicsProperty),
    VectorGraphics(VectorGraphicsProperty),
    GltfModel(GltfModelProperty),
}

/// A raw in-memory asset handed to ingestion: content bytes, extension, and
/// provenance (e.g. a source URL).
pub struct RawAsset {
    pub bytes: Vec<u8>,
    pub ext: String,
    pub src: String,
}

/// The 32 lowercase hex digits of a 128-bit identifier value, most
/// significant nibble first.
pub open spec fn spec_id_hex(v: u128) -> Seq<char> {
    Seq::new(32, |i: int| crate::color::hex_char_spec(((v >> (((31 - i) * 4) as u128)) & 0xf) as int))
}

/// Renders an identifier value as 32 lowercase hex digits.
pub fn id_hex_string(v: u128) -> (r: String)
    ensures
        r@ == spec_id_hex(v),
{
    let mut s = String::new();
    let mut i: usize = 0;
    while i < 32
        invariant
            i <= 32,
            s@ == spec_id_hex(v).subrange(0, i as int),
        decreases 32 - i,
    {
        let sh: u128 = ((31 - i) * 4) as u128;
        let d: u128 = (v >> sh) & 0xf;
        proof {
            assert((v >> sh) & 0xf < 16) by (bit_vector);
        }
        s.append(crate::color::hex_char_str(d as u8));
        proof {
            assert(s@ =~= spec_id_hex(v).subrange(0, i + 1));
        }
        i += 1;
    }
    proof {
        assert(spec_id_hex(v).subrange(0, 32) =~= spec_id_hex(v));
    }
    s
}

/// A managed media file with its extracted properties and tag memberships.
pub struct Asset {
    pub is_deleted: bool,
    pub id: AssetId,
    pub name: String,
    pub ty: AssetType,
    pub ext: String,
    pub props: AssetProperty,
    pub meta: Metadata,
    pub tags: TagContainer,
    pub src: String,
}

/// The name of an asset's content file: its identifier in hex, dot,
/// extension — or the bare identifier for an extensionless asset.
pub open spec fn spec_file_name(id: AssetId, ext: Seq<char>) -> Seq<char> {
    if ext.len() == 0 {
        spec_id_hex(id.0)
    } else {
        spec_id_hex(id.0) + "."@ + ext
    }
}

impl Asset {
    /// The tag container is well-formed.
    pub open spec fn wf(self) -> bool {
        self.tags.wf()
    }

    /// A fresh, live, untagged asset.  The identifier is chosen by the
    /// caller (ingestion draws a fresh random one).
    pub fn new(
        id: AssetId,
        name: String,
        ext: String,
        meta: Metadata,
        ty: AssetType,
        props: AssetProperty,
        src: String,
    ) -> (r: Asset)
        ensures
            r.wf(),
            r.id == id,
            r.name == name,
            r.ext == ext,
            r.meta == meta,
            r.ty == ty,
            r.props == props,
            r.src == src,
            !r.is_deleted,
            r.tags.grouped@ == Map::<u128, crate::ids::TagId>::empty(),
            r.tags.ungrouped@ == Set::<u128>::empty(),
    {
        Asset {
            is_deleted: false,
            id,
            name,
            ty,
            ext,
            props,
            meta,
            tags: TagContainer::new(),
            src,
        }
    }

    /// The display file name: the logical name, dot, extension.
    pub fn gen_file_name(&self) -> (r: String)
        ensures
            self.ext@.len() == 0 ==> r@ == self.name@,
            self.ext@.len() != 0 ==> r@ == self.name@ + "."@ + self.ext@,
    {
        if self.ext.as_str().is_empty() {
            let mut s = String::new();
            s.append(self.name.as_str());
            s
        } else {
            let mut s = String::new();
            s.append(self.name.as_str());
            s.append(".");
            s.append(self.ext.as_str());
            s
        }
    }

    /// The on-disk content file name, derived from the identifier and never
    /// from the user-editable name.  The identifier renders as 32 plain hex
    /// digits (no hyphen grouping).
    pub fn get_file_name(&self) -> (r: String)
        ensures
            r@ == spec_file_name(self.id, self.ext@),
    {
        let mut s = id_hex_string(self.id.0);
        if !self.ext.as_str().is_empty() {
            s.append(".");
            s.append(self.ext.as_str());
        }
        s
    }
}

/// What `imagesize` reads from a raster header: the pixel dimensions.  The
/// result depends on the bytes alone.
pub uninterp spec fn image_dims_of(b: Seq<u8>) -> Option<(usize, usize)>;

/// Relies on `imagesize::blob_size`: the pixel dimensions sniffed from the
/// image header bytes, or `None` for an unrecognized header.
#[verifier::external_body]
pub(crate) fn image_blob_size(bytes: &[u8]) -> (r: Option<(usize, usize)>)
    ensures
        r == image_dims_of(bytes@),
{
    imagesize::blob_size(bytes).ok().map(|s| (s.width, s.height))
}

/// What the `svg` event parser yields for an attribute lookup: the value of
/// the named attribute on the first tag carrying it.  The result depends on
/// the document text and the attribute name alone.
pub uninterp spec fn svg_attr_of(content: Seq<char>, name: Seq<char>) -> Option<Seq<char>>;

/// Relies on `svg::read` and its event iterator: scans the document's tags
/// for the first occurrence of attribute `name` and hands its value out.
#[verifier::external_body]
pub(crate) fn svg_find_attr(content: &str, name: &str) -> (r: Option<String>)
    ensures
        match r {
            Some(v) => svg_attr_of(content@, name@) == Some(v@),
            None => svg_attr_of(content@, name@) is None,
        },
{
    let parser = match svg::read(content) {
        Ok(p) => p,
        Err(_) => return None,
    };
    for ev in parser {
        if let svg::parser::Event::Tag(_, _, attrs) = ev {
            if let Some(v) = attrs.get(name) {
                return Some(v.to_string());
            }
        }
    }
    None
}

/// What `gltf` reads from a binary model: per mesh primitive, the index
/// count and the byte range of the vertex position buffer view.  The result
/// depends on the bytes alone.
pub uninterp spec fn gltf_primitives_of(b: Seq<u8>) -> Option<Seq<(u64, u64, u64)>>;

/// A primitive record as a plain triple.
pub open spec fn prim_triples(pv: Seq<GltfPrimitive>) -> Seq<(u64, u64, u64)> {
    pv.map_values(|p: GltfPrimitive| (p.index_count, p.view_offset, p.view_length))
}

/// The primitive records a triple sequence denotes.
pub open spec fn prims_of_triples(ts: Seq<(u64, u64, u64)>) -> Seq<GltfPrimitive> {
    ts.map_values(
        |t: (u64, u64, u64)| GltfPrimitive {
            index_count: t.0,
            view_offset: t.1,
            view_length: t.2,
        },
    )
}

/// Projecting to triples and back is the identity.
pub proof fn lemma_prims_triples_inverse(pv: Seq<GltfPrimitive>)
    ensures
        prims_of_triples(prim_triples(pv)) =~= pv,
{
    assert forall|i: int| 0 <= i < pv.len()
        implies #[trigger] prims_of_triples(prim_triples(pv))[i] == pv[i] by {
        assert(prim_triples(pv)[i]
            == (pv[i].index_count, pv[i].view_offset, pv[i].view_length));
    }
}

/// The model statistics a byte buffer denotes, through the named glTF
/// reading: `None` when the model does not parse, has no primitives, or
/// overflows the totals.
pub open spec fn spec_gltf_props(b: Seq<u8>) -> Option<GltfModelProperty> {
    match gltf_primitives_of(b) {
        Some(ts) => {
            let pv = prims_of_triples(ts);
            if pv.len() > 0 && ranges_fit(pv) && tri_sum(pv) <= u64::MAX
                && spec_vertex_count(pv) <= u64::MAX {
                Some(GltfModelProperty {
                    triangles: (tri_sum(pv) % 0x1_0000_0000) as u32,
                    vertices: (spec_vertex_count(pv) % 0x1_0000_0000) as u32,
                })
            } else {
                None
            }
        },
        None => None,
    }
}

/// Relies on `gltf::Gltf::from_slice` and the mesh/accessor getters: one
/// record per primitive, `None` when the model does not parse or a
/// primitive lacks indices, positions or a buffer view.
#[verifier::external_body]
pub(crate) fn gltf_read_primitives(bytes: &[u8]) -> (r: Option<Vec<GltfPrimitive>>)
    ensures
        match r {
            Some(v) => gltf_primitives_of(bytes@) == Some(prim_triples(v@)),
            None => gltf_primitives_of(bytes@) is None,
        },
{
    let model = gltf::Gltf::from_slice(bytes).ok()?;
    let mut out = Vec::new();
    for mesh in model.meshes() {
        for prim in mesh.primitives() {
            let indices = prim.indices()?;
            let view = prim.get(&gltf::Semantic::Positions)?.view()?;
            let rec = GltfPrimitive {
                index_count: indices.count() as u64,
                view_offset: view.offset() as u64,
                view_length: view.length() as u64,
            };
            out.push(rec);
        }
    }
    Some(out)
}

/// Relies on `String::from_utf8`: succeeds exactly on valid UTF-8 and
/// decodes it.
#[verifier::external_body]
pub(crate) fn string_from_utf8(bytes: &[u8]) -> (r: Option<String>)
    ensures
        match r {
            Some(s) => vstd::utf8::valid_utf8(bytes@)
                && s@ == vstd::utf8::decode_utf8(bytes@),
            None => !vstd::utf8::valid_utf8(bytes@),
        },
{
    String::from_utf8(bytes.to_vec()).ok()
}

/// The vector property a byte buffer denotes: decode it as UTF-8, find the
/// first `viewBox` attribute, parse its four borders.
pub open spec fn spec_vector_props(b: Seq<u8>) -> Option<VectorGraphicsProperty> {
    if !vstd::utf8::valid_utf8(b) {
        None
    } else {
        match svg_attr_of(vstd::utf8::decode_utf8(b), "viewBox"@) {
            Some(vb) => spec_view_box_dims(vb),
            None => None,
        }
    }
}

impl VectorGraphicsProperty {
    /// Reads the dimensions of an SVG document from its bytes: the document
    /// must be UTF-8, carry a `viewBox` attribute, and that attribute must
    /// hold four ordered decimal borders.
    pub fn new(content: &[u8]) -> (r: Option<VectorGraphicsProperty>)
        ensures
            r == spec_vector_props(content@),
    {
        let ghost b = content@;
        let text = match string_from_utf8(content) {
            Some(t) => t,
            None => {
                return None;
            },
        };
        let vb = match svg_find_attr(text.as_str(), "viewBox") {
            Some(v) => v,
            None => {
                return None;
            },
        };
        VectorGraphicsProperty::from_view_box(vb.as_str())
    }
}

impl GltfModelProperty {
    /// Reads the statistics of a binary glTF model from its bytes: the model
    /// must parse, every primitive must carry indices and a positioned
    /// buffer view, and the totals must fit.
    pub fn new(content: &[u8]) -> (r: Option<GltfModelProperty>)
        ensures
            r == spec_gltf_props(content@),
    {
        let prims = match gltf_read_primitives(content) {
            Some(v) => v,
            None => {
                return None;
            },
        };
        let r = GltfModelProperty::from_primitives(&prims);
        proof {
            lemma_prims_triples_inverse(prims@);
            assert(prims_of_triples(gltf_primitives_of(content@)->Some_0) == prims@);
        }
        r
    }
}


/// How ingestion classifies one raw buffer: the asset type its extension
/// denotes, with the type-specific properties read from the bytes; `None`
/// (skip the file) for an unrecognized extension or unparsable content.
pub open spec fn spec_classify(ext: Seq<char>, b: Seq<u8>) -> Option<(AssetType, AssetProperty)> {
    match spec_asset_type(ext) {
        Some(AssetType::RasterGraphics) => match image_dims_of(b) {
            Some(d) => Some(
                (
                    AssetType::RasterGraphics,
                    AssetProperty::RasterGraphics(spec_raster_props(d.0 as int, d.1 as int)),
                ),
            ),
            None => None,
        },
        Some(AssetType::VectorGraphics) => match spec_vector_props(b) {
            Some(p) => Some((AssetType::VectorGraphics, AssetProperty::VectorGraphics(p))),
            None => None,
        },
        Some(AssetType::GltfModel) => match spec_gltf_props(b) {
            Some(p) => Some((AssetType::GltfModel, AssetProperty::GltfModel(p))),
            None => None,
        },
        None => None,
    }
}

/// Classifies one raw buffer, extracting the type-specific properties.
pub fn classify(ext: &str, bytes: &[u8]) -> (r: Option<(AssetType, AssetProperty)>)
    ensures
        r == spec_classify(ext@, bytes@),
{
    match AssetType::from_ext(ext) {
        Some(AssetType::RasterGraphics) => match image_blob_size(bytes) {
            Some((w, h)) => Some(
                (
                    AssetType::RasterGraphics,
                    AssetProperty::RasterGraphics(RasterGraphicsProperty::new(w, h)),
                ),
            ),
            None => None,
        },
        Some(AssetType::VectorGraphics) => match VectorGraphicsProperty::new(bytes) {
            Some(p) => Some((AssetType::VectorGraphics, AssetProperty::VectorGraphics(p))),
            None => None,
        },
        Some(AssetType::GltfModel) => match GltfModelProperty::new(bytes) {
            Some(p) => Some((AssetType::GltfModel, AssetProperty::GltfModel(p))),
            None => None,
        },
        None => None,
    }
}

} // verus!
