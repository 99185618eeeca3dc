//! What is inside tiles, as the inspector shows it.
//!
//! Reading a tile and decoding it is the tile library's work; what is decided here is how a
//! decoded tile is summarised: which geometry a layer is drawn as, and the order layers are listed
//! in.

use vstd::prelude::*;
use crate::text::owned;
use crate::vpl::ast::texts;

verus! {

/// One layer of one tile.
#[derive(Debug, Clone)]
pub struct LayerInspection {
    pub name: String,
    pub feature_count: usize,
    /// What the layer costs, encoded on its own.
    pub encoded_bytes: usize,
    pub property_keys: Vec<String>,
    /// `polygon`, `line`, `point`, or `unknown`.
    pub geometry: String,
}

/// One tile, layer by layer.
#[derive(Debug, Clone)]
pub struct TileInspection {
    pub z: u8,
    pub x: u32,
    pub y: u32,
    /// What the tile costs as stored.
    pub stored_bytes: usize,
    /// Largest first.
    pub layers: Vec<LayerInspection>,
}

/// Whether one transform can be appended to what a node produces, and why not when it cannot.
#[derive(Debug, Clone, PartialEq, Eq)]
pub struct Fit {
    /// The operation, as it would be written in VPL.
    pub name: String,
    /// Why it does not fit, or `None` when nothing rules it out.
    pub reason: Option<String>,
}

/// The geometry most of a layer's features are, from how many are polygons, lines and points.
///
/// Ties go to the more specific: a layer split evenly between lines and polygons is drawn as
/// polygons, because a polygon drawn as a line still shows its outline while a line drawn as a
/// polygon shows nothing at all. A layer with none of the three is `unknown`.
pub open spec fn commonest_spec(polygons: nat, lines: nat, points: nat) -> Seq<char> {
    if polygons == 0 && lines == 0 && points == 0 {
        "unknown"@
    } else if polygons >= lines && polygons >= points {
        "polygon"@
    } else if lines >= points {
        "line"@
    } else {
        "point"@
    }
}

/// The geometry most of a layer's features are; see [`commonest_spec`].
pub fn commonest_geometry(polygons: usize, lines: usize, points: usize) -> (r: String)
    ensures
        r@ == commonest_spec(polygons as nat, lines as nat, points as nat),
{
    if polygons == 0 && lines == 0 && points == 0 {
        owned("unknown")
    } else if polygons >= lines && polygons >= points {
        owned("polygon")
    } else if lines >= points {
        owned("line")
    } else {
        owned("point")
    }
}

pub ghost struct LayerM {
    pub name: Seq<char>,
    pub feature_count: usize,
    pub encoded_bytes: usize,
    pub property_keys: Seq<Seq<char>>,
    pub geometry: Seq<char>,
}

pub open spec fn layer_model(l: LayerInspection) -> LayerM {
    LayerM {
        name: l.name@,
        feature_count: l.feature_count,
        encoded_bytes: l.encoded_bytes,
        property_keys: texts(l.property_keys@),
        geometry: l.geometry@,
    }
}

pub open spec fn layers_model(v: Seq<LayerInspection>) -> Seq<LayerM> {
    v.map_values(|l: LayerInspection| layer_model(l))
}

/// `layers` with the largest first, layers of one size kept in the order they came.
pub open spec fn largest_first(layers: Seq<LayerM>) -> Seq<LayerM>
    decreases layers.len(),
{
    if layers.len() == 0 {
        seq![]
    } else {
        settle(largest_first(layers.drop_last()), layers.last())
    }
}

/// `l` placed into the sorted `sorted`: after every layer at least its size.
pub open spec fn settle(sorted: Seq<LayerM>, l: LayerM) -> Seq<LayerM>
    decreases sorted.len(),
{
    if sorted.len() == 0 {
        seq![l]
    } else if sorted.last().encoded_bytes >= l.encoded_bytes {
        sorted.push(l)
    } else {
        settle(sorted.drop_last(), l).push(sorted.last())
    }
}

proof fn lemma_settle(s: Seq<LayerM>, l: LayerM, k: int)
    requires
        0 <= k <= s.len(),
        k == s.len() || s[k].encoded_bytes < l.encoded_bytes,
        forall|m: int| k <= m < s.len() ==> s[m].encoded_bytes < l.encoded_bytes,
        k == 0 || s[k - 1].encoded_bytes >= l.encoded_bytes,
    ensures
        settle(s, l) == s.take(k).push(l) + s.skip(k),
    decreases s.len(),
{
    if s.len() == 0 {
        assert(s.take(k).push(l) + s.skip(k) =~= seq![l]);
    } else if k == s.len() {
        assert(s.take(k) =~= s);
        assert(s.skip(k) =~= Seq::<LayerM>::empty());
        assert(s.take(k).push(l) + s.skip(k) =~= s.push(l));
    } else {
        lemma_settle(s.drop_last(), l, k);
        assert(s.drop_last().take(k) =~= s.take(k));
        assert(s.drop_last().take(k).push(l) + s.drop_last().skip(k) + seq![s.last()] =~= s.take(k).push(l) + s.skip(k));
        assert((s.drop_last().take(k).push(l) + s.drop_last().skip(k)).push(s.last()) =~= s.take(k).push(l) + s.skip(k));
    }
}

/// The layers, largest first; layers of one size keep the order they came in.
pub fn largest_first_order(layers: Vec<LayerInspection>) -> (r: Vec<LayerInspection>)
    ensures
        layers_model(r@) == largest_first(layers_model(layers@)),
{
    let ghost all = layers_model(layers@);
    let mut out: Vec<LayerInspection> = Vec::new();
    let mut taken: usize = 0;
    let count = layers.len();
    let ghost n = all.len();
    assert(n == count);
    let mut rest = layers;
    while rest.len() > 0
        invariant
            taken + rest@.len() == n,
            n == all.len(),
            n <= usize::MAX,
            layers_model(rest@) == all.skip(taken as int),
            layers_model(out@) == largest_first(all.take(taken as int)),
        decreases rest@.len(),
    {
        let ghost whole = rest@;
        let layer = rest.remove(0);
        proof {
            assert(layers_model(rest@) =~= layers_model(whole).drop_first());
            assert(all.skip(taken as int).drop_first() =~= all.skip(taken as int + 1));
            assert(all.take(taken as int + 1).drop_last() =~= all.take(taken as int));
            assert(all.take(taken as int + 1).last() == layers_model(whole)[0]);
        }
        let ghost before = layers_model(out@);
        let ghost lm = layer_model(layer);
        let mut k: usize = out.len();
        while k > 0 && out[k - 1].encoded_bytes < layer.encoded_bytes
            invariant
                k <= out@.len(),
                before == layers_model(out@),
                forall|m: int| k <= m < out@.len() ==> (#[trigger] before[m]).encoded_bytes < layer.encoded_bytes,
            decreases k,
        {
            proof {
                assert(before[k - 1].encoded_bytes == out@[k - 1].encoded_bytes);
            }
            k = k - 1;
        }
        proof {
            if k > 0 {
                assert(before[k - 1].encoded_bytes == out@[k - 1].encoded_bytes);
            }
            lemma_settle(before, lm, k as int);
        }
        out.insert(k, layer);
        proof {
            assert(layers_model(out@) =~= before.take(k as int).push(lm) + before.skip(k as int));
        }
        taken = taken + 1;
    }
    proof {
        assert(all.take(taken as int) =~= all);
    }
    out
}


/// What decoding a vector tile says of one of its layers: its name, its features' geometry types
/// as the tile encodes them (`1` point, `2` line, `3` polygon), its size encoded on its own, and its
/// property keys.
#[derive(Debug, Clone)]
pub struct LayerFacts {
    pub name: String,
    pub geometry_types: Vec<u8>,
    pub encoded_bytes: usize,
    pub property_keys: Vec<String>,
}

pub ghost struct LayerFactsM {
    pub name: Seq<char>,
    pub geometry_types: Seq<u8>,
    pub encoded_bytes: usize,
    pub property_keys: Seq<Seq<char>>,
}

impl View for LayerFacts {
    type V = LayerFactsM;

    open spec fn view(&self) -> LayerFactsM {
        LayerFactsM {
            name: self.name@,
            geometry_types: self.geometry_types@,
            encoded_bytes: self.encoded_bytes,
            property_keys: texts(self.property_keys@),
        }
    }
}

pub open spec fn facts_model(v: Seq<LayerFacts>) -> Seq<LayerFactsM> {
    v.map_values(|f: LayerFacts| f@)
}

/// The layers `versatiles_geometry` decodes from the uncompressed tile `blob`, or `None` when
/// `blob` is no vector tile.
pub uninterp spec fn decoded_layers(blob: Seq<u8>) -> Option<Seq<LayerFactsM>>;

/// `VectorTile::from_blob`, then for each layer its name, its features' `geom_type`, the length of
/// `VectorTileLayer::to_blob` (0 where that fails) and `PropertyManager::iter_key`. Decoding
/// depends on the bytes alone, so the answer is named rather than stated.
#[verifier::external_body]
fn decode_layers(blob: &Vec<u8>) -> (r: Option<Vec<LayerFacts>>)
    ensures
        match r {
            Some(v) => decoded_layers(blob@) == Some(facts_model(v@)),
            None => decoded_layers(blob@) is None,
        },
{
    let tile = versatiles_geometry::vector_tile::VectorTile::from_blob(&versatiles_core::Blob::from(blob.clone())).ok()?;
    Some(tile.layers.iter().map(|layer| LayerFacts {
        name: layer.name.clone(),
        geometry_types: layer.features.iter().map(|f| f.geom_type as u8).collect(),
        encoded_bytes: layer.to_blob().map(|b| b.len() as usize).unwrap_or(0),
        property_keys: layer.property_manager.iter_key().cloned().collect(),
    }).collect())
}

/// How many of `types` are `t`.
pub open spec fn count_of(types: Seq<u8>, t: u8) -> nat
    decreases types.len(),
{
    if types.len() == 0 {
        0
    } else {
        count_of(types.drop_last(), t) + if types.last() == t { 1nat } else { 0nat }
    }
}

/// What the inspector shows of a decoded layer: its feature count, and the geometry most of its
/// features are.
pub open spec fn layer_of(f: LayerFactsM) -> LayerM {
    LayerM {
        name: f.name,
        feature_count: f.geometry_types.len() as usize,
        encoded_bytes: f.encoded_bytes,
        property_keys: f.property_keys,
        geometry: commonest_spec(count_of(f.geometry_types, 3), count_of(f.geometry_types, 2), count_of(f.geometry_types, 1)),
    }
}

proof fn lemma_all_of_one_type(types: Seq<u8>, t: u8, other: u8)
    requires
        forall|i: int| 0 <= i < types.len() ==> types[i] == t,
        other != t,
    ensures
        count_of(types, t) == types.len(),
        count_of(types, other) == 0,
    decreases types.len(),
{
    if types.len() > 0 {
        lemma_all_of_one_type(types.drop_last(), t, other);
    }
}

/// The geometry a decoded layer is shown as is the one most of its features have, counting the
/// vector-tile geometry types as they are numbered: `3` polygon, `2` line, `1` point (a tie goes to
/// polygon, then line). A layer of polygons alone is shown as `polygon`, of points alone as `point`,
/// of lines alone as `line`; with none of the three it is `unknown`.
pub proof fn lemma_layer_geometry(f: LayerFactsM)
    ensures
        ({
            let t = f.geometry_types;
            let polygons = count_of(t, 3);
            let lines = count_of(t, 2);
            let points = count_of(t, 1);
            let g = layer_of(f).geometry;
            &&& g == "polygon"@ <==> polygons > 0 && polygons >= lines && polygons >= points
            &&& g == "line"@ <==> lines > 0 && lines > polygons && lines >= points
            &&& g == "point"@ <==> points > 0 && points > polygons && points > lines
            &&& g == "unknown"@ <==> polygons == 0 && lines == 0 && points == 0
        }),
        f.geometry_types.len() > 0 && (forall|i: int| 0 <= i < f.geometry_types.len() ==> f.geometry_types[i] == 3u8)
            ==> layer_of(f).geometry == "polygon"@,
        f.geometry_types.len() > 0 && (forall|i: int| 0 <= i < f.geometry_types.len() ==> f.geometry_types[i] == 2u8)
            ==> layer_of(f).geometry == "line"@,
        f.geometry_types.len() > 0 && (forall|i: int| 0 <= i < f.geometry_types.len() ==> f.geometry_types[i] == 1u8)
            ==> layer_of(f).geometry == "point"@,
{
    reveal_strlit("polygon");
    reveal_strlit("line");
    reveal_strlit("point");
    reveal_strlit("unknown");
    assert("polygon"@.len() != "line"@.len() && "polygon"@.len() != "point"@.len() && "line"@.len() != "point"@.len());
    assert("unknown"@[0] != "polygon"@[0] && "unknown"@.len() != "line"@.len() && "unknown"@.len() != "point"@.len());
    let t = f.geometry_types;
    if t.len() > 0 {
        if forall|i: int| 0 <= i < t.len() ==> t[i] == 3u8 {
            lemma_all_of_one_type(t, 3, 2);
            lemma_all_of_one_type(t, 3, 1);
        }
        if forall|i: int| 0 <= i < t.len() ==> t[i] == 2u8 {
            lemma_all_of_one_type(t, 2, 3);
            lemma_all_of_one_type(t, 2, 1);
        }
        if forall|i: int| 0 <= i < t.len() ==> t[i] == 1u8 {
            lemma_all_of_one_type(t, 1, 3);
            lemma_all_of_one_type(t, 1, 2);
        }
    }
}

pub open spec fn layers_of(fs: Seq<LayerFactsM>) -> Seq<LayerM> {
    fs.map_values(|f: LayerFactsM| layer_of(f))
}

/// One decoded layer as the inspector shows it; see [`layer_of`].
pub fn layer_from(f: &LayerFacts) -> (r: LayerInspection)
    ensures
        layer_model(r) == layer_of(f@),
{
    let mut polygons: usize = 0;
    let mut lines: usize = 0;
    let mut points: usize = 0;
    let mut i: usize = 0;
    let ghost t = f.geometry_types@;
    while i < f.geometry_types.len()
        invariant
            i <= t.len(),
            t == f.geometry_types@,
            polygons == count_of(t.take(i as int), 3),
            lines == count_of(t.take(i as int), 2),
            points == count_of(t.take(i as int), 1),
            polygons <= i && lines <= i && points <= i,
        decreases t.len() - i,
    {
        proof {
            assert(t.take(i as int + 1).drop_last() =~= t.take(i as int));
        }
        let g = f.geometry_types[i];
        if g == 3 {
            polygons = polygons + 1;
        } else if g == 2 {
            lines = lines + 1;
        } else if g == 1 {
            points = points + 1;
        }
        i = i + 1;
    }
    proof {
        assert(t.take(i as int) =~= t);
    }
    LayerInspection {
        name: f.name.clone(),
        feature_count: f.geometry_types.len(),
        encoded_bytes: f.encoded_bytes,
        property_keys: f.property_keys.clone(),
        geometry: commonest_geometry(polygons, lines, points),
    }
}

/// One tile, from its uncompressed bytes: every layer as [`layer_from`] shows it, largest first,
/// and the tile's own size; `None` when the bytes are no vector tile.
pub fn inspect_blob(z: u8, x: u32, y: u32, blob: &Vec<u8>) -> (r: Option<TileInspection>)
    ensures
        match decoded_layers(blob@) {
            None => r is None,
            Some(fs) => r matches Some(t) && t.z == z && t.x == x && t.y == y && t.stored_bytes == blob@.len()
                && layers_model(t.layers@) == largest_first(layers_of(fs)),
        },
{
    let facts = decode_layers(blob)?;
    let ghost fm = facts_model(facts@);
    let mut layers: Vec<LayerInspection> = Vec::new();
    let mut i: usize = 0;
    while i < facts.len()
        invariant
            i <= facts@.len(),
            fm == facts_model(facts@),
            layers_model(layers@) == layers_of(fm.take(i as int)),
        decreases facts@.len() - i,
    {
        let l = layer_from(&facts[i]);
        let ghost before = layers@;
        layers.push(l);
        proof {
            assert(fm[i as int] == facts@[i as int]@);
            assert(layers_model(layers@) =~= layers_model(before).push(layer_model(l)));
            assert(layers_of(fm.take(i as int + 1)) =~= layers_of(fm.take(i as int)).push(layer_of(fm[i as int])));
        }
        i = i + 1;
    }
    proof {
        assert(fm.take(i as int) =~= fm);
    }
    Some(TileInspection { z, x, y, stored_bytes: blob.len(), layers: largest_first_order(layers) })
}

} // verus!
