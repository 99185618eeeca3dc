//! The style, as what it is made from rather than what it renders to.
//!
//! A project has one style over every graph it serves. What lives here is the part of its recipe
//! that is logic rather than colour: which sources are drawn in what order, what a style may be
//! exported as, and which font stacks a bundled style carries.

use vstd::prelude::*;
use crate::paths::{extension, file_name, file_name_bounds, find_last_dot};
use crate::text::{chars_of, lowercase_of, same_text, string_between, to_lowercase};
use crate::vpl::ast::texts;

verus! {

/// What a style may be written as, by extension: the style itself, or the recipe as code.
pub open spec fn exportable() -> Seq<Seq<char>> {
    seq!["json"@, "ts"@]
}

/// Whether `path`'s extension, in lower case, is one a style is written as.
pub open spec fn names_exportable(path: Seq<char>) -> bool {
    match file_name(path) {
        None => false,
        Some(name) => match extension(name) {
            None => false,
            Some(ext) => exportable().contains(lowercase_of(ext)),
        },
    }
}

/// Whether Studio will write a style to this path.
///
/// Refused in the dialog that chose it rather than by a failure afterwards.
pub fn is_exportable(path: &str) -> (b: bool)
    ensures
        b == names_exportable(path@),
{
    let chars = chars_of(path);
    let (start, end) = match file_name_bounds(&chars) {
        None => return false,
        Some(bounds) => bounds,
    };
    let ghost name = chars@.subrange(start as int, end as int);
    let dot = match find_last_dot(&chars, start, end) {
        Some(d) if d > 0 => d,
        _ => return false,
    };
    let ext = string_between(&chars, start + dot + 1, end);
    proof {
        assert(name.skip(dot + 1) =~= ext@);
    }
    let lower = to_lowercase(ext.as_str());
    let known = same_text(lower.as_str(), "json") || same_text(lower.as_str(), "ts");
    proof {
        let w = exportable();
        assert(w[0] == "json"@ && w[1] == "ts"@);
        if w.contains(lower@) {
            let i = choose|i: int| 0 <= i < w.len() && w[i] == lower@;
            assert(i == 0 || i == 1);
        }
    }
    known
}

/// Where a style starts before anything is adjusted: the style generator's own builders, by their
/// own names, and one derived from the layers the tiles actually hold.
#[derive(Debug, Clone, Copy, PartialEq, Eq, Structural)]
pub enum Preset {
    Colorful,
    Eclipse,
    Graybeard,
    Neutrino,
    Shadow,
    Satellite,
    /// Built from the layers the tiles contain rather than from an assumed schema.
    Derived,
}

impl Default for Preset {
    fn default() -> (p: Preset)
        ensures
            p == Preset::Colorful,
    {
        Preset::Colorful
    }
}

/// What a source's tiles are, as far as drawing them goes.
#[derive(Debug, Clone, Copy, PartialEq, Eq, Structural)]
pub enum SourceKind {
    /// Vector tiles using the layer names the presets are written against.
    VectorShortbread,
    /// Vector tiles of anything else, styled from the layers present.
    VectorOther,
    /// Raster tiles meant to be looked at.
    RasterImage,
    /// Raster tiles encoding elevation, drawn as hillshade.
    RasterDem,
}

/// How a raster is sampled when it is scaled.
#[derive(Debug, Clone, Copy, PartialEq, Eq, Structural)]
pub enum Resampling {
    Linear,
    Nearest,
}

/// How elevation is packed into a DEM's pixels: the two encodings a map renderer can decode.
#[derive(Debug, Clone, Copy, PartialEq, Eq, Structural)]
pub enum DemEncoding {
    Mapbox,
    Terrarium,
}

// ---------------------------------------------------------------------------------------------
// Text order
// ---------------------------------------------------------------------------------------------

/// Whether `a` sorts before `b`, character by character, a prefix first - the order of `str`.
pub open spec fn text_less(a: Seq<char>, b: Seq<char>) -> bool
    decreases a.len(),
{
    if b.len() == 0 {
        false
    } else if a.len() == 0 {
        true
    } else if a[0] != b[0] {
        (a[0] as int) < (b[0] as int)
    } else {
        text_less(a.drop_first(), b.drop_first())
    }
}

pub proof fn lemma_text_less_total(a: Seq<char>, b: Seq<char>)
    ensures
        !text_less(a, a),
        text_less(a, b) ==> !text_less(b, a),
        a != b ==> text_less(a, b) || text_less(b, a),
    decreases a.len(),
{
    if a.len() > 0 && b.len() > 0 {
        lemma_text_less_total(a.drop_first(), b.drop_first());
        lemma_text_less_total(a.drop_first(), a.drop_first());
        if a[0] != b[0] {
            assert((a[0] as int) != (b[0] as int));
        }
        if a != b && a[0] == b[0] {
            assert(a.drop_first() != b.drop_first()) by {
                if a.drop_first() == b.drop_first() {
                    assert(a =~= seq![a[0]] + a.drop_first());
                    assert(b =~= seq![b[0]] + b.drop_first());
                }
            }
        }
    } else if a.len() > 0 {
        lemma_text_less_total(a.drop_first(), a.drop_first());
    } else if b.len() == 0 {
        assert(a =~= b);
    }
}

pub proof fn lemma_text_less_transitive(a: Seq<char>, b: Seq<char>, c: Seq<char>)
    requires
        text_less(a, b),
        text_less(b, c),
    ensures
        text_less(a, c),
    decreases a.len(),
{
    if a.len() > 0 && a[0] == b[0] && b[0] == c[0] {
        lemma_text_less_transitive(a.drop_first(), b.drop_first(), c.drop_first());
    }
}

pub proof fn lemma_text_less_order(a: Seq<char>, b: Seq<char>, c: Seq<char>)
    ensures
        !text_less(a, a),
        text_less(a, b) ==> !text_less(b, a),
        a != b ==> text_less(a, b) || text_less(b, a),
        text_less(a, b) && text_less(b, c) ==> text_less(a, c),
{
    lemma_text_less_total(a, b);
    if text_less(a, b) && text_less(b, c) {
        lemma_text_less_transitive(a, b, c);
    }
}

/// Whether `a` sorts before `b`; see [`text_less`].
pub fn less(a: &str, b: &str) -> (r: bool)
    ensures
        r == text_less(a@, b@),
{
    let x = chars_of(a);
    let y = chars_of(b);
    let mut i: usize = 0;
    proof {
        assert(x@.skip(0) =~= x@);
        assert(y@.skip(0) =~= y@);
    }
    while i < x.len() && i < y.len() && x[i] == y[i]
        invariant
            i <= x@.len(),
            i <= y@.len(),
            text_less(a@, b@) == text_less(x@.skip(i as int), y@.skip(i as int)),
            x@ == a@,
            y@ == b@,
        decreases x@.len() - i,
    {
        proof {
            assert(x@.skip(i as int).drop_first() =~= x@.skip(i as int + 1));
            assert(y@.skip(i as int).drop_first() =~= y@.skip(i as int + 1));
        }
        i = i + 1;
    }
    if i == y.len() {
        false
    } else if i == x.len() {
        true
    } else {
        x[i] < y[i]
    }
}

pub open spec fn ascending(v: Seq<Seq<char>>) -> bool {
    forall|i: int, j: int| 0 <= i < j < v.len() ==> text_less(v[i], v[j])
}

/// The names, each once and in text order.
///
/// A style names the same font on two hundred layers; each name would otherwise be a pass over an
/// archive. Sorted, so two runs over the same style produce the same result byte for byte.
pub fn dedup(names: &Vec<String>) -> (r: Vec<String>)
    ensures
        ascending(texts(r@)),
        forall|x: Seq<char>| texts(r@).contains(x) <==> texts(names@).contains(x),
{
    let mut out: Vec<String> = Vec::new();
    let mut i: usize = 0;
    while i < names.len()
        invariant
            i <= names@.len(),
            ascending(texts(out@)),
            forall|x: Seq<char>| texts(out@).contains(x) <==> texts(names@).take(i as int).contains(x),
        decreases names@.len() - i,
    {
        let name = &names[i];
        let ghost before = texts(out@);
        // The first place whose name does not sort before this one.
        let mut k: usize = 0;
        while k < out.len() && less(out[k].as_str(), name.as_str())
            invariant
                k <= out@.len(),
                before == texts(out@),
                forall|m: int| 0 <= m < k ==> text_less(before[m], name@),
            decreases out@.len() - k,
        {
            k = k + 1;
        }
        proof {
            assert(texts(names@).take(i as int + 1) =~= texts(names@).take(i as int).push(name@));
            assert forall|x: Seq<char>| texts(names@).take(i as int).push(name@).contains(x)
                <==> (texts(names@).take(i as int).contains(x) || x == name@) by {
                let t = texts(names@).take(i as int);
                if t.push(name@).contains(x) {
                    let m = choose|m: int| 0 <= m < t.push(name@).len() && t.push(name@)[m] == x;
                    if m < t.len() { assert(t[m] == x); }
                }
                if t.contains(x) {
                    let m = choose|m: int| 0 <= m < t.len() && t[m] == x;
                    assert(t.push(name@)[m] == x);
                }
                if x == name@ {
                    assert(t.push(name@)[t.len() as int] == x);
                }
            }
        }
        if k < out.len() && same_text(out[k].as_str(), name.as_str()) {
            proof {
                assert(before[k as int] == name@);
                assert(before.contains(name@));
            }
        } else {
            out.insert(k, name.clone());
            proof {
                let after = texts(out@);
                assert(after =~= before.insert(k as int, name@));
                if k < before.len() {
                    assert(!text_less(before[k as int], name@));
                    lemma_text_less_order(before[k as int], name@, name@);
                    assert(text_less(name@, before[k as int])) by {
                        lemma_text_less_order(name@, before[k as int], name@);
                    }
                }
                assert forall|a: int, b: int| 0 <= a < b < after.len() implies text_less(after[a], after[b]) by {
                    if b < k {
                    } else if a < k && b == k {
                    } else if a < k && b > k {
                        assert(after[b] == before[b - 1]);
                        lemma_text_less_order(before[a], name@, before[k as int]);
                        lemma_text_less_order(before[a], before[k as int], before[b - 1]);
                        if b - 1 > k {
                            assert(text_less(before[k as int], before[b - 1]));
                        }
                    } else if a == k {
                        assert(after[b] == before[b - 1]);
                        lemma_text_less_order(name@, before[k as int], before[b - 1]);
                        if b - 1 > k {
                            assert(text_less(before[k as int], before[b - 1]));
                        }
                    } else {
                        assert(after[a] == before[a - 1] && after[b] == before[b - 1]);
                    }
                }
                assert forall|x: Seq<char>| after.contains(x) <==> (before.contains(x) || x == name@) by {
                    if after.contains(x) {
                        let m = choose|m: int| 0 <= m < after.len() && after[m] == x;
                        if m < k { assert(before[m] == x); }
                        if m > k { assert(before[m - 1] == x); }
                    }
                    if before.contains(x) {
                        let m = choose|m: int| 0 <= m < before.len() && before[m] == x;
                        if m < k { assert(after[m] == x); } else { assert(after[m + 1] == x); }
                    }
                    if x == name@ {
                        assert(after[k as int] == x);
                    }
                }
            }
        }
        i = i + 1;
    }
    proof {
        assert(texts(names@).take(i as int) =~= texts(names@));
    }
    out
}

// ---------------------------------------------------------------------------------------------
// Draw order
// ---------------------------------------------------------------------------------------------

/// One run of one source's layers, at a place in the stack.
///
/// `from` names the layer the run begins at; `None` means the source's first layer. Where a run
/// ends is never stored: the next segment of the same source begins there.
#[derive(Debug)]
pub struct Segment {
    /// The graph whose layers this draws.
    pub source: String,
    /// The layer it starts at, or `None` for the whole source from its first layer.
    pub from: Option<String>,
}

pub ghost struct SegmentM {
    pub source: Seq<char>,
    pub from: Option<Seq<char>>,
}

impl View for Segment {
    type V = SegmentM;

    open spec fn view(&self) -> SegmentM {
        SegmentM {
            source: self.source@,
            from: match self.from {
                Some(f) => Some(f@),
                None => None,
            },
        }
    }
}

pub open spec fn segments_model(v: Seq<Segment>) -> Seq<SegmentM> {
    v.map_values(|s: Segment| s@)
}

impl Segment {
    /// A whole source, undivided: what a project that has never been rearranged is made of.
    pub fn whole(source: String) -> (s: Segment)
        ensures
            s@ == (SegmentM { source: source@, from: None }),
    {
        Segment { source, from: None }
    }

    /// The same segment, owned anew.
    pub fn duplicate(&self) -> (s: Segment)
        ensures
            s@ == self@,
    {
        Segment {
            source: self.source.clone(),
            from: match &self.from {
                Some(f) => Some(f.clone()),
                None => None,
            },
        }
    }
}

/// The segments of `order` whose source is among `present`, in order.
pub open spec fn kept_segments(order: Seq<SegmentM>, present: Seq<Seq<char>>) -> Seq<SegmentM>
    decreases order.len(),
{
    if order.len() == 0 {
        seq![]
    } else if present.contains(order.last().source) {
        kept_segments(order.drop_last(), present).push(order.last())
    } else {
        kept_segments(order.drop_last(), present)
    }
}

/// The sources of `segs`, in order.
pub open spec fn sources_of(segs: Seq<SegmentM>) -> Seq<Seq<char>> {
    segs.map_values(|s: SegmentM| s.source)
}

/// Whether some segment draws `source`.
pub open spec fn draws(segs: Seq<SegmentM>, source: Seq<char>) -> bool {
    exists|i: int| 0 <= i < segs.len() && #[trigger] segs[i].source == source
}

/// What [`segments`] returns for `order` and the sources `present`.
pub open spec fn is_draw_list(r: Seq<SegmentM>, order: Seq<SegmentM>, present: Seq<Seq<char>>) -> bool {
    let kept = kept_segments(order, present);
    let wholes = r.skip(kept.len() as int);
    &&& kept.len() <= r.len()
    &&& r.take(kept.len() as int) == kept
    &&& forall|i: int| 0 <= i < wholes.len() ==> (#[trigger] wholes[i]).from is None
    &&& ascending(sources_of(wholes))
    &&& forall|x: Seq<char>| #![trigger sources_of(wholes).contains(x)] #![trigger present.contains(x)]
        sources_of(wholes).contains(x) <==> (present.contains(x) && !draws(kept, x))
}

/// Whether `names` holds `name`.
fn holds(names: &Vec<String>, name: &str) -> (b: bool)
    ensures
        b == texts(names@).contains(name@),
{
    let mut i: usize = 0;
    while i < names.len()
        invariant
            i <= names@.len(),
            forall|j: int| 0 <= j < i ==> texts(names@)[j] != name@,
        decreases names@.len() - i,
    {
        if same_text(names[i].as_str(), name) {
            proof {
                assert(texts(names@)[i as int] == name@);
            }
            return true;
        }
        i = i + 1;
    }
    false
}

/// The segments to draw, bottom first.
///
/// Everything `order` names that is still present, then a whole segment for every present source
/// it does not name, in name order. `order` is a preference rather than a register: a graph
/// removed while the project was closed leaves no hole, and one added is not invisible.
pub fn segments(order: &Vec<Segment>, present: &Vec<String>) -> (r: Vec<Segment>)
    ensures
        is_draw_list(segments_model(r@), segments_model(order@), texts(present@)),
{
    let names = dedup(present);
    let ghost p = texts(present@);
    let ghost om = segments_model(order@);
    let mut out: Vec<Segment> = Vec::new();
    let mut i: usize = 0;
    while i < order.len()
        invariant
            i <= order@.len(),
            om == segments_model(order@),
            forall|x: Seq<char>| texts(names@).contains(x) <==> p.contains(x),
            segments_model(out@) == kept_segments(om.take(i as int), p),
        decreases order@.len() - i,
    {
        proof {
            assert(om.take(i as int + 1).drop_last() =~= om.take(i as int));
            assert(om.take(i as int + 1).last() == order@[i as int]@);
        }
        if holds(&names, order[i].source.as_str()) {
            let ghost before = segments_model(out@);
            out.push(order[i].duplicate());
            proof {
                assert(segments_model(out@) =~= before.push(order@[i as int]@));
            }
        }
        i = i + 1;
    }
    proof {
        assert(om.take(i as int) =~= om);
    }
    let ghost kept = segments_model(out@);
    let mut k: usize = 0;
    proof {
        assert(segments_model(out@).skip(kept.len() as int) =~= Seq::<SegmentM>::empty());
        assert(segments_model(out@).take(kept.len() as int) =~= kept);
    }
    while k < names.len()
        invariant
            k <= names@.len(),
            ascending(texts(names@)),
            forall|x: Seq<char>| texts(names@).contains(x) <==> p.contains(x),
            kept == kept_segments(om, p),
            kept.len() <= segments_model(out@).len(),
            segments_model(out@).take(kept.len() as int) == kept,
            forall|m: int| 0 <= m < segments_model(out@).skip(kept.len() as int).len()
                ==> (#[trigger] segments_model(out@).skip(kept.len() as int)[m]).from is None,
            ascending(sources_of(segments_model(out@).skip(kept.len() as int))),
            forall|x: Seq<char>| #![trigger sources_of(segments_model(out@).skip(kept.len() as int)).contains(x)]
                #![trigger texts(names@).take(k as int).contains(x)]
                sources_of(segments_model(out@).skip(kept.len() as int)).contains(x)
                <==> (texts(names@).take(k as int).contains(x) && !draws(kept, x)),
        decreases names@.len() - k,
    {
        let ghost before = segments_model(out@);
        let ghost wholes = sources_of(before.skip(kept.len() as int));
        let name = &names[k];
        proof {
            assert(texts(names@)[k as int] == name@);
            assert(texts(names@).take(k as int + 1) =~= texts(names@).take(k as int).push(name@));
            assert(!texts(names@).take(k as int).contains(name@)) by {
                if texts(names@).take(k as int).contains(name@) {
                    let j = choose|j: int| 0 <= j < k && texts(names@).take(k as int)[j] == name@;
                    assert(text_less(texts(names@)[j], texts(names@)[k as int]));
                    lemma_text_less_total(name@, name@);
                }
            }
            assert(!wholes.contains(name@));
            assert(before =~= kept + before.skip(kept.len() as int));
        }
        let drawn = draws_source(&out, name.as_str());
        proof {
            if draws(before, name@) && !draws(kept, name@) {
                let m = choose|m: int| 0 <= m < before.len() && #[trigger] before[m].source == name@;
                if m < kept.len() {
                    assert(kept[m] == before[m]);
                } else {
                    assert(wholes[m - kept.len()] == name@);
                }
            }
            if draws(kept, name@) {
                let m = choose|m: int| 0 <= m < kept.len() && #[trigger] kept[m].source == name@;
                assert(before[m] == kept[m]);
            }
        }
        if !drawn {
            out.push(Segment::whole(name.clone()));
            proof {
                assert(!draws(kept, name@));
                let after = segments_model(out@);
                assert(after =~= before.push(SegmentM { source: name@, from: None }));
                assert(after.skip(kept.len() as int) =~= before.skip(kept.len() as int).push(SegmentM { source: name@, from: None }));
                let w2 = sources_of(after.skip(kept.len() as int));
                assert(w2 =~= wholes.push(name@));
                assert(after.take(kept.len() as int) =~= kept);
                assert forall|a: int, b: int| 0 <= a < b < w2.len() implies text_less(w2[a], w2[b]) by {
                    if b == wholes.len() {
                        assert(wholes.contains(wholes[a]));
                        let j = choose|j: int| 0 <= j < k && texts(names@).take(k as int)[j] == wholes[a];
                        assert(text_less(texts(names@)[j], texts(names@)[k as int]));
                    }
                }
                let t = texts(names@).take(k as int);
                assert forall|x: Seq<char>| w2.contains(x) implies (t.push(name@).contains(x) && !draws(kept, x)) by {
                    assert(wholes.contains(x) <==> (t.contains(x) && !draws(kept, x)));
                    let m = choose|m: int| 0 <= m < w2.len() && w2[m] == x;
                    if m < wholes.len() {
                        assert(wholes[m] == x);
                        assert(wholes.contains(x));
                        let q = choose|q: int| 0 <= q < t.len() && t[q] == x;
                        assert(t.push(name@)[q] == x);
                    } else {
                        assert(t.push(name@)[t.len() as int] == x);
                    }
                }
                assert forall|x: Seq<char>| t.push(name@).contains(x) && !draws(kept, x) implies w2.contains(x) by {
                    assert(wholes.contains(x) <==> (t.contains(x) && !draws(kept, x)));
                    let m = choose|m: int| 0 <= m < t.push(name@).len() && t.push(name@)[m] == x;
                    if m < t.len() {
                        assert(t[m] == x);
                        assert(wholes.contains(x));
                        let q = choose|q: int| 0 <= q < wholes.len() && wholes[q] == x;
                        assert(w2[q] == x);
                    } else {
                        assert(w2[wholes.len() as int] == x);
                    }
                }
                assert forall|m: int| 0 <= m < after.skip(kept.len() as int).len()
                    implies (#[trigger] after.skip(kept.len() as int)[m]).from is None by {
                    if m < wholes.len() {
                        assert(after.skip(kept.len() as int)[m] == before.skip(kept.len() as int)[m]);
                    }
                }
            }
        } else {
            proof {
                assert forall|x: Seq<char>| wholes.contains(x) <==> (texts(names@).take(k as int + 1).contains(x) && !draws(kept, x)) by {
                    assert(wholes.contains(x) <==> (texts(names@).take(k as int).contains(x) && !draws(kept, x)));
                    let t = texts(names@).take(k as int);
                    if t.push(name@).contains(x) {
                        let m = choose|m: int| 0 <= m < t.push(name@).len() && t.push(name@)[m] == x;
                        if m < t.len() { assert(t[m] == x); }
                    }
                    if t.contains(x) {
                        let m = choose|m: int| 0 <= m < t.len() && t[m] == x;
                        assert(t.push(name@)[m] == x);
                    }
                }
            }
        }
        k = k + 1;
    }
    proof {
        assert(texts(names@).take(k as int) =~= texts(names@));
    }
    out
}

/// Whether some segment of `segs` draws `source`.
fn draws_source(segs: &Vec<Segment>, source: &str) -> (b: bool)
    ensures
        b == draws(segments_model(segs@), source@),
{
    let mut i: usize = 0;
    while i < segs.len()
        invariant
            i <= segs@.len(),
            forall|j: int| 0 <= j < i ==> (#[trigger] segments_model(segs@)[j]).source != source@,
        decreases segs@.len() - i,
    {
        proof {
            assert(segments_model(segs@)[i as int] == segs@[i as int]@);
        }
        if same_text(segs[i].source.as_str(), source) {
            proof {
                assert(segments_model(segs@)[i as int].source == source@);
            }
            return true;
        }
        i = i + 1;
    }
    false
}

/// Each source once, in the order it first appears.
pub open spec fn first_appearances(sources: Seq<Seq<char>>) -> Seq<Seq<char>>
    decreases sources.len(),
{
    if sources.len() == 0 {
        seq![]
    } else {
        let earlier = first_appearances(sources.drop_last());
        if earlier.contains(sources.last()) { earlier } else { earlier.push(sources.last()) }
    }
}

/// The sources of `segs`, each once, in the order each first appears.
pub fn first_sources(segs: &Vec<Segment>) -> (r: Vec<String>)
    ensures
        texts(r@) == first_appearances(sources_of(segments_model(segs@))),
{
    let ghost all = sources_of(segments_model(segs@));
    let mut out: Vec<String> = Vec::new();
    let mut i: usize = 0;
    while i < segs.len()
        invariant
            i <= segs@.len(),
            all == sources_of(segments_model(segs@)),
            texts(out@) == first_appearances(all.take(i as int)),
        decreases segs@.len() - i,
    {
        proof {
            assert(all.take(i as int + 1).drop_last() =~= all.take(i as int));
            assert(all.take(i as int + 1).last() == segs@[i as int].source@);
        }
        let source = &segs[i].source;
        if !holds(&out, source.as_str()) {
            let ghost before = texts(out@);
            out.push(source.clone());
            proof {
                assert(texts(out@) =~= before.push(source@));
            }
        }
        i = i + 1;
    }
    proof {
        assert(all.take(i as int) =~= all);
    }
    out
}

/// The sources to draw, bottom first, each once: the order in which a source first appears among
/// the [`segments`] to draw.
pub fn draw_order(order: &Vec<Segment>, present: &Vec<String>) -> (r: Vec<String>)
    ensures
        exists|segs: Seq<SegmentM>| is_draw_list(segs, segments_model(order@), texts(present@))
            && texts(r@) == first_appearances(sources_of(segs)),
{
    let segs = segments(order, present);
    first_sources(&segs)
}

/// A segment after its graph is renamed from `from` to `to`.
pub open spec fn renamed(s: SegmentM, from: Seq<char>, to: Seq<char>) -> SegmentM {
    if s.source == from { SegmentM { source: to, ..s } } else { s }
}

/// Moves every segment of a renamed graph to its new name, keeping its place in the stack.
pub fn rename_in_order(order: &mut Vec<Segment>, from: &str, to: &str)
    ensures
        segments_model(final(order)@) == segments_model(old(order)@).map_values(|s: SegmentM| renamed(s, from@, to@)),
{
    let ghost start = segments_model(order@);
    let mut i: usize = 0;
    while i < order.len()
        invariant
            i <= order@.len(),
            order@.len() == start.len(),
            forall|j: int| 0 <= j < order@.len() ==> #[trigger] segments_model(order@)[j]
                == (if j < i { renamed(start[j], from@, to@) } else { start[j] }),
        decreases order@.len() - i,
    {
        proof {
            assert(segments_model(order@)[i as int] == order@[i as int]@);
        }
        if same_text(order[i].source.as_str(), from) {
            let ghost before = order@;
            let mut segment = order.remove(i);
            segment.source = crate::text::owned(to);
            order.insert(i, segment);
            proof {
                assert forall|j: int| 0 <= j < order@.len() && j != i implies order@[j] == before[j] by {}
                assert forall|j: int| 0 <= j < order@.len() implies #[trigger] segments_model(order@)[j]
                    == (if j < i + 1 { renamed(start[j], from@, to@) } else { start[j] }) by {
                    if j != i {
                        assert(segments_model(order@)[j] == order@[j]@);
                        assert(segments_model(before)[j] == before[j]@);
                    }
                }
            }
        }
        i = i + 1;
    }
    proof {
        assert(segments_model(order@) =~= start.map_values(|s: SegmentM| renamed(s, from@, to@)));
    }
}

} // verus!
