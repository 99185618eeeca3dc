//! What Studio can bring in, and what each of those becomes.
//!
//! Every way into the application - the landing screen, "+ Add source", the file dialog, a dropped
//! file - asks this module rather than carrying its own list.
//!
//! **The catalogue answers to the binary, not to a plan.** A kind whose read operation is not in
//! this build is dropped from the list, so an import card can never offer something that would fail
//! on the first click.
//!
//! **Picking a file is not always the whole import.** `from_csv` cannot know which column holds the
//! longitude, so the parameters a filename cannot supply are listed in [`ImportKind::needs`].

use vstd::prelude::*;
use crate::text::{chars_of, lowercase_of, owned, same_text, to_lowercase};
use crate::vpl::ast::texts;
use crate::tabular::{opt, Columns};
use crate::vpl::read::{fixed_param, node_text, pairs, read_node_with};
use crate::vpl::operations::{
    built_names, find_op, find_operation, known_shape, lemma_no_gdal_raster, lemma_this_build_finds, operations_model,
    operations, shape, this_build, FieldInfo, FieldM, OperationInfo, OperationM,
};

verus! {

/// One way of bringing data in.
#[derive(Debug)]
pub struct ImportKind {
    /// Stable identifier, used by the caller to say which card was chosen.
    pub id: String,
    /// What the card says.
    pub label: String,
    /// The one-line explanation under it.
    pub detail: String,
    /// Extensions for the file dialog and the drop filter, without the dot, lowercase.
    pub extensions: Vec<String>,
    /// The read operation a chosen file becomes; `None` for a `.vpl`, which is a whole document
    /// rather than a node.
    pub operation: Option<String>,
    /// Required parameters a filename cannot supply, in the order the operation declares them.
    pub needs: Vec<String>,
}

pub ghost struct ImportKindM {
    pub id: Seq<char>,
    pub label: Seq<char>,
    pub detail: Seq<char>,
    pub extensions: Seq<Seq<char>>,
    pub operation: Option<Seq<char>>,
    pub needs: Seq<Seq<char>>,
}

pub open spec fn opt_text(o: Option<String>) -> Option<Seq<char>> {
    match o {
        Some(s) => Some(s@),
        None => None,
    }
}

impl View for ImportKind {
    type V = ImportKindM;

    open spec fn view(&self) -> ImportKindM {
        ImportKindM {
            id: self.id@,
            label: self.label@,
            detail: self.detail@,
            extensions: texts(self.extensions@),
            operation: opt_text(self.operation),
            needs: texts(self.needs@),
        }
    }
}

pub open spec fn kinds_model(ks: Seq<ImportKind>) -> Seq<ImportKindM> {
    ks.map_values(|k: ImportKind| k@)
}

/// A catalogue entry before the registry has been consulted.
pub struct Candidate {
    pub id: &'static str,
    pub label: &'static str,
    pub detail: &'static str,
    pub extensions: Vec<&'static str>,
    pub operation: Option<&'static str>,
}

pub ghost struct CandidateM {
    pub id: Seq<char>,
    pub label: Seq<char>,
    pub detail: Seq<char>,
    pub extensions: Seq<Seq<char>>,
    pub operation: Option<Seq<char>>,
}

pub open spec fn strs(v: Seq<&str>) -> Seq<Seq<char>> {
    v.map_values(|s: &str| s@)
}

impl View for Candidate {
    type V = CandidateM;

    open spec fn view(&self) -> CandidateM {
        CandidateM {
            id: self.id@,
            label: self.label@,
            detail: self.detail@,
            extensions: strs(self.extensions@),
            operation: match self.operation {
                Some(s) => Some(s@),
                None => None,
            },
        }
    }
}

/// The catalogue, in the order it is offered.
///
/// Containers first because that is the common case, then the two vector paths and the tile
/// server, the table and raster cards, and the pipeline file last - it is a way of *reopening*
/// work rather than of bringing data in.
pub open spec fn catalogue() -> Seq<CandidateM> {
    seq![
        CandidateM {
            id: "container"@,
            label: "Tile container"@,
            detail: "Tiles that have already been built"@,
            extensions: seq!["versatiles"@, "mbtiles"@, "pmtiles"@, "tar"@],
            operation: Some("from_container"@),
        },
        CandidateM {
            id: "vector"@,
            label: "Vector data"@,
            detail: "GeoJSON, line-delimited GeoJSON, or a shapefile"@,
            extensions: seq!["geojson"@, "json"@, "ndjson"@, "geojsonl"@, "ndgeojson"@, "geojsonseq"@, "shp"@],
            operation: Some("from_geo"@),
        },
        CandidateM {
            id: "tilejson"@,
            label: "Tile server"@,
            detail: "A TileJSON endpoint describing where tiles are served"@,
            extensions: seq![],
            operation: Some("from_tilejson"@),
        },
        CandidateM {
            id: "table"@,
            label: "Table of points"@,
            detail: "A CSV with longitude and latitude columns"@,
            extensions: seq!["csv"@],
            operation: Some("from_csv"@),
        },
        CandidateM {
            id: "raster"@,
            label: "Raster image"@,
            detail: "GeoTIFF or COG, a VRT mosaic, a scanned PNG or JPEG"@,
            extensions: seq!["tif"@, "tiff"@, "vrt"@, "png"@, "jpg"@, "jpeg"@],
            operation: Some("from_gdal_raster"@),
        },
        CandidateM {
            id: "pipeline"@,
            label: "Pipeline file"@,
            detail: "A .vpl written here or by the CLI"@,
            extensions: seq!["vpl"@],
            operation: None,
        },
    ]
}

/// The catalogue's entries as values.
pub fn candidates() -> (c: Vec<Candidate>)
    ensures
        c@.map_values(|x: Candidate| x@) == catalogue(),
{
    let c = vec![
        Candidate {
            id: "container",
            label: "Tile container",
            detail: "Tiles that have already been built",
            extensions: vec!["versatiles", "mbtiles", "pmtiles", "tar"],
            operation: Some("from_container"),
        },
        Candidate {
            id: "vector",
            label: "Vector data",
            detail: "GeoJSON, line-delimited GeoJSON, or a shapefile",
            // `.json` because `from_geo` reads a bare GeoJSON `FeatureCollection` under that name.
            extensions: vec!["geojson", "json", "ndjson", "geojsonl", "ndgeojson", "geojsonseq", "shp"],
            operation: Some("from_geo"),
        },
        Candidate {
            // **Never reached by extension**: a `.json` is a GeoJSON as far as its name goes, and one
            // extension belongs to one kind. This entry is reached by reading the document.
            id: "tilejson",
            label: "Tile server",
            detail: "A TileJSON endpoint describing where tiles are served",
            extensions: vec![],
            operation: Some("from_tilejson"),
        },
        Candidate {
            // Not `.tsv`: `from_csv` splits on `,` unless told otherwise.
            id: "table",
            label: "Table of points",
            detail: "A CSV with longitude and latitude columns",
            extensions: vec!["csv"],
            operation: Some("from_csv"),
        },
        Candidate {
            id: "raster",
            label: "Raster image",
            detail: "GeoTIFF or COG, a VRT mosaic, a scanned PNG or JPEG",
            extensions: vec!["tif", "tiff", "vrt", "png", "jpg", "jpeg"],
            operation: Some("from_gdal_raster"),
        },
        Candidate {
            id: "pipeline",
            label: "Pipeline file",
            detail: "A .vpl written here or by the CLI",
            extensions: vec!["vpl"],
            operation: None,
        },
    ];
    proof {
        let cat = catalogue();
        assert(strs(c@[0].extensions@) =~= cat[0].extensions);
        assert(strs(c@[1].extensions@) =~= cat[1].extensions);
        assert(strs(c@[2].extensions@) =~= cat[2].extensions);
        assert(strs(c@[3].extensions@) =~= cat[3].extensions);
        assert(strs(c@[4].extensions@) =~= cat[4].extensions);
        assert(strs(c@[5].extensions@) =~= cat[5].extensions);
        assert(c@.map_values(|x: Candidate| x@) =~= cat);
    }
    c
}

// ---------------------------------------------------------------------------------------------
// What each kind still needs
// ---------------------------------------------------------------------------------------------

/// Whether `fields` has a required one called `name`.
pub open spec fn has_required(fields: Seq<FieldM>, name: Seq<char>) -> bool {
    exists|i: int| 0 <= i < fields.len() && fields[i].required && #[trigger] fields[i].name == name
}

/// The name of the first required field.
pub open spec fn first_required(fields: Seq<FieldM>) -> Option<Seq<char>>
    decreases fields.len(),
{
    if fields.len() == 0 {
        None
    } else if fields[0].required {
        Some(fields[0].name)
    } else {
        first_required(fields.drop_first())
    }
}

/// The parameter a chosen source fills in: `filename` for everything that reads a file, `url` for
/// what fetches, else the first required field, and `filename` where there is nothing to go on.
pub open spec fn source_param(ops: Seq<OperationM>, operation: Seq<char>) -> Seq<char> {
    match find_op(ops, operation) {
        None => "filename"@,
        Some(op) => if has_required(op.fields, "filename"@) {
            "filename"@
        } else if has_required(op.fields, "url"@) {
            "url"@
        } else {
            match first_required(op.fields) {
                Some(name) => name,
                None => "filename"@,
            }
        },
    }
}

/// The required fields other than `param`, in order.
pub open spec fn needs_of(fields: Seq<FieldM>, param: Seq<char>) -> Seq<Seq<char>>
    decreases fields.len(),
{
    if fields.len() == 0 {
        seq![]
    } else {
        let f = fields.last();
        needs_of(fields.drop_last(), param) + if f.required && f.name != param {
            seq![f.name]
        } else {
            seq![]
        }
    }
}

/// What a catalogue entry becomes, or `None` when its operation is not in this build.
pub open spec fn kind_of(c: CandidateM, ops: Seq<OperationM>) -> Option<ImportKindM> {
    match c.operation {
        None => Some(
            ImportKindM {
                id: c.id,
                label: c.label,
                detail: c.detail,
                extensions: c.extensions,
                operation: None,
                needs: seq![],
            },
        ),
        Some(name) => match find_op(ops, name) {
            None => None,
            Some(op) => Some(
                ImportKindM {
                    id: c.id,
                    label: c.label,
                    detail: c.detail,
                    extensions: c.extensions,
                    operation: Some(name),
                    needs: needs_of(op.fields, source_param(ops, name)),
                },
            ),
        },
    }
}

/// The kinds the entries `cs` become, in order, leaving out the ones this build cannot offer.
pub open spec fn kinds_of(cs: Seq<CandidateM>, ops: Seq<OperationM>) -> Seq<ImportKindM>
    decreases cs.len(),
{
    if cs.len() == 0 {
        seq![]
    } else {
        kinds_of(cs.drop_last(), ops) + match kind_of(cs.last(), ops) {
            Some(k) => seq![k],
            None => seq![],
        }
    }
}

/// The parameter a chosen source fills in, for an operation of `available`.
///
/// **`filename` for everything that reads a file, `url` for the one that fetches.** `from_tilejson`
/// takes a URL and nothing else, so a card that wrote `filename=` for it would produce a node that
/// cannot parse. Both spellings are checked against the registry rather than assumed, so an
/// operation that has neither falls back to its first required field.
pub fn source_parameter_in(available: &Vec<OperationInfo>, operation: &str) -> (r: String)
    ensures
        r@ == source_param(operations_model(available@), operation@),
{
    proof {
        reveal_strlit("filename");
        reveal_strlit("url");
    }
    let found = match find_operation(available, operation) {
        None => return owned("filename"),
        Some(i) => &available[i],
    };
    let ghost fields = found@.fields;
    let mut first: Option<usize> = None;
    let mut has_filename = false;
    let mut has_url = false;
    let mut j: usize = 0;
    while j < found.fields.len()
        invariant
            j <= found.fields@.len(),
            fields == found@.fields,
            fields == found.fields@.map_values(|f: FieldInfo| f@),
            has_filename == (exists|k: int| 0 <= k < j && fields[k].required && #[trigger] fields[k].name == "filename"@),
            has_url == (exists|k: int| 0 <= k < j && fields[k].required && #[trigger] fields[k].name == "url"@),
            match first {
                None => forall|k: int| 0 <= k < j ==> !(#[trigger] fields[k].required),
                Some(k) => k < j && fields[k as int].required && first_required(fields) == Some(fields[k as int].name)
                    && forall|m: int| 0 <= m < k ==> !(#[trigger] fields[m].required),
            },
        decreases found.fields@.len() - j,
    {
        let field = &found.fields[j];
        proof {
            assert(fields[j as int] == field@);
        }
        if field.required {
            let is_file = same_text(field.name.as_str(), "filename");
            let is_url = same_text(field.name.as_str(), "url");
            proof {
                if is_file {
                    assert(fields[j as int].required && fields[j as int].name == "filename"@);
                }
                if is_url {
                    assert(fields[j as int].required && fields[j as int].name == "url"@);
                }
            }
            if is_file {
                has_filename = true;
            }
            if is_url {
                has_url = true;
            }
            if first.is_none() {
                proof {
                    lemma_first_required_at(fields, j as int);
                }
                first = Some(j);
            }
        }
        j = j + 1;
    }
    if has_filename {
        return owned("filename");
    }
    if has_url {
        return owned("url");
    }
    match first {
        Some(k) => found.fields[k].name.clone(),
        None => {
            proof {
                lemma_no_required(fields);
            }
            owned("filename")
        },
    }
}

proof fn lemma_first_required_at(fields: Seq<FieldM>, j: int)
    requires
        0 <= j < fields.len(),
        fields[j].required,
        forall|m: int| 0 <= m < j ==> !(#[trigger] fields[m].required),
    ensures
        first_required(fields) == Some(fields[j].name),
    decreases j,
{
    if j > 0 {
        assert(!fields[0].required);
        lemma_first_required_at(fields.drop_first(), j - 1);
    }
}

proof fn lemma_no_required(fields: Seq<FieldM>)
    requires
        forall|m: int| 0 <= m < fields.len() ==> !(#[trigger] fields[m].required),
    ensures
        first_required(fields) is None,
    decreases fields.len(),
{
    if fields.len() > 0 {
        assert(!fields[0].required);
        lemma_no_required(fields.drop_first());
    }
}

proof fn lemma_needs_none(fields: Seq<FieldM>, param: Seq<char>)
    requires
        forall|m: int| 0 <= m < fields.len() && (#[trigger] fields[m]).required ==> fields[m].name == param,
    ensures
        needs_of(fields, param) == Seq::<Seq<char>>::empty(),
    decreases fields.len(),
{
    if fields.len() > 0 {
        lemma_needs_none(fields.drop_last(), param);
        assert(fields.drop_last().len() == fields.len() - 1);
        assert forall|m: int| 0 <= m < fields.drop_last().len() && (#[trigger] fields.drop_last()[m]).required
            implies fields.drop_last()[m].name == param by {
            assert(fields.drop_last()[m] == fields[m]);
        }
        assert(fields.last() == fields[fields.len() - 1]);
        assert(needs_of(fields, param) =~= Seq::<Seq<char>>::empty());
    }
}

proof fn lemma_needs_prefix(fields: Seq<FieldM>, param: Seq<char>, k: int)
    requires
        0 <= k <= fields.len(),
        forall|m: int| k <= m < fields.len() ==> !(#[trigger] fields[m]).required,
    ensures
        needs_of(fields, param) == needs_of(fields.take(k), param),
    decreases fields.len(),
{
    if fields.len() > k {
        let front = fields.drop_last();
        assert forall|m: int| k <= m < front.len() implies !(#[trigger] front[m]).required by {
            assert(front[m] == fields[m]);
        }
        lemma_needs_prefix(front, param, k);
        assert(front.take(k) =~= fields.take(k));
        assert(!fields[fields.len() - 1].required);
        assert(needs_of(fields, param) =~= needs_of(front, param));
    } else {
        assert(fields.take(k) =~= fields);
    }
}

/// What a catalogue entry is offered as, needing `needs`.
pub open spec fn offered_kind(c: CandidateM, needs: Seq<Seq<char>>) -> ImportKindM {
    ImportKindM { id: c.id, label: c.label, detail: c.detail, extensions: c.extensions, operation: c.operation, needs }
}

/// The kinds this build offers: every catalogue entry but the raster one, whose operation it does
/// not register; a table needs its longitude and latitude columns, the rest need nothing more.
pub open spec fn built_kinds() -> Seq<ImportKindM> {
    seq![
        offered_kind(catalogue()[0], seq![]),
        offered_kind(catalogue()[1], seq![]),
        offered_kind(catalogue()[2], seq![]),
        offered_kind(catalogue()[3], seq!["lon_column"@, "lat_column"@]),
        offered_kind(catalogue()[5], seq![]),
    ]
}

/// The operation this build registers as `name`, with the parameters [`known_shape`] gives it.
proof fn lemma_found(ops: Seq<OperationM>, name: Seq<char>, at: int) -> (op: OperationM)
    requires
        this_build(ops),
        0 <= at < built_names().len(),
        built_names()[at] == name,
    ensures
        find_op(ops, name) == Some(op),
        op.name == name,
        known_shape(name) matches Some(sh) ==> shape(op.fields) == sh,
{
    lemma_this_build_finds(ops, name);
    find_op(ops, name)->0
}

/// Which parameter a chosen source fills for the operations the catalogue names: `filename` for
/// what reads a file, `url` for the tile server; and `filename` for a name this build does not
/// register.
pub proof fn lemma_built_source_params(ops: Seq<OperationM>, other: Seq<char>)
    requires
        this_build(ops),
    ensures
        source_param(ops, "from_container"@) == "filename"@,
        source_param(ops, "from_geo"@) == "filename"@,
        source_param(ops, "from_csv"@) == "filename"@,
        source_param(ops, "from_tilejson"@) == "url"@,
        !built_names().contains(other) ==> source_param(ops, other) == "filename"@,
{
    reveal_strlit("from_container");
    reveal_strlit("from_geo");
    reveal_strlit("from_csv");
    reveal_strlit("from_tilejson");
    reveal_strlit("filename");
    reveal_strlit("url");
    reveal_strlit("max_retries");
    reveal_strlit("max_concurrent_requests");
    lemma_this_build_finds(ops, other);
    let c = lemma_found(ops, "from_container"@, 1);
    assert(known_shape("from_container"@) is Some);
    assert(shape(c.fields).len() == 2);
    assert(c.fields.len() == 2);
    assert(shape(c.fields)[0] == (c.fields[0].name, c.fields[0].required));
    assert(c.fields[0].required && c.fields[0].name == "filename"@);
    let g = lemma_found(ops, "from_geo"@, 4);
    assert("from_geo"@.len() != "from_container"@.len());
    assert(known_shape("from_geo"@) is Some);
    assert(shape(g.fields).len() == 16);
    assert(shape(g.fields)[0] == (g.fields[0].name, g.fields[0].required));
    assert(g.fields[0].required && g.fields[0].name == "filename"@);
    let v = lemma_found(ops, "from_csv"@, 2);
    assert("from_csv"@[5] != "from_geo"@[5]);
    assert("from_csv"@.len() != "from_container"@.len());
    assert("from_csv"@.len() != "from_tilejson"@.len());
    assert(known_shape("from_csv"@) is Some);
    assert(shape(v.fields).len() == 16);
    assert(shape(v.fields)[0] == (v.fields[0].name, v.fields[0].required));
    assert(v.fields[0].required && v.fields[0].name == "filename"@);
    let t = lemma_found(ops, "from_tilejson"@, 11);
    assert("from_tilejson"@.len() != "from_container"@.len());
    assert("from_tilejson"@.len() != "from_geo"@.len());
    assert(known_shape("from_tilejson"@) is Some);
    assert(shape(t.fields).len() == 3);
    assert forall|m: int| 0 <= m < t.fields.len() implies !(t.fields[m].required && #[trigger] t.fields[m].name == "filename"@) by {
        assert(shape(t.fields)[m] == (t.fields[m].name, t.fields[m].required));
        if m == 0 {
            assert(t.fields[0].name == "url"@);
            assert("url"@.len() != "filename"@.len());
        } else {
            assert(!t.fields[m].required);
        }
    }
    assert(shape(t.fields)[0] == (t.fields[0].name, t.fields[0].required));
    assert(t.fields[0].required && t.fields[0].name == "url"@);
}

proof fn lemma_required_by_shape(a: Seq<FieldM>, b: Seq<FieldM>, name: Seq<char>)
    requires
        shape(a) == shape(b),
    ensures
        has_required(a, name) == has_required(b, name),
        first_required(a) == first_required(b),
    decreases a.len(),
{
    assert(a.len() == shape(a).len() && b.len() == shape(b).len());
    assert forall|i: int| 0 <= i < a.len() implies a[i].name == b[i].name && a[i].required == b[i].required by {
        assert(shape(a)[i] == (a[i].name, a[i].required));
        assert(shape(b)[i] == (b[i].name, b[i].required));
    }
    if has_required(a, name) {
        let i = choose|i: int| 0 <= i < a.len() && a[i].required && #[trigger] a[i].name == name;
        assert(b[i].required && b[i].name == name);
    }
    if has_required(b, name) {
        let i = choose|i: int| 0 <= i < b.len() && b[i].required && #[trigger] b[i].name == name;
        assert(a[i].required && a[i].name == name);
    }
    if a.len() > 0 {
        assert(shape(a.drop_first()) =~= shape(a).drop_first());
        assert(shape(b.drop_first()) =~= shape(b).drop_first());
        lemma_required_by_shape(a.drop_first(), b.drop_first(), name);
    }
}

/// Which parameter a source fills is the same for every list of operations [`this_build`]
/// describes.
pub proof fn lemma_source_param_fixed(a: Seq<OperationM>, b: Seq<OperationM>, operation: Seq<char>)
    requires
        this_build(a),
        this_build(b),
    ensures
        source_param(a, operation) == source_param(b, operation),
{
    lemma_this_build_finds(a, operation);
    lemma_this_build_finds(b, operation);
    if built_names().contains(operation) {
        let ya = find_op(a, operation)->0;
        let yb = find_op(b, operation)->0;
        lemma_required_by_shape(ya.fields, yb.fields, "filename"@);
        lemma_required_by_shape(ya.fields, yb.fields, "url"@);
    }
}

/// What this build offers to import: [`built_kinds`].
pub proof fn lemma_built_kinds(ops: Seq<OperationM>)
    requires
        this_build(ops),
    ensures
        kinds_of(catalogue(), ops) == built_kinds(),
{
    reveal_strlit("from_container");
    reveal_strlit("from_geo");
    reveal_strlit("from_csv");
    reveal_strlit("from_tilejson");
    reveal_strlit("from_gdal_raster");
    reveal_strlit("filename");
    reveal_strlit("url");
    reveal_strlit("lon_column");
    reveal_strlit("lat_column");
    lemma_built_source_params(ops, "from_gdal_raster"@);
    let cat = catalogue();
    // The container, vector and tile server entries need nothing the source does not fill.
    let c = lemma_found(ops, "from_container"@, 1);
    assert(known_shape("from_container"@) is Some);
    assert(shape(c.fields).len() == 2);
    assert forall|m: int| 0 <= m < c.fields.len() && (#[trigger] c.fields[m]).required implies c.fields[m].name == "filename"@ by {
        assert(shape(c.fields)[m] == (c.fields[m].name, c.fields[m].required));
    }
    lemma_needs_none(c.fields, "filename"@);
    assert("from_geo"@.len() != "from_container"@.len());
    let g = lemma_found(ops, "from_geo"@, 4);
    assert(known_shape("from_geo"@) is Some);
    assert(shape(g.fields).len() == 16);
    assert forall|m: int| 0 <= m < g.fields.len() && (#[trigger] g.fields[m]).required implies g.fields[m].name == "filename"@ by {
        assert(shape(g.fields)[m] == (g.fields[m].name, g.fields[m].required));
    }
    lemma_needs_none(g.fields, "filename"@);
    assert("from_tilejson"@.len() != "from_container"@.len());
    assert("from_tilejson"@.len() != "from_geo"@.len());
    let t = lemma_found(ops, "from_tilejson"@, 11);
    assert(known_shape("from_tilejson"@) is Some);
    assert(shape(t.fields).len() == 3);
    assert forall|m: int| 0 <= m < t.fields.len() && (#[trigger] t.fields[m]).required implies t.fields[m].name == "url"@ by {
        assert(shape(t.fields)[m] == (t.fields[m].name, t.fields[m].required));
    }
    lemma_needs_none(t.fields, "url"@);
    // A table needs its two coordinate columns.
    assert("from_csv"@[5] != "from_geo"@[5]);
    assert("from_csv"@.len() != "from_container"@.len());
    assert("from_csv"@.len() != "from_tilejson"@.len());
    let v = lemma_found(ops, "from_csv"@, 2);
    assert(known_shape("from_csv"@) is Some);
    assert(shape(v.fields).len() == 16);
    assert forall|m: int| 3 <= m < v.fields.len() implies !(#[trigger] v.fields[m]).required by {
        assert(shape(v.fields)[m] == (v.fields[m].name, v.fields[m].required));
    }
    lemma_needs_prefix(v.fields, "filename"@, 3);
    let f = v.fields;
    assert(shape(f)[0] == (f[0].name, f[0].required));
    assert(shape(f)[1] == (f[1].name, f[1].required));
    assert(shape(f)[2] == (f[2].name, f[2].required));
    assert(f.take(1).drop_last() =~= Seq::<FieldM>::empty());
    assert(f.take(2).drop_last() =~= f.take(1));
    assert(f.take(3).drop_last() =~= f.take(2));
    assert(f.take(1).last() == f[0]);
    assert(f.take(2).last() == f[1]);
    assert(f.take(3).last() == f[2]);
    assert("lon_column"@.len() != "filename"@.len());
    assert("lat_column"@.len() != "filename"@.len());
    assert(needs_of(Seq::<FieldM>::empty(), "filename"@) == Seq::<Seq<char>>::empty());
    assert(needs_of(f.take(1), "filename"@) =~= Seq::<Seq<char>>::empty());
    assert(needs_of(f.take(2), "filename"@) =~= seq!["lon_column"@]);
    assert(needs_of(f.take(3), "filename"@) =~= seq!["lon_column"@, "lat_column"@]);
    // The raster entry's operation is not built in.
    lemma_no_gdal_raster();
    lemma_this_build_finds(ops, "from_gdal_raster"@);
    // The list, entry by entry.
    let k0 = kind_of(cat[0], ops);
    let k1 = kind_of(cat[1], ops);
    let k2 = kind_of(cat[2], ops);
    let k3 = kind_of(cat[3], ops);
    let k4 = kind_of(cat[4], ops);
    let k5 = kind_of(cat[5], ops);
    assert(k0 == Some(offered_kind(cat[0], seq![])));
    assert(k1 == Some(offered_kind(cat[1], seq![])));
    assert(k2 == Some(offered_kind(cat[2], seq![])));
    assert(k3 == Some(offered_kind(cat[3], seq!["lon_column"@, "lat_column"@])));
    assert(k4 is None);
    assert(k5 == Some(offered_kind(cat[5], seq![])));
    assert forall|k: int| 0 < k <= 6 implies #[trigger] cat.take(k).drop_last() == cat.take(k - 1)
        && cat.take(k).last() == cat[k - 1] by {
        assert(cat.take(k).drop_last() =~= cat.take(k - 1));
    }
    assert(kinds_of(cat.take(0), ops) == Seq::<ImportKindM>::empty());
    assert(kinds_of(cat.take(1), ops) =~= seq![offered_kind(cat[0], seq![])]);
    assert(kinds_of(cat.take(2), ops) =~= seq![offered_kind(cat[0], seq![]), offered_kind(cat[1], seq![])]);
    assert(kinds_of(cat.take(3), ops) =~= built_kinds().take(3));
    assert(kinds_of(cat.take(4), ops) =~= built_kinds().take(4));
    assert(kinds_of(cat.take(5), ops) =~= built_kinds().take(4));
    assert(kinds_of(cat.take(6), ops) =~= built_kinds());
    assert(cat.take(6) =~= cat);
}

/// The parameter a chosen source fills in, for an operation this build registers.
pub fn source_parameter(operation: &str) -> (r: String)
    ensures
        exists|ops: Seq<OperationM>| #[trigger] this_build(ops),
        forall|ops: Seq<OperationM>| #[trigger] this_build(ops) ==> r@ == source_param(ops, operation@),
        operation@ == "from_tilejson"@ ==> r@ == "url"@,
        operation@ == "from_container"@ || operation@ == "from_geo"@ || operation@ == "from_csv"@ ==> r@ == "filename"@,
        !built_names().contains(operation@) ==> r@ == "filename"@,
{
    let available = operations();
    let r = source_parameter_in(&available, operation);
    proof {
        let mine = operations_model(available@);
        lemma_built_source_params(mine, operation@);
        assert(this_build(mine));
        assert forall|ops: Seq<OperationM>| #[trigger] this_build(ops) implies r@ == source_param(ops, operation@) by {
            lemma_source_param_fixed(mine, ops, operation@);
        }
    }
    r
}

/// Every kind the catalogue offers that `available` can actually import.
pub fn kinds_from(available: &Vec<OperationInfo>) -> (r: Vec<ImportKind>)
    ensures
        kinds_model(r@) == kinds_of(catalogue(), operations_model(available@)),
{
    let ghost ops = operations_model(available@);
    let cs = candidates();
    let ghost cm = cs@.map_values(|x: Candidate| x@);
    let mut out: Vec<ImportKind> = Vec::new();
    let mut i: usize = 0;
    while i < cs.len()
        invariant
            i <= cs@.len(),
            ops == operations_model(available@),
            cm == cs@.map_values(|x: Candidate| x@),
            kinds_model(out@) == kinds_of(cm.take(i as int), ops),
        decreases cs@.len() - i,
    {
        let c = &cs[i];
        proof {
            assert(cm.take(i + 1).drop_last() =~= cm.take(i as int));
            assert(cm.take(i + 1).last() == c@);
        }
        let needs: Option<Vec<String>> = match c.operation {
            None => Some(Vec::new()),
            Some(name) => match find_operation(available, name) {
                None => None,
                Some(k) => {
                    let param = source_parameter_in(available, name);
                    Some(needs_in(&available[k].fields, param.as_str()))
                },
            },
        };
        let ghost before = out@;
        match needs {
            None => {
                proof {
                    assert(kinds_model(out@) =~= kinds_of(cm.take(i as int), ops) + Seq::<ImportKindM>::empty());
                }
            },
            Some(needs) => {
                let kind = ImportKind {
                    id: owned(c.id),
                    label: owned(c.label),
                    detail: owned(c.detail),
                    extensions: owned_all(&c.extensions),
                    operation: match c.operation {
                        Some(name) => Some(owned(name)),
                        None => None,
                    },
                    needs,
                };
                let ghost km = kind@;
                out.push(kind);
                proof {
                    if c.operation is None {
                        assert(texts(kind.needs@) =~= Seq::<Seq<char>>::empty());
                    }
                    assert(kind_of(c@, ops) == Some(km));
                    assert(kinds_model(out@) =~= kinds_model(before).push(km));
                }
            },
        }
        i = i + 1;
    }
    proof {
        assert(cm.take(i as int) =~= cm);
    }
    out
}

/// The required fields of `fields` other than `param`, by name.
fn needs_in(fields: &Vec<FieldInfo>, param: &str) -> (r: Vec<String>)
    ensures
        texts(r@) == needs_of(fields@.map_values(|f: FieldInfo| f@), param@),
{
    let ghost fm = fields@.map_values(|f: FieldInfo| f@);
    let mut out: Vec<String> = Vec::new();
    let mut i: usize = 0;
    while i < fields.len()
        invariant
            i <= fields@.len(),
            fm == fields@.map_values(|f: FieldInfo| f@),
            texts(out@) == needs_of(fm.take(i as int), param@),
        decreases fields@.len() - i,
    {
        let f = &fields[i];
        proof {
            assert(fm.take(i + 1).drop_last() =~= fm.take(i as int));
            assert(fm.take(i + 1).last() == f@);
        }
        let ghost before = out@;
        if f.required && !same_text(f.name.as_str(), param) {
            out.push(f.name.clone());
            proof {
                assert(texts(out@) =~= texts(before) + seq![f.name@]);
            }
        } else {
            proof {
                assert(texts(out@) =~= texts(before) + Seq::<Seq<char>>::empty());
            }
        }
        i = i + 1;
    }
    proof {
        assert(fm.take(i as int) =~= fm);
    }
    out
}

/// Each of `v` as an owned string.
fn owned_all(v: &Vec<&'static str>) -> (r: Vec<String>)
    ensures
        texts(r@) == strs(v@),
{
    let mut out: Vec<String> = Vec::new();
    let mut i: usize = 0;
    while i < v.len()
        invariant
            i <= v@.len(),
            texts(out@) == strs(v@.take(i as int)),
        decreases v@.len() - i,
    {
        let one = owned(v[i]);
        let ghost before = out@;
        out.push(one);
        proof {
            assert(one@ == v@[i as int]@);
            assert(texts(out@) =~= texts(before).push(one@));
            assert(strs(v@.take(i + 1)) =~= strs(v@.take(i as int)).push(v@[i as int]@));
        }
        i = i + 1;
    }
    proof {
        assert(v@.take(i as int) =~= v@);
    }
    out
}

/// Every kind this build can actually import.
pub fn kinds() -> (r: Vec<ImportKind>)
    ensures
        kinds_model(r@) == built_kinds(),
{
    let available = operations();
    proof {
        lemma_built_kinds(operations_model(available@));
    }
    kinds_from(&available)
}

// ---------------------------------------------------------------------------------------------
// Matching a path to a kind
// ---------------------------------------------------------------------------------------------

pub open spec fn ends_with(s: Seq<char>, suffix: Seq<char>) -> bool {
    suffix.len() <= s.len() && s.subrange(s.len() - suffix.len(), s.len() as int) == suffix
}

pub open spec fn starts_with(s: Seq<char>, prefix: Seq<char>) -> bool {
    prefix.len() <= s.len() && s.take(prefix.len() as int) == prefix
}

/// Whether `lower` ends in `.` and one of the kind's extensions.
pub open spec fn claims(k: ImportKindM, lower: Seq<char>) -> bool {
    exists|j: int| 0 <= j < k.extensions.len() && ends_with(lower, seq!['.'] + #[trigger] k.extensions[j])
}

/// The first of `ks`, from the `i`-th on, that claims `lower`.
pub open spec fn first_claiming(ks: Seq<ImportKindM>, lower: Seq<char>, i: int) -> Option<int>
    decreases ks.len() - i,
{
    if i < 0 || i >= ks.len() {
        None
    } else if claims(ks[i], lower) {
        Some(i)
    } else {
        first_claiming(ks, lower, i + 1)
    }
}

proof fn lemma_first_claiming_bound(ks: Seq<ImportKindM>, lower: Seq<char>, i: int)
    ensures
        first_claiming(ks, lower, i) matches Some(j) ==> 0 <= i <= j < ks.len(),
    decreases ks.len() - i,
{
    if 0 <= i < ks.len() && !claims(ks[i], lower) {
        lemma_first_claiming_bound(ks, lower, i + 1);
    }
}

/// Whether `s` ends with `.` followed by `ext`.
fn ends_with_dot(s: &Vec<char>, ext: &str) -> (b: bool)
    ensures
        b == ends_with(s@, seq!['.'] + ext@),
{
    let e = chars_of(ext);
    let ghost suffix = seq!['.'] + e@;
    let n = s.len();
    if n <= e.len() {
        return false;
    }
    let base = n - e.len() - 1;
    if s[base] != '.' {
        proof {
            assert(s@.subrange(base as int, s@.len() as int)[0] != suffix[0]);
            assert(s@.subrange(base as int, s@.len() as int) != suffix);
        }
        return false;
    }
    let mut i: usize = 0;
    while i < e.len()
        invariant
            i <= e@.len(),
            n == s@.len(),
            e@ == ext@,
            base + 1 + e@.len() == n,
            suffix == seq!['.'] + e@,
            s@[base as int] == '.',
            forall|j: int| 0 <= j < i ==> s@[base + 1 + j] == e@[j],
        decreases e@.len() - i,
    {
        if s[base + 1 + i] != e[i] {
            proof {
                assert(s@.subrange(base as int, s@.len() as int)[1 + i] != suffix[1 + i]);
                assert(s@.subrange(base as int, s@.len() as int) != suffix);
            }
            return false;
        }
        i = i + 1;
    }
    proof {
        assert(s@.subrange(base as int, s@.len() as int) =~= suffix);
    }
    true
}

/// Which of `kinds` a path, already in lower case, belongs to: the first that claims its
/// extension.
pub fn kind_index_for(kinds: &Vec<ImportKind>, lower: &str) -> (r: Option<usize>)
    ensures
        match first_claiming(kinds_model(kinds@), lower@, 0) {
            None => r is None,
            Some(i) => r matches Some(j) && j == i,
        },
{
    let ghost ks = kinds_model(kinds@);
    let chars = chars_of(lower);
    let mut i: usize = 0;
    while i < kinds.len()
        invariant
            i <= kinds@.len(),
            ks == kinds_model(kinds@),
            chars@ == lower@,
            first_claiming(ks, lower@, 0) == first_claiming(ks, lower@, i as int),
        decreases kinds@.len() - i,
    {
        let k = &kinds[i];
        let mut j: usize = 0;
        let mut found = false;
        while j < k.extensions.len()
            invariant
                j <= k.extensions@.len(),
                chars@ == lower@,
                found == (exists|m: int| 0 <= m < j && ends_with(lower@, seq!['.'] + #[trigger] texts(k.extensions@)[m])),
            decreases k.extensions@.len() - j,
        {
            if ends_with_dot(&chars, k.extensions[j].as_str()) {
                found = true;
            }
            proof {
                assert(texts(k.extensions@)[j as int] == k.extensions@[j as int]@);
            }
            j = j + 1;
        }
        proof {
            assert(ks[i as int] == k@);
            assert(ks[i as int].extensions == texts(k.extensions@));
            if claims(ks[i as int], lower@) {
                let m = choose|m: int| 0 <= m < ks[i as int].extensions.len() && ends_with(lower@, seq!['.'] + #[trigger] ks[i as int].extensions[m]);
                assert(ends_with(lower@, seq!['.'] + texts(k.extensions@)[m]));
            }
            assert(found == claims(ks[i as int], lower@));
        }
        if found {
            return Some(i);
        }
        i = i + 1;
    }
    None
}

/// Whether `r` is what matching `lower` against `ks` finds.
pub open spec fn kind_found(ks: Seq<ImportKindM>, lower: Seq<char>, r: Option<ImportKind>) -> bool {
    match first_claiming(ks, lower, 0) {
        None => r is None,
        Some(i) => r matches Some(k) && k@ == ks[i],
    }
}

/// The kind a path belongs to, or `None` for a file Studio has no way in for.
///
/// First match wins, which is why `json` sits under `vector`: `from_geo` is what reads it, and no
/// other kind claims it. Case does not matter: the path is compared in lower case.
pub fn kind_for(path: &str) -> (r: Option<ImportKind>)
    ensures
        kind_found(built_kinds(), lowercase_of(path@), r),
{
    let lower = to_lowercase(path);
    let mut all = kinds();
    let ghost ks = kinds_model(all@);
    proof {
        lemma_first_claiming_bound(ks, lowercase_of(path@), 0);
    }
    let r = match kind_index_for(&all, lower.as_str()) {
        Some(i) => {
            proof {
                assert(first_claiming(ks, lowercase_of(path@), 0) == Some(i as int));
                assert(i < all@.len());
            }
            let k = all.remove(i);
            proof {
                assert(k@ == ks[i as int]);
            }
            Some(k)
        },
        None => None,
    };
    proof {
        assert(kind_found(built_kinds(), lowercase_of(path@), r));
    }
    r
}

/// Whether `s` starts with `prefix`.
fn starts_with_text(s: &Vec<char>, prefix: &str) -> (b: bool)
    ensures
        b == starts_with(s@, prefix@),
{
    let p = chars_of(prefix);
    if s.len() < p.len() {
        return false;
    }
    let mut i: usize = 0;
    while i < p.len()
        invariant
            i <= p@.len() <= s@.len(),
            p@ == prefix@,
            forall|j: int| 0 <= j < i ==> s@[j] == p@[j],
        decreases p@.len() - i,
    {
        if s[i] != p[i] {
            proof {
                assert(s@.take(p@.len() as int)[i as int] != p@[i as int]);
            }
            return false;
        }
        i = i + 1;
    }
    proof {
        assert(s@.take(p@.len() as int) =~= p@);
    }
    true
}

/// Whether a text, already in lower case, names somewhere on the web.
pub fn names_web(lower: &str) -> (b: bool)
    ensures
        b == (starts_with(lower@, "http://"@) || starts_with(lower@, "https://"@)),
{
    let chars = chars_of(lower);
    starts_with_text(&chars, "http://") || starts_with_text(&chars, "https://")
}

/// Whether a source is somewhere on the network rather than on this machine.
pub fn is_remote(source: &str) -> (b: bool)
    ensures
        b == (starts_with(lowercase_of(source@), "http://"@) || starts_with(lowercase_of(source@), "https://"@)),
{
    let lower = to_lowercase(source);
    names_web(lower.as_str())
}

// ---------------------------------------------------------------------------------------------
// Pipeline files
// ---------------------------------------------------------------------------------------------

/// The extensions of the catalogue's pipeline entry.
pub open spec fn pipeline_exts() -> Seq<Seq<char>> {
    catalogue()[5].extensions
}

/// The extensions a pipeline file may have - one place, so a dialog's filter and a command's
/// refusal cannot disagree about what a `.vpl` is.
pub fn pipeline_extensions() -> (r: Vec<&'static str>)
    ensures
        strs(r@) == pipeline_exts(),
{
    let mut cs = candidates();
    let ghost cm = cs@.map_values(|x: Candidate| x@);
    proof {
        assert(catalogue().len() == 6);
        assert(cm.len() == 6);
        assert(cm[5] == cs@[5]@);
    }
    let entry = cs.remove(5);
    entry.extensions
}

/// ASCII case folded away, as `eq_ignore_ascii_case` compares.
pub open spec fn fold(s: Seq<char>) -> Seq<char> {
    s.map_values(|c: char| crate::text::ascii_lower(c))
}

/// Whether `path` names a pipeline file: its extension is one of [`pipeline_exts`], ignoring
/// ASCII case.
pub open spec fn names_pipeline(path: Seq<char>) -> bool {
    match crate::paths::file_name(path) {
        None => false,
        Some(name) => match crate::paths::extension(name) {
            None => false,
            Some(ext) => exists|i: int| 0 <= i < pipeline_exts().len() && fold(ext) == fold(#[trigger] pipeline_exts()[i]),
        },
    }
}

/// Whether `a` and `b` agree but for ASCII case.
fn same_ignoring_ascii_case(a: &Vec<char>, from: usize, to: usize, b: &str) -> (r: bool)
    requires
        from <= to <= a@.len(),
    ensures
        r == (fold(a@.subrange(from as int, to as int)) == fold(b@)),
{
    let y = chars_of(b);
    if to - from != y.len() {
        proof {
            assert(fold(a@.subrange(from as int, to as int)).len() != fold(b@).len());
        }
        return false;
    }
    let mut i: usize = 0;
    while i < y.len()
        invariant
            i <= y@.len(),
            y@ == b@,
            to - from == y@.len(),
            from <= to <= a@.len(),
            forall|j: int| 0 <= j < i ==> crate::text::ascii_lower(a@[from + j]) == crate::text::ascii_lower(y@[j]),
        decreases y@.len() - i,
    {
        if crate::text::to_ascii_lower(a[from + i]) != crate::text::to_ascii_lower(y[i]) {
            proof {
                assert(fold(a@.subrange(from as int, to as int))[i as int] != fold(b@)[i as int]);
            }
            return false;
        }
        i = i + 1;
    }
    proof {
        assert(fold(a@.subrange(from as int, to as int)) =~= fold(b@));
    }
    true
}

/// Whether `path` names a pipeline file.
///
/// The one place that decides: a dialog's filter, a command's refusal, and the writer's own guard
/// all ask this rather than each spelling out what a `.vpl` is.
pub fn is_pipeline(path: &str) -> (b: bool)
    ensures
        b == names_pipeline(path@),
{
    let chars = chars_of(path);
    let (start, end) = match crate::paths::file_name_bounds(&chars) {
        None => return false,
        Some(bounds) => bounds,
    };
    let ghost name = chars@.subrange(start as int, end as int);
    let dot = match crate::paths::find_last_dot(&chars, start, end) {
        Some(d) if d > 0 => d,
        _ => return false,
    };
    proof {
        assert(name.skip(dot + 1) =~= chars@.subrange(start + dot + 1, end as int));
        assert(crate::paths::extension(name) == Some(chars@.subrange(start + dot + 1, end as int)));
    }
    let allowed = pipeline_extensions();
    let mut i: usize = 0;
    while i < allowed.len()
        invariant
            i <= allowed@.len(),
            strs(allowed@) == pipeline_exts(),
            start + dot + 1 <= end <= chars@.len(),
            chars@ == path@,
            crate::paths::file_name(path@) == Some(chars@.subrange(start as int, end as int)),
            crate::paths::extension(chars@.subrange(start as int, end as int)) == Some(chars@.subrange(start + dot + 1, end as int)),
            forall|j: int| 0 <= j < i ==> fold(chars@.subrange(start + dot + 1, end as int)) != fold(#[trigger] pipeline_exts()[j]),
        decreases allowed@.len() - i,
    {
        proof {
            assert(pipeline_exts()[i as int] == allowed@[i as int]@);
        }
        if same_ignoring_ascii_case(&chars, start + dot + 1, end, allowed[i]) {
            return true;
        }
        i = i + 1;
    }
    false
}

// ---------------------------------------------------------------------------------------------
// The node a chosen file becomes
// ---------------------------------------------------------------------------------------------

/// What a CSV's header lets the node say beyond its filename: the coordinate columns when both are
/// known, and the delimiter when it is not the `,` that `from_csv` assumes.
pub open spec fn csv_extra(lon: Option<Seq<char>>, lat: Option<Seq<char>>, delimiter: Seq<char>) -> Seq<(Seq<char>, Seq<char>)> {
    (if lon is Some && lat is Some {
        seq![("lon_column"@, lon->0), ("lat_column"@, lat->0)]
    } else {
        seq![]
    }) + if delimiter != ","@ {
        seq![("delimiter"@, delimiter)]
    } else {
        seq![]
    }
}

/// What a header said, as the node uses it.
pub open spec fn columns_model(columns: Option<&Columns>) -> Option<(Option<Seq<char>>, Option<Seq<char>>, Seq<char>)> {
    match columns {
        Some(c) => Some((opt(c.lon), opt(c.lat), c.delimiter@)),
        None => None,
    }
}

/// What [`read_node_given`] writes for a kind whose operation is `op`, given the parameter the
/// source answers.
pub open spec fn read_node_text(op: Seq<char>, param: Seq<char>, path: Seq<char>, columns: Option<(Option<Seq<char>>, Option<Seq<char>>, Seq<char>)>) -> Seq<char> {
    match columns {
        Some((lon, lat, delimiter)) if op == "from_csv"@ => node_text(op, seq![(param, path)] + csv_extra(lon, lat, delimiter)),
        _ => node_text(op, seq![(param, path)]),
    }
}

/// The VPL a chosen file becomes, with whatever the file itself can answer already filled in:
/// `columns` is what its header said, when it could be read.
///
/// For most kinds this is [`crate::vpl::read_node`] and nothing more. For a CSV it is the
/// difference between an import that works and a form with two required fields and no clue what
/// goes in them. A header that could not be read leaves a node with the parameters unset, which
/// is exactly the state the import card said to expect.
pub fn read_node_given(kind: &ImportKind, path: &str, columns: Option<&Columns>) -> (text: String)
    ensures
        kind@.operation is None ==> text@.len() == 0,
        kind@.operation is Some ==> forall|ops: Seq<OperationM>| #[trigger] this_build(ops) ==> text@ == read_node_text(
            kind@.operation->0,
            source_param(ops, kind@.operation->0),
            path@,
            columns_model(columns),
        ),
        kind@.operation matches Some(op) ==> (fixed_param(op) matches Some(param)
            ==> text@ == read_node_text(op, param, path@, columns_model(columns))),
{
    let operation = match &kind.operation {
        None => return String::new(),
        Some(op) => op.as_str(),
    };
    proof {
        reveal_strlit("from_csv");
        reveal_strlit(",");
        assert(kind@.operation == Some(operation@));
    }
    let is_csv = same_text(operation, "from_csv");
    let columns = match columns {
        Some(c) if is_csv => c,
        _ => {
            let none: Vec<(&str, &str)> = Vec::new();
            let text = read_node_with(operation, path, none.as_slice());
            proof {
                assert(pairs(none@) =~= Seq::<(Seq<char>, Seq<char>)>::empty());
                let cm = columns_model(columns);
                assert forall|ops: Seq<OperationM>| #[trigger] this_build(ops)
                    implies text@ == read_node_text(operation@, source_param(ops, operation@), path@, cm) by {
                    assert(seq![(source_param(ops, operation@), path@)] + pairs(none@) =~= seq![(source_param(ops, operation@), path@)]);
                }
                if fixed_param(operation@) is Some {
                    let param = fixed_param(operation@)->0;
                    assert(seq![(param, path@)] + pairs(none@) =~= seq![(param, path@)]);
                }
                assert(kind@.operation->0 == operation@);
            }
            return text;
        },
    };
    let mut extra: Vec<(&str, &str)> = Vec::new();
    match (&columns.lon, &columns.lat) {
        (Some(lon), Some(lat)) => {
            extra.push(("lon_column", lon.as_str()));
            extra.push(("lat_column", lat.as_str()));
        },
        _ => {},
    }
    if !same_text(columns.delimiter.as_str(), ",") {
        extra.push(("delimiter", columns.delimiter.as_str()));
    }
    proof {
        assert(pairs(extra@) =~= csv_extra(opt(columns.lon), opt(columns.lat), columns.delimiter@));
    }
    let text = read_node_with(operation, path, extra.as_slice());
    proof {
        let cm = Some((opt(columns.lon), opt(columns.lat), columns.delimiter@));
        assert(cm == columns_model(Some(columns)));
        assert(kind@.operation->0 == operation@);
    }
    text
}

// ---------------------------------------------------------------------------------------------
// Opening a source
// ---------------------------------------------------------------------------------------------

/// What a document under a `.json` turned out to hold.
///
/// Three formats share the extension, and the only thing that can tell them apart is looking
/// inside the file.
#[derive(Debug, Clone, Copy, PartialEq, Eq, Structural)]
pub enum JsonShape {
    /// A TileJSON: tiles someone else is serving.
    TileJson,
    /// GeoJSON, which is what `.json` resolves to on its name alone.
    GeoJson,
    /// A MapLibre style. Not data at all - it describes how to draw somebody else's.
    Style,
    /// None of the three, or not JSON, or more of it than is worth reading.
    Unknown,
}

/// What the top level of a JSON document says about what it is.
#[derive(Debug, Clone)]
pub struct JsonHead {
    /// Whether it has a `tilejson` key.
    pub has_tilejson: bool,
    /// The first entry of `tiles`, when `tiles` is a list that starts with a string.
    pub first_tile: Option<String>,
    /// `type`, when it is a string.
    pub kind_name: Option<String>,
    /// `version`, when it is a whole number that fits in 64 bits.
    pub version: Option<u64>,
    /// Whether it has a `layers` key.
    pub has_layers: bool,
}

pub ghost struct JsonHeadM {
    pub has_tilejson: bool,
    pub first_tile: Option<Seq<char>>,
    pub kind_name: Option<Seq<char>>,
    pub version: Option<u64>,
    pub has_layers: bool,
}

impl View for JsonHead {
    type V = JsonHeadM;

    open spec fn view(&self) -> JsonHeadM {
        JsonHeadM {
            has_tilejson: self.has_tilejson,
            first_tile: opt(self.first_tile),
            kind_name: opt(self.kind_name),
            version: self.version,
            has_layers: self.has_layers,
        }
    }
}

/// What `serde_json` reads at the top of `text`: `None` unless it is a JSON object.
pub uninterp spec fn json_head_of(text: Seq<char>) -> Option<JsonHeadM>;

/// `serde_json::from_str` into a `serde_json::Value`, then the five facts read off the object it
/// holds with `serde_json`'s own accessors. What a JSON text parses to depends on the text alone,
/// so the answer is named rather than stated; a text that is not a JSON object gives `None`.
#[verifier::external_body]
fn read_json_head(text: &str) -> (r: Option<JsonHead>)
    ensures
        match r {
            Some(h) => json_head_of(text@) == Some(h@),
            None => json_head_of(text@) is None,
        },
{
    let Ok(serde_json::Value::Object(o)) = serde_json::from_str::<serde_json::Value>(text) else { return None };
    Some(JsonHead {
        has_tilejson: o.contains_key("tilejson"),
        first_tile: o.get("tiles").and_then(|t| t.as_array()).and_then(|t| t.first()).and_then(|t| t.as_str()).map(str::to_string),
        kind_name: o.get("type").and_then(|t| t.as_str()).map(str::to_string),
        version: o.get("version").and_then(|v| v.as_u64()),
        has_layers: o.contains_key("layers"),
    })
}

/// Whether `t` holds all three of `{z}`, `{x}` and `{y}`: a tile URL template.
pub open spec fn templated(t: Seq<char>) -> bool {
    &&& crate::vpl::validate::find_from(t, seq!['{', 'z', '}'], 0) is Some
    &&& crate::vpl::validate::find_from(t, seq!['{', 'x', '}'], 0) is Some
    &&& crate::vpl::validate::find_from(t, seq!['{', 'y', '}'], 0) is Some
}

/// The GeoJSON object types.
pub open spec fn geo_type(t: Seq<char>) -> bool {
    ||| t == "FeatureCollection"@
    ||| t == "Feature"@
    ||| t == "GeometryCollection"@
    ||| t == "Point"@
    ||| t == "MultiPoint"@
    ||| t == "LineString"@
    ||| t == "MultiLineString"@
    ||| t == "Polygon"@
    ||| t == "MultiPolygon"@
}

/// What a document whose top level says `head` is: a TileJSON when it has a `tilejson` key or its
/// first `tiles` entry is a URL template; else GeoJSON when `type` is a GeoJSON type; else a style
/// when `version` is 8 and it has `layers`; else unknown - and unknown when it is no JSON object.
pub open spec fn shape_of(head: Option<JsonHeadM>) -> JsonShape {
    match head {
        None => JsonShape::Unknown,
        Some(h) => if h.has_tilejson || (h.first_tile matches Some(t) && templated(t)) {
            JsonShape::TileJson
        } else if h.kind_name matches Some(t) && geo_type(t) {
            JsonShape::GeoJson
        } else if h.version == Some(8u64) && h.has_layers {
            JsonShape::Style
        } else {
            JsonShape::Unknown
        },
    }
}

fn holds(t: &Vec<char>, a: char, b: char, c: char) -> (r: bool)
    ensures
        r == crate::vpl::validate::find_from(t@, seq![a, b, c], 0) is Some,
{
    let mut p: Vec<char> = Vec::new();
    p.push(a);
    p.push(b);
    p.push(c);
    proof {
        assert(p@ =~= seq![a, b, c]);
    }
    crate::vpl::validate::find(t, &p, 0).is_some()
}

/// What a document whose top level says `head` is; see [`shape_of`].
pub fn shape_from(head: &Option<JsonHead>) -> (r: JsonShape)
    ensures
        r == shape_of(match head { Some(h) => Some(h@), None => None }),
{
    let h = match head {
        None => return JsonShape::Unknown,
        Some(h) => h,
    };
    let tiles = match &h.first_tile {
        Some(t) => {
            let cs = chars_of(t.as_str());
            holds(&cs, '{', 'z', '}') && holds(&cs, '{', 'x', '}') && holds(&cs, '{', 'y', '}')
        },
        None => false,
    };
    if h.has_tilejson || tiles {
        return JsonShape::TileJson;
    }
    let geo = match &h.kind_name {
        Some(t) => {
            let t = t.as_str();
            proof {
                reveal_strlit("FeatureCollection");
                reveal_strlit("Feature");
                reveal_strlit("GeometryCollection");
                reveal_strlit("Point");
                reveal_strlit("MultiPoint");
                reveal_strlit("LineString");
                reveal_strlit("MultiLineString");
                reveal_strlit("Polygon");
                reveal_strlit("MultiPolygon");
            }
            same_text(t, "FeatureCollection") || same_text(t, "Feature") || same_text(t, "GeometryCollection")
                || same_text(t, "Point") || same_text(t, "MultiPoint") || same_text(t, "LineString")
                || same_text(t, "MultiLineString") || same_text(t, "Polygon") || same_text(t, "MultiPolygon")
        },
        None => false,
    };
    if geo {
        return JsonShape::GeoJson;
    }
    if h.version == Some(8u64) && h.has_layers {
        return JsonShape::Style;
    }
    JsonShape::Unknown
}

/// What a JSON document is, read from the document rather than from its name.
///
/// Parsed rather than scanned for a substring: a GeoJSON feature is free to carry a property called
/// `tilejson`, and what a file *is* should not be decided by what it happens to contain.
pub fn json_shape(text: &str) -> (r: JsonShape)
    ensures
        r == shape_of(json_head_of(text@)),
{
    shape_from(&read_json_head(text))
}

/// What Studio will do with a chosen source.
///
/// Two answers rather than one, because "no" and "no, and here is why" are different things to a
/// person who has just picked a file. A refusal names what the document turned out to be.
#[derive(Debug)]
pub struct Opening {
    /// How to open it, or `None`.
    pub kind: Option<ImportKind>,
    /// Why not, when Studio knows what the file is and still cannot open it.
    pub refused: Option<String>,
}

pub open spec fn refusal_tilejson() -> Seq<char> {
    "This is a TileJSON: it describes tiles a server is publishing, rather than holding any. Studio reads those from the address they are served at, not from a copy on disk."@
}

pub open spec fn refusal_style() -> Seq<char> {
    "This is a MapLibre style, not data. It describes how to draw tiles that are somewhere else - open those, and load this under the style pane."@
}

/// The first of `ks`, from the `i`-th on, whose id is `id`.
pub open spec fn first_with_id(ks: Seq<ImportKindM>, id: Seq<char>, i: int) -> Option<int>
    decreases ks.len() - i,
{
    if i < 0 || i >= ks.len() {
        None
    } else if ks[i].id == id {
        Some(i)
    } else {
        first_with_id(ks, id, i + 1)
    }
}

/// Whether `r` is the kind called `id` among `ks`, or `None` where there is none.
pub open spec fn kind_called(ks: Seq<ImportKindM>, id: Seq<char>, r: Option<ImportKind>) -> bool {
    match first_with_id(ks, id, 0) {
        None => r is None,
        Some(i) => r matches Some(k) && k@ == ks[i],
    }
}

proof fn lemma_first_with_id_bound(ks: Seq<ImportKindM>, id: Seq<char>, i: int)
    ensures
        first_with_id(ks, id, i) matches Some(j) ==> 0 <= i <= j < ks.len(),
    decreases ks.len() - i,
{
    if 0 <= i < ks.len() && ks[i].id != id {
        lemma_first_with_id_bound(ks, id, i + 1);
    }
}

/// The kind with id `id`, among the kinds this build offers.
pub fn kind_by_id(id: &str) -> (r: Option<ImportKind>)
    ensures
        kind_called(built_kinds(), id@, r),
{
    let mut all = kinds();
    let ghost ks = kinds_model(all@);
    proof {
        lemma_first_with_id_bound(ks, id@, 0);
    }
    let mut i: usize = 0;
    while i < all.len()
        invariant
            i <= all@.len(),
            ks == kinds_model(all@),
            ks == built_kinds(),
            first_with_id(ks, id@, 0) == first_with_id(ks, id@, i as int),
        decreases all@.len() - i,
    {
        proof {
            assert(ks[i as int] == all@[i as int]@);
        }
        if same_text(all[i].id.as_str(), id) {
            let k = all.remove(i);
            proof {
                assert(k@ == ks[i as int]);
                assert(first_with_id(ks, id@, i as int) == Some(i as int));
                assert(kind_called(built_kinds(), id@, Some(k)));
            }
            return Some(k);
        }
        i = i + 1;
    }
    proof {
        assert(kind_called(built_kinds(), id@, None));
    }
    None
}

/// Whether opening `source` needs its head read first: a local `.json`, the one extension that
/// two kinds share. A remote one is a tile server's address and is never downloaded to be read.
pub fn needs_sniff(source: &str) -> (b: bool)
    ensures
        b == (ends_with(lowercase_of(source@), ".json"@)
            && !(starts_with(lowercase_of(source@), "http://"@) || starts_with(lowercase_of(source@), "https://"@))),
{
    let lower = to_lowercase(source);
    let lower_chars = chars_of(lower.as_str());
    let json = ends_with_dot(&lower_chars, "json");
    proof {
        reveal_strlit("json");
        reveal_strlit(".json");
        assert(seq!['.'] + "json"@ =~= ".json"@);
    }
    json && !is_remote(source)
}

/// How to open a source, given what reading its head showed: `shape` is `None` when it was not
/// read or could not be.
///
/// **Only `.json` is ambiguous**, so only a `.json`'s shape counts; every other extension belongs to
/// exactly one kind. A sniff that failed falls back to the name's answer: being unable to read the
/// head is not a reason to refuse a file that would have opened before.
pub fn opening_given(source: &str, shape: Option<JsonShape>) -> (o: Opening)
    ensures
        ({
            let lower = lowercase_of(source@);
            let json = ends_with(lower, ".json"@);
            let remote = starts_with(lower, "http://"@) || starts_with(lower, "https://"@);
            if json && shape == Some(JsonShape::TileJson) && remote {
                o.refused is None && kind_called(built_kinds(), "tilejson"@, o.kind)
            } else if json && shape == Some(JsonShape::TileJson) {
                o.kind is None && (o.refused matches Some(m) && m@ == refusal_tilejson())
            } else if json && shape == Some(JsonShape::Style) {
                o.kind is None && (o.refused matches Some(m) && m@ == refusal_style())
            } else {
                o.refused is None && kind_found(built_kinds(), lower, o.kind)
            }
        }),
{
    let lower = to_lowercase(source);
    let lower_chars = chars_of(lower.as_str());
    let json = ends_with_dot(&lower_chars, "json");
    proof {
        reveal_strlit("json");
        reveal_strlit(".json");
        assert(seq!['.'] + "json"@ =~= ".json"@);
    }
    let tilejson = json && shape == Some(JsonShape::TileJson);
    if tilejson && is_remote(source) {
        return Opening { kind: kind_by_id("tilejson"), refused: None };
    }
    if tilejson {
        return Opening {
            kind: None,
            refused: Some(
                owned(
                    "This is a TileJSON: it describes tiles a server is publishing, rather than holding any. Studio reads those from the address they are served at, not from a copy on disk.",
                ),
            ),
        };
    }
    if json && shape == Some(JsonShape::Style) {
        return Opening {
            kind: None,
            refused: Some(
                owned(
                    "This is a MapLibre style, not data. It describes how to draw tiles that are somewhere else - open those, and load this under the style pane.",
                ),
            ),
        };
    }
    Opening { kind: kind_for(source), refused: None }
}

} // verus!
