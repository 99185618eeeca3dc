//! What a parameter *means*, where its type alone does not say.
//!
//! The pipeline runner describes each parameter by its type, which is enough to decide a control
//! for most of them. For the rest - a path, a column of the input, a zoom level, an expression in
//! some language - this table says what the value refers to.

use vstd::prelude::*;
use crate::text::same_text;

verus! {

/// Where a field's values come from, when they are names out of the data rather than typed in.
#[derive(Debug, Clone, Copy, PartialEq, Eq)]
pub enum Names {
    /// A column of the delimited file named by this sibling field.
    ColumnOf(&'static str),
    /// A feature property of the vector file named by this sibling field.
    PropertyOf(&'static str),
    /// A layer of the tiles flowing into the node.
    TileLayer,
    /// A feature property of the tiles flowing into the node.
    TileProperty,
}

/// The language an expression field is written in.
#[derive(Debug, Clone, Copy, PartialEq, Eq, Structural)]
pub enum Lang {
    Cel,
    Regex,
    Json,
    Template,
}

/// What a field's value is.
///
/// A numeric range holds whole numbers: every bounded field the table knows is bounded by them.
#[derive(Debug, Clone, Copy, PartialEq, Eq)]
pub enum Role {
    /// A file, with the extensions it may have (none listed: any), and whether a URL will do.
    Path { formats: Formats, urls: bool },
    Url,
    GeoPoint,
    Zoom,
    Range { min: i64, max: i64 },
    Choice(Choices),
    Color,
    Epsg,
    Names(Names),
    Code(Lang),
    Char,
}

/// The extensions a path field accepts, by the kind of file it names.
#[derive(Debug, Clone, Copy, PartialEq, Eq, Structural)]
pub enum Formats {
    Container,
    Geo,
    Csv,
    Tabular,
    Raster,
    GeoJson,
    Json,
    /// Any file at all.
    Any,
}

/// The sets of spellings a choice field offers.
#[derive(Debug, Clone, Copy, PartialEq, Eq, Structural)]
pub enum Choices {
    /// `256` or `512`.
    TileSize,
}

/// The extensions of each kind of file, without the dot.
pub open spec fn format_list(f: Formats) -> Seq<Seq<char>> {
    match f {
        Formats::Container => seq!["versatiles"@, "mbtiles"@, "pmtiles"@, "tar"@],
        Formats::Geo => seq!["geojson"@, "json"@, "ndjson"@, "geojsonl"@, "ndgeojson"@, "geojsonseq"@, "shp"@],
        Formats::Csv => seq!["csv"@],
        Formats::Tabular => seq!["csv"@, "tsv"@],
        Formats::Raster => seq!["tif"@, "tiff"@, "vrt"@, "png"@, "jpg"@, "jpeg"@],
        Formats::GeoJson => seq!["geojson"@, "json"@],
        Formats::Json => seq!["json"@],
        Formats::Any => seq![],
    }
}

impl Formats {
    /// The extensions, without the dot; empty for a field that takes any file.
    pub fn extensions(self) -> (r: Vec<&'static str>)
        ensures
            r@.map_values(|s: &str| s@) == format_list(self),
    {
        let r = match self {
            Formats::Container => vec!["versatiles", "mbtiles", "pmtiles", "tar"],
            Formats::Geo => vec!["geojson", "json", "ndjson", "geojsonl", "ndgeojson", "geojsonseq", "shp"],
            Formats::Csv => vec!["csv"],
            Formats::Tabular => vec!["csv", "tsv"],
            Formats::Raster => vec!["tif", "tiff", "vrt", "png", "jpg", "jpeg"],
            Formats::GeoJson => vec!["geojson", "json"],
            Formats::Json => vec!["json"],
            Formats::Any => vec![],
        };
        proof {
            assert(r@.map_values(|s: &str| s@) =~= format_list(self));
        }
        r
    }
}

impl Choices {
    /// Every accepted spelling.
    pub fn options(self) -> (r: Vec<&'static str>)
        ensures
            self == Choices::TileSize ==> r@.map_values(|s: &str| s@) == seq!["256"@, "512"@],
    {
        let r = vec!["256", "512"];
        proof {
            assert(r@.map_values(|s: &str| s@) =~= seq!["256"@, "512"@]);
        }
        r
    }
}

pub ghost enum NamesM {
    ColumnOf(Seq<char>),
    PropertyOf(Seq<char>),
    TileLayer,
    TileProperty,
}

pub ghost enum RoleM {
    Path { formats: Formats, urls: bool },
    Url,
    GeoPoint,
    Zoom,
    Range { min: i64, max: i64 },
    Choice(Choices),
    Color,
    Epsg,
    Names(NamesM),
    Code(Lang),
    Char,
}

impl View for Names {
    type V = NamesM;

    open spec fn view(&self) -> NamesM {
        match self {
            Names::ColumnOf(f) => NamesM::ColumnOf(f@),
            Names::PropertyOf(f) => NamesM::PropertyOf(f@),
            Names::TileLayer => NamesM::TileLayer,
            Names::TileProperty => NamesM::TileProperty,
        }
    }
}

impl View for Role {
    type V = RoleM;

    open spec fn view(&self) -> RoleM {
        match self {
            Role::Path { formats, urls } => RoleM::Path { formats: *formats, urls: *urls },
            Role::Url => RoleM::Url,
            Role::GeoPoint => RoleM::GeoPoint,
            Role::Zoom => RoleM::Zoom,
            Role::Range { min, max } => RoleM::Range { min: *min, max: *max },
            Role::Choice(options) => RoleM::Choice(*options),
            Role::Color => RoleM::Color,
            Role::Epsg => RoleM::Epsg,
            Role::Names(n) => RoleM::Names(n@),
            Role::Code(l) => RoleM::Code(*l),
            Role::Char => RoleM::Char,
        }
    }
}

/// Every operation the table knows, with each of its fields that has a role, in the order they are
/// listed.
pub open spec fn role_table() -> Seq<(Seq<char>, Seq<(Seq<char>, RoleM)>)> {
    seq![
        ("from_color"@, seq![("tile_size"@, RoleM::Choice(Choices::TileSize))]),
        ("from_container"@, seq![("filename"@, RoleM::Path { formats: Formats::Container, urls: true }), ("ssh_identity"@, RoleM::Path { formats: Formats::Any, urls: false })]),
        ("from_csv"@, seq![("filename"@, RoleM::Path { formats: Formats::Csv, urls: false }), ("lon_column"@, RoleM::Names(NamesM::ColumnOf("filename"@))), ("lat_column"@, RoleM::Names(NamesM::ColumnOf("filename"@))), ("id_column"@, RoleM::Names(NamesM::ColumnOf("filename"@))), ("delimiter"@, RoleM::Char), ("min_zoom"@, RoleM::Zoom), ("max_zoom"@, RoleM::Zoom), ("properties_include"@, RoleM::Names(NamesM::ColumnOf("filename"@))), ("properties_exclude"@, RoleM::Names(NamesM::ColumnOf("filename"@)))]),
        ("from_gdal_dem"@, seq![("filename"@, RoleM::Path { formats: Formats::Raster, urls: false }), ("crs"@, RoleM::Epsg), ("tile_size"@, RoleM::Choice(Choices::TileSize)), ("level_max"@, RoleM::Zoom), ("level_min"@, RoleM::Zoom), ("cutline"@, RoleM::Path { formats: Formats::GeoJson, urls: false })]),
        ("from_gdal_raster"@, seq![("filename"@, RoleM::Path { formats: Formats::Raster, urls: false }), ("tile_size"@, RoleM::Choice(Choices::TileSize)), ("level_max"@, RoleM::Zoom), ("level_min"@, RoleM::Zoom), ("cutline"@, RoleM::Path { formats: Formats::GeoJson, urls: false }), ("crs"@, RoleM::Epsg)]),
        ("from_geo"@, seq![("filename"@, RoleM::Path { formats: Formats::Geo, urls: false }), ("min_zoom"@, RoleM::Zoom), ("max_zoom"@, RoleM::Zoom), ("properties_include"@, RoleM::Names(NamesM::PropertyOf("filename"@))), ("properties_exclude"@, RoleM::Names(NamesM::PropertyOf("filename"@)))]),
        ("from_grid"@, seq![("epsg"@, RoleM::Epsg), ("id_template"@, RoleM::Code(Lang::Template))]),
        ("from_h3"@, seq![("resolution"@, RoleM::Range { min: 0, max: 15 })]),
        ("from_tile"@, seq![("filename"@, RoleM::Path { formats: Formats::Any, urls: false })]),
        ("from_tilejson"@, seq![("url"@, RoleM::Url)]),
        ("dem_overview"@, seq![("level"@, RoleM::Zoom)]),
        ("dem_tile_resize"@, seq![("tile_size"@, RoleM::Choice(Choices::TileSize))]),
        ("filter"@, seq![("level_min"@, RoleM::Zoom), ("level_max"@, RoleM::Zoom), ("filename"@, RoleM::Path { formats: Formats::Container, urls: false })]),
        ("meta_update"@, seq![("center"@, RoleM::GeoPoint), ("fillzoom"@, RoleM::Zoom), ("tilejson"@, RoleM::Code(Lang::Json)), ("tilejson_file"@, RoleM::Path { formats: Formats::Json, urls: false }), ("tilejson_update"@, RoleM::Code(Lang::Json)), ("tilejson_update_file"@, RoleM::Path { formats: Formats::Json, urls: false }), ("vector_layers"@, RoleM::Code(Lang::Json)), ("vector_layers_file"@, RoleM::Path { formats: Formats::Json, urls: false })]),
        ("raster_format"@, seq![("effort"@, RoleM::Range { min: 0, max: 100 })]),
        ("raster_flatten"@, seq![("color"@, RoleM::Color)]),
        ("raster_levels"@, seq![("brightness"@, RoleM::Range { min: -255i64, max: 255i64 })]),
        ("raster_mask"@, seq![("geojson"@, RoleM::Path { formats: Formats::GeoJson, urls: false })]),
        ("raster_overscale"@, seq![("level_base"@, RoleM::Zoom), ("level_max"@, RoleM::Zoom)]),
        ("raster_overview"@, seq![("level"@, RoleM::Zoom)]),
        ("raster_tile_resize"@, seq![("tile_size"@, RoleM::Choice(Choices::TileSize))]),
        ("vector_filter_features"@, seq![("layer"@, RoleM::Names(NamesM::TileLayer)), ("expr"@, RoleM::Code(Lang::Cel))]),
        ("vector_filter_layers"@, seq![("filter"@, RoleM::Names(NamesM::TileLayer))]),
        ("vector_filter_properties"@, seq![("regex"@, RoleM::Code(Lang::Regex))]),
        ("vector_overzoom"@, seq![("level_base"@, RoleM::Zoom), ("level_max"@, RoleM::Zoom)]),
        ("vector_update_properties"@, seq![("data_source_path"@, RoleM::Path { formats: Formats::Tabular, urls: false }), ("layer_name"@, RoleM::Names(NamesM::TileLayer)), ("id_field_tiles"@, RoleM::Names(NamesM::TileProperty)), ("id_field_data"@, RoleM::Names(NamesM::ColumnOf("data_source_path"@))), ("field_separator"@, RoleM::Char), ("decimal_separator"@, RoleM::Char)]),
    ]
}

/// The table as values.
pub fn roles() -> (t: Vec<(&'static str, Vec<(&'static str, Role)>)>)
    ensures
        table_model(t@) =~~= role_table(),
{
    let t = vec![
        ("from_color", vec![("tile_size", Role::Choice(Choices::TileSize))]),
        ("from_container", vec![("filename", Role::Path { formats: Formats::Container, urls: true }), ("ssh_identity", Role::Path { formats: Formats::Any, urls: false })]),
        ("from_csv", vec![("filename", Role::Path { formats: Formats::Csv, urls: false }), ("lon_column", Role::Names(Names::ColumnOf("filename"))), ("lat_column", Role::Names(Names::ColumnOf("filename"))), ("id_column", Role::Names(Names::ColumnOf("filename"))), ("delimiter", Role::Char), ("min_zoom", Role::Zoom), ("max_zoom", Role::Zoom), ("properties_include", Role::Names(Names::ColumnOf("filename"))), ("properties_exclude", Role::Names(Names::ColumnOf("filename")))]),
        ("from_gdal_dem", vec![("filename", Role::Path { formats: Formats::Raster, urls: false }), ("crs", Role::Epsg), ("tile_size", Role::Choice(Choices::TileSize)), ("level_max", Role::Zoom), ("level_min", Role::Zoom), ("cutline", Role::Path { formats: Formats::GeoJson, urls: false })]),
        ("from_gdal_raster", vec![("filename", Role::Path { formats: Formats::Raster, urls: false }), ("tile_size", Role::Choice(Choices::TileSize)), ("level_max", Role::Zoom), ("level_min", Role::Zoom), ("cutline", Role::Path { formats: Formats::GeoJson, urls: false }), ("crs", Role::Epsg)]),
        ("from_geo", vec![("filename", Role::Path { formats: Formats::Geo, urls: false }), ("min_zoom", Role::Zoom), ("max_zoom", Role::Zoom), ("properties_include", Role::Names(Names::PropertyOf("filename"))), ("properties_exclude", Role::Names(Names::PropertyOf("filename")))]),
        ("from_grid", vec![("epsg", Role::Epsg), ("id_template", Role::Code(Lang::Template))]),
        ("from_h3", vec![("resolution", Role::Range { min: 0, max: 15 })]),
        ("from_tile", vec![("filename", Role::Path { formats: Formats::Any, urls: false })]),
        ("from_tilejson", vec![("url", Role::Url)]),
        ("dem_overview", vec![("level", Role::Zoom)]),
        ("dem_tile_resize", vec![("tile_size", Role::Choice(Choices::TileSize))]),
        ("filter", vec![("level_min", Role::Zoom), ("level_max", Role::Zoom), ("filename", Role::Path { formats: Formats::Container, urls: false })]),
        ("meta_update", vec![("center", Role::GeoPoint), ("fillzoom", Role::Zoom), ("tilejson", Role::Code(Lang::Json)), ("tilejson_file", Role::Path { formats: Formats::Json, urls: false }), ("tilejson_update", Role::Code(Lang::Json)), ("tilejson_update_file", Role::Path { formats: Formats::Json, urls: false }), ("vector_layers", Role::Code(Lang::Json)), ("vector_layers_file", Role::Path { formats: Formats::Json, urls: false })]),
        ("raster_format", vec![("effort", Role::Range { min: 0, max: 100 })]),
        ("raster_flatten", vec![("color", Role::Color)]),
        ("raster_levels", vec![("brightness", Role::Range { min: -255, max: 255 })]),
        ("raster_mask", vec![("geojson", Role::Path { formats: Formats::GeoJson, urls: false })]),
        ("raster_overscale", vec![("level_base", Role::Zoom), ("level_max", Role::Zoom)]),
        ("raster_overview", vec![("level", Role::Zoom)]),
        ("raster_tile_resize", vec![("tile_size", Role::Choice(Choices::TileSize))]),
        ("vector_filter_features", vec![("layer", Role::Names(Names::TileLayer)), ("expr", Role::Code(Lang::Cel))]),
        ("vector_filter_layers", vec![("filter", Role::Names(Names::TileLayer))]),
        ("vector_filter_properties", vec![("regex", Role::Code(Lang::Regex))]),
        ("vector_overzoom", vec![("level_base", Role::Zoom), ("level_max", Role::Zoom)]),
        ("vector_update_properties", vec![("data_source_path", Role::Path { formats: Formats::Tabular, urls: false }), ("layer_name", Role::Names(Names::TileLayer)), ("id_field_tiles", Role::Names(Names::TileProperty)), ("id_field_data", Role::Names(Names::ColumnOf("data_source_path"))), ("field_separator", Role::Char), ("decimal_separator", Role::Char)]),
    ];
    proof {
        assert(table_model(t@)[0].1 =~~= role_table()[0].1);
        assert(table_model(t@)[0] =~~= role_table()[0]);
        assert(table_model(t@)[1].1 =~~= role_table()[1].1);
        assert(table_model(t@)[1] =~~= role_table()[1]);
        assert(table_model(t@)[2].1 =~~= role_table()[2].1);
        assert(table_model(t@)[2] =~~= role_table()[2]);
        assert(table_model(t@)[3].1 =~~= role_table()[3].1);
        assert(table_model(t@)[3] =~~= role_table()[3]);
        assert(table_model(t@)[4].1 =~~= role_table()[4].1);
        assert(table_model(t@)[4] =~~= role_table()[4]);
        assert(table_model(t@)[5].1 =~~= role_table()[5].1);
        assert(table_model(t@)[5] =~~= role_table()[5]);
        assert(table_model(t@)[6].1 =~~= role_table()[6].1);
        assert(table_model(t@)[6] =~~= role_table()[6]);
        assert(table_model(t@)[7].1 =~~= role_table()[7].1);
        assert(table_model(t@)[7] =~~= role_table()[7]);
        assert(table_model(t@)[8].1 =~~= role_table()[8].1);
        assert(table_model(t@)[8] =~~= role_table()[8]);
        assert(table_model(t@)[9].1 =~~= role_table()[9].1);
        assert(table_model(t@)[9] =~~= role_table()[9]);
        assert(table_model(t@)[10].1 =~~= role_table()[10].1);
        assert(table_model(t@)[10] =~~= role_table()[10]);
        assert(table_model(t@)[11].1 =~~= role_table()[11].1);
        assert(table_model(t@)[11] =~~= role_table()[11]);
        assert(table_model(t@)[12].1 =~~= role_table()[12].1);
        assert(table_model(t@)[12] =~~= role_table()[12]);
        assert(table_model(t@)[13].1 =~~= role_table()[13].1);
        assert(table_model(t@)[13] =~~= role_table()[13]);
        assert(table_model(t@)[14].1 =~~= role_table()[14].1);
        assert(table_model(t@)[14] =~~= role_table()[14]);
        assert(table_model(t@)[15].1 =~~= role_table()[15].1);
        assert(table_model(t@)[15] =~~= role_table()[15]);
        assert(table_model(t@)[16].1 =~~= role_table()[16].1);
        assert(table_model(t@)[16] =~~= role_table()[16]);
        assert(table_model(t@)[17].1 =~~= role_table()[17].1);
        assert(table_model(t@)[17] =~~= role_table()[17]);
        assert(table_model(t@)[18].1 =~~= role_table()[18].1);
        assert(table_model(t@)[18] =~~= role_table()[18]);
        assert(table_model(t@)[19].1 =~~= role_table()[19].1);
        assert(table_model(t@)[19] =~~= role_table()[19]);
        assert(table_model(t@)[20].1 =~~= role_table()[20].1);
        assert(table_model(t@)[20] =~~= role_table()[20]);
        assert(table_model(t@)[21].1 =~~= role_table()[21].1);
        assert(table_model(t@)[21] =~~= role_table()[21]);
        assert(table_model(t@)[22].1 =~~= role_table()[22].1);
        assert(table_model(t@)[22] =~~= role_table()[22]);
        assert(table_model(t@)[23].1 =~~= role_table()[23].1);
        assert(table_model(t@)[23] =~~= role_table()[23]);
        assert(table_model(t@)[24].1 =~~= role_table()[24].1);
        assert(table_model(t@)[24] =~~= role_table()[24]);
        assert(table_model(t@)[25].1 =~~= role_table()[25].1);
        assert(table_model(t@)[25] =~~= role_table()[25]);
        assert(table_model(t@) =~~= role_table());
    }
    t
}

pub open spec fn table_model(t: Seq<(&str, Vec<(&str, Role)>)>) -> Seq<(Seq<char>, Seq<(Seq<char>, RoleM)>)> {
    t.map_values(|e: (&str, Vec<(&str, Role)>)| (e.0@, e.1@.map_values(|f: (&str, Role)| (f.0@, f.1@))))
}

/// The value listed first under `name`, if any entry carries that name.
pub open spec fn first_under<V>(entries: Seq<(Seq<char>, V)>, name: Seq<char>) -> Option<V>
    decreases entries.len(),
{
    if entries.len() == 0 {
        None
    } else if entries[0].0 == name {
        Some(entries[0].1)
    } else {
        first_under(entries.drop_first(), name)
    }
}

/// What the table says a field of an operation means: the first block of the operation, then the
/// first entry for the field in it.
pub open spec fn role_spec(operation: Seq<char>, field: Seq<char>) -> Option<RoleM> {
    match first_under(role_table(), operation) {
        Some(fields) => first_under(fields, field),
        None => None,
    }
}

proof fn lemma_first_under_skip<V>(entries: Seq<(Seq<char>, V)>, name: Seq<char>, i: int)
    requires
        0 <= i < entries.len(),
        entries[i].0 != name,
    ensures
        first_under(entries.skip(i), name) == first_under(entries.skip(i + 1), name),
{
    assert(entries.skip(i).drop_first() =~= entries.skip(i + 1));
}

/// What a field means, or `None` when its type is the whole story.
pub fn role_of(operation: &str, field: &str) -> (r: Option<Role>)
    ensures
        match r {
            Some(role) => role_spec(operation@, field@) == Some(role@),
            None => role_spec(operation@, field@) is None,
        },
{
    let table = roles();
    let ghost tm = table_model(table@);
    assert(tm == role_table());
    assert(tm.skip(0) =~= tm);
    let mut i: usize = 0;
    while i < table.len()
        invariant
            tm == table_model(table@),
            tm =~~= role_table(),
            i <= table.len(),
            first_under(tm, operation@) == first_under(tm.skip(i as int), operation@),
        decreases table.len() - i,
    {
        let (name, fields) = &table[i];
        if same_text(name, operation) {
            assert(tm.skip(i as int)[0].0 == operation@);
            let ghost fm = tm[i as int].1;
            assert(fm == fields@.map_values(|f: (&str, Role)| (f.0@, f.1@)));
            assert(first_under(role_table(), operation@) == Some(fm));
            assert(fm.skip(0) =~= fm);
            let mut j: usize = 0;
            while j < fields.len()
                invariant
                    fm == fields@.map_values(|f: (&str, Role)| (f.0@, f.1@)),
                    j <= fields.len(),
                    first_under(fm, field@) == first_under(fm.skip(j as int), field@),
                    role_spec(operation@, field@) == first_under(fm, field@),
                decreases fields.len() - j,
            {
                let (fname, role) = &fields[j];
                if same_text(fname, field) {
                    assert(fm.skip(j as int)[0] == (field@, role@));
                    assert(first_under(fm.skip(j as int), field@) == Some(role@));
                    return Some(*role);
                }
                proof {
                    lemma_first_under_skip(fm, field@, j as int);
                }
                j = j + 1;
            }
            assert(fm.skip(j as int).len() == 0);
            return None;
        }
        proof {
            lemma_first_under_skip(tm, operation@, i as int);
        }
        i = i + 1;
    }
    assert(tm.skip(i as int).len() == 0);
    None
}

} // verus!
