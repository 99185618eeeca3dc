//! What the operations are, as the pipeline runner registers them.
//!
//! Everything comes straight from the runner's metadata, including each field's documentation, so
//! a new operation appears here with no work at all.

use vstd::prelude::*;
use crate::graphs::{trim_bounds, trimmed, Edge};
use crate::style::text_less;
use super::ast::texts;

verus! {

/// One parameter of an operation.
#[derive(Debug, Clone)]
pub struct FieldInfo {
    pub name: String,
    /// The runner's own documentation for the parameter.
    pub doc: String,
    pub required: bool,
    /// Fed by a `[ … ]` block rather than by a `key=value` pair.
    pub sources: bool,
    /// What the operation does when this parameter is absent, spelled as VPL would write it.
    pub default: Option<String>,
    /// The control a form offers for it.
    pub control: Control,
}

/// One operation.
#[derive(Debug, Clone)]
pub struct OperationInfo {
    pub name: String,
    /// `read` or `transform`: which end of a pipeline it belongs at.
    pub kind: String,
    /// What it does, in a sentence.
    pub summary: String,
    /// Everything else there is to say, minus the parameter list.
    pub details: String,
    pub fields: Vec<FieldInfo>,
}

pub ghost struct FieldM {
    pub name: Seq<char>,
    pub doc: Seq<char>,
    pub required: bool,
    pub sources: bool,
    pub default: Option<Seq<char>>,
    pub control: ControlM,
}

pub ghost struct OperationM {
    pub name: Seq<char>,
    pub kind: Seq<char>,
    pub summary: Seq<char>,
    pub details: Seq<char>,
    pub fields: Seq<FieldM>,
}

impl View for FieldInfo {
    type V = FieldM;

    open spec fn view(&self) -> FieldM {
        FieldM {
            name: self.name@,
            doc: self.doc@,
            required: self.required,
            sources: self.sources,
            default: match self.default {
                Some(d) => Some(d@),
                None => None,
            },
            control: self.control@,
        }
    }
}

impl View for OperationInfo {
    type V = OperationM;

    open spec fn view(&self) -> OperationM {
        OperationM {
            name: self.name@,
            kind: self.kind@,
            summary: self.summary@,
            details: self.details@,
            fields: self.fields@.map_values(|f: FieldInfo| f@),
        }
    }
}

/// The models of a list of operations.
pub open spec fn operations_model(ops: Seq<OperationInfo>) -> Seq<OperationM> {
    ops.map_values(|op: OperationInfo| op@)
}

/// The first operation called `name`.
pub open spec fn find_op(ops: Seq<OperationM>, name: Seq<char>) -> Option<OperationM>
    decreases ops.len(),
{
    if ops.len() == 0 {
        None
    } else if ops[0].name == name {
        Some(ops[0])
    } else {
        find_op(ops.drop_first(), name)
    }
}

/// One parameter as the runner describes it.
#[derive(Debug, Clone)]
pub struct FieldMeta {
    pub name: String,
    pub doc: String,
    /// The Rust type the value parses into, as text: `Option<u8>`, `GeoBBox`, ...
    pub rust_type: String,
    pub required: bool,
    pub sources: bool,
    /// The accepted spellings of an enum-typed parameter; empty for any other.
    pub enum_variants: Vec<String>,
    pub default: Option<String>,
}

/// One operation as the runner describes it.
#[derive(Debug, Clone)]
pub struct OperationMeta {
    pub name: String,
    pub kind: String,
    pub summary: String,
    pub details: String,
    pub fields: Vec<FieldMeta>,
}

/// The operations this build registers, in the order the runner lists them: its read operations,
/// then its transforms. (The runner's GDAL operations are not built in.)
pub open spec fn built_names() -> Seq<Seq<char>> {
    seq![
        "from_color"@, "from_container"@, "from_csv"@, "from_debug"@, "from_geo"@, "from_grid"@, "from_h3"@,
        "from_merged_vector"@, "from_stacked_raster"@, "from_stacked"@, "from_tile"@, "from_tilejson"@,
        "filter"@, "meta_update"@, "remap_coords"@, "dem_overview"@, "dem_quantize"@, "dem_tile_resize"@,
        "raster_flatten"@, "raster_format"@, "raster_levels"@, "raster_mask"@, "raster_overscale"@,
        "raster_overview"@, "raster_tile_resize"@, "vector_filter_features"@, "vector_filter_layers"@,
        "vector_filter_properties"@, "vector_overzoom"@, "vector_repair"@, "vector_update_properties"@,
    ]
}

/// How many of [`built_names`] are read operations: they come first.
pub open spec fn built_reads() -> int {
    12
}

/// The names of `ops`, in order.
pub open spec fn names_of(ops: Seq<OperationM>) -> Seq<Seq<char>> {
    ops.map_values(|o: OperationM| o.name)
}

/// Each parameter's name and whether it is required, in order.
pub open spec fn shape(fields: Seq<FieldM>) -> Seq<(Seq<char>, bool)> {
    fields.map_values(|f: FieldM| (f.name, f.required))
}

/// The parameters of each operation this build registers, by name and whether each is required, in
/// declaration order; `None` for a name it does not register.
pub open spec fn known_shape(name: Seq<char>) -> Option<Seq<(Seq<char>, bool)>> {
    if name == "from_container"@ {
        Some(seq![
            ("filename"@, true), ("ssh_identity"@, false),
        ])
    } else if name == "from_geo"@ {
        Some(seq![
            ("filename"@, true), ("layer_name"@, false), ("min_zoom"@, false), ("max_zoom"@, false),
            ("bbox"@, false), ("properties_include"@, false), ("properties_exclude"@, false),
            ("polygon_min_area"@, false), ("polygon_simplify"@, false), ("line_min_length"@, false),
            ("line_simplify"@, false), ("point_reduction"@, false), ("point_reduction_value"@, false),
            ("compression"@, false), ("max_tile_bytes"@, false), ("ignore_id"@, false),
        ])
    } else if name == "from_tilejson"@ {
        Some(seq![
            ("url"@, true), ("max_retries"@, false), ("max_concurrent_requests"@, false),
        ])
    } else if name == "from_csv"@ {
        Some(seq![
            ("filename"@, true), ("lon_column"@, true), ("lat_column"@, true), ("id_column"@, false),
            ("delimiter"@, false), ("has_header"@, false), ("layer_name"@, false), ("min_zoom"@, false),
            ("max_zoom"@, false), ("bbox"@, false), ("properties_include"@, false),
            ("properties_exclude"@, false), ("point_reduction"@, false), ("point_reduction_value"@, false),
            ("compression"@, false), ("max_tile_bytes"@, false),
        ])
    } else if name == "vector_update_properties"@ {
        Some(seq![
            ("data_source_path"@, true), ("layer_name"@, true), ("id_field_tiles"@, true),
            ("id_field_data"@, true), ("replace_properties"@, false), ("remove_non_matching"@, false),
            ("include_id"@, false), ("field_separator"@, false), ("decimal_separator"@, false),
        ])
    } else if name == "from_color"@ {
        Some(seq![
            ("color"@, false), ("tile_size"@, false), ("format"@, false),
        ])
    } else if name == "from_debug"@ {
        Some(seq![
            ("format"@, false),
        ])
    } else if name == "from_grid"@ {
        Some(seq![
            ("epsg"@, true), ("size"@, true), ("bbox"@, true), ("offset"@, false),
            ("max_cells_per_tile"@, false), ("id_template"@, false), ("id_field"@, false), ("x_field"@, false),
            ("y_field"@, false), ("densify_tolerance"@, false), ("layer_name"@, false),
        ])
    } else if name == "from_h3"@ {
        Some(seq![
            ("resolution"@, true), ("max_cells_per_tile"@, false), ("layer_name"@, false),
            ("id_field"@, false),
        ])
    } else if name == "from_merged_vector"@ {
        Some(seq![
            ("sources"@, true),
        ])
    } else if name == "from_stacked_raster"@ {
        Some(seq![
            ("sources"@, true), ("format"@, false), ("auto_overscale"@, false),
        ])
    } else if name == "from_stacked"@ {
        Some(seq![
            ("sources"@, true),
        ])
    } else if name == "from_tile"@ {
        Some(seq![
            ("filename"@, true),
        ])
    } else if name == "filter"@ {
        Some(seq![
            ("bbox"@, false), ("bbox_border"@, false), ("level_min"@, false), ("level_max"@, false),
            ("filename"@, false),
        ])
    } else if name == "meta_update"@ {
        Some(seq![
            ("attribution"@, false), ("bounds"@, false), ("center"@, false), ("description"@, false),
            ("fillzoom"@, false), ("legend"@, false), ("name"@, false), ("schema"@, false),
            ("tilejson"@, false), ("tilejson_file"@, false), ("tilejson_update"@, false),
            ("tilejson_update_file"@, false), ("vector_layers"@, false), ("vector_layers_file"@, false),
        ])
    } else if name == "remap_coords"@ {
        Some(seq![
            ("flip_x"@, false), ("flip_y"@, false), ("swap_xy"@, false),
        ])
    } else if name == "dem_overview"@ {
        Some(seq![
            ("level"@, false), ("encoding"@, false),
        ])
    } else if name == "dem_quantize"@ {
        Some(seq![
            ("elevation_error"@, false), ("slope_error"@, false), ("encoding"@, false),
        ])
    } else if name == "dem_tile_resize"@ {
        Some(seq![
            ("tile_size"@, true), ("encoding"@, false),
        ])
    } else if name == "raster_flatten"@ {
        Some(seq![
            ("color"@, false),
        ])
    } else if name == "raster_format"@ {
        Some(seq![
            ("format"@, false), ("quality"@, false), ("quality_translucent"@, false), ("effort"@, false),
        ])
    } else if name == "raster_levels"@ {
        Some(seq![
            ("brightness"@, false), ("contrast"@, false), ("gamma"@, false),
        ])
    } else if name == "raster_mask"@ {
        Some(seq![
            ("geojson"@, true), ("buffer"@, false), ("blur"@, false), ("blur_function"@, false),
        ])
    } else if name == "raster_overscale"@ {
        Some(seq![
            ("level_base"@, false), ("level_max"@, false), ("enable_climbing"@, false),
        ])
    } else if name == "raster_overview"@ {
        Some(seq![
            ("level"@, false),
        ])
    } else if name == "raster_tile_resize"@ {
        Some(seq![
            ("tile_size"@, true),
        ])
    } else if name == "vector_filter_features"@ {
        Some(seq![
            ("layer"@, true), ("expr"@, true),
        ])
    } else if name == "vector_filter_layers"@ {
        Some(seq![
            ("filter"@, true), ("invert"@, false),
        ])
    } else if name == "vector_filter_properties"@ {
        Some(seq![
            ("regex"@, true), ("invert"@, false),
        ])
    } else if name == "vector_overzoom"@ {
        Some(seq![
            ("level_base"@, false), ("level_max"@, false), ("enable_climbing"@, false), ("buffer"@, false),
        ])
    } else if name == "vector_repair"@ {
        Some(seq![
            ("drop_offenders"@, false),
        ])
    } else {
        None
    }
}

/// `base` is what this build registers, as far as the library relies on it: every operation of
/// [`built_names`] in that order, the read operations marked `read` and the rest `transform`, and
/// each with exactly the parameters [`known_shape`] gives it.
pub open spec fn registered(base: Seq<OperationM>) -> bool {
    &&& names_of(base) == built_names()
    &&& forall|i: int| 0 <= i < base.len() ==> (#[trigger] base[i]).kind == if i < built_reads() {
        "read"@
    } else {
        "transform"@
    }
    &&& forall|i: int| 0 <= i < base.len() ==> known_shape((#[trigger] base[i]).name) == Some(shape(base[i].fields))
}

/// `ops` are the forms of what this build registers, sorted by name.
pub open spec fn this_build(ops: Seq<OperationM>) -> bool {
    exists|base: Seq<OperationM>| #[trigger] registered(base) && ops == sorted_by_name(base)
}

/// `versatiles_pipeline::all_operation_metadata`: every operation this build registers, read and
/// transform alike, each with its parameters in the order the operation declares them.
///
/// The runner lists its read factories and then its transform factories, each in a fixed order, and
/// gives each parameter of an operation's arguments in declaration order, required exactly when its
/// type is not an `Option` (see [`registered`]). What the contract leaves unsaid is the runner's
/// prose (each summary, detail and parameter documentation) and each parameter's type, variants,
/// default and whether it takes sources.
#[verifier::external_body]
pub fn registry() -> (ops: Vec<OperationMeta>)
    ensures
        registered(metas_model(ops@)),
{
    versatiles_pipeline::all_operation_metadata().into_iter().map(|meta| OperationMeta {
        name: meta.tag_name,
        kind: meta.kind.to_string(),
        summary: meta.summary,
        details: meta.details,
        fields: meta.fields.into_iter().map(|field| FieldMeta {
            name: field.name,
            doc: field.doc,
            rust_type: field.rust_type,
            required: field.is_required,
            sources: field.is_sources,
            enum_variants: field.enum_variants.into_iter().map(|v| v.to_string()).collect(),
            default: field.default,
        }).collect(),
    }).collect()
}

/// The first operation in `ops` called `name`, by position.
pub fn find_operation(ops: &Vec<OperationInfo>, name: &str) -> (r: Option<usize>)
    ensures
        match find_op(operations_model(ops@), name@) {
            None => r is None,
            Some(op) => r matches Some(i) && i < ops@.len() && ops@[i as int]@ == op,
        },
{
    let ghost all = operations_model(ops@);
    let mut i: usize = 0;
    proof {
        assert(all.skip(0) =~= all);
    }
    while i < ops.len()
        invariant
            i <= ops@.len(),
            all == operations_model(ops@),
            find_op(all, name@) == find_op(all.skip(i as int), name@),
        decreases ops@.len() - i,
    {
        proof {
            assert(all.skip(i as int).drop_first() =~= all.skip(i + 1));
            assert(all.skip(i as int)[0] == ops@[i as int]@);
        }
        if crate::text::same_text(ops[i].name.as_str(), name) {
            return Some(i);
        }
        i = i + 1;
    }
    proof {
        assert(all.skip(i as int).len() == 0);
    }
    None
}

// ---------------------------------------------------------------------------------------------
// Controls
// ---------------------------------------------------------------------------------------------

/// The control a form offers for a parameter.
#[derive(Debug, Clone, PartialEq, Eq)]
pub enum Control {
    Text,
    /// Exactly one character.
    Char,
    /// A file on this machine: text, with a file picker beside it.
    Path,
    /// A number, bounded by its integer width where it has one.
    Number { integer: bool, min: Option<u32>, max: Option<u32> },
    Boolean,
    /// An enum, with every accepted spelling.
    Choice { options: Vec<String> },
    /// A list of values, written as a VPL array.
    List,
    /// A fixed-size numeric array: a centre is three.
    Numbers { count: usize },
    /// A colour, written as hex digits.
    Color { hex: bool },
    /// `[west, south, east, north]`: a rectangle the map can draw.
    Bbox,
}

pub ghost enum ControlM {
    Text,
    Char,
    Path,
    Number { integer: bool, min: Option<u32>, max: Option<u32> },
    Boolean,
    Choice(Seq<Seq<char>>),
    List,
    Numbers(usize),
    Color(bool),
    Bbox,
}

impl View for Control {
    type V = ControlM;

    open spec fn view(&self) -> ControlM {
        match self {
            Control::Text => ControlM::Text,
            Control::Char => ControlM::Char,
            Control::Path => ControlM::Path,
            Control::Number { integer, min, max } => ControlM::Number { integer: *integer, min: *min, max: *max },
            Control::Boolean => ControlM::Boolean,
            Control::Choice { options } => ControlM::Choice(options@.map_values(|o: String| o@)),
            Control::List => ControlM::List,
            Control::Numbers { count } => ControlM::Numbers(*count),
            Control::Color { hex } => ControlM::Color(*hex),
            Control::Bbox => ControlM::Bbox,
        }
    }
}

/// A type with `Option<…>` taken off it, which is what every rule reads.
pub open spec fn inner_type(t: Seq<char>) -> Seq<char> {
    if t.len() >= 8 && t.take(7) == "Option<"@ && t.last() == '>' {
        t.subrange(7, t.len() - 1)
    } else {
        t
    }
}

/// The value of a run of decimal digits.
pub open spec fn digits_value(s: Seq<char>) -> nat
    decreases s.len(),
{
    if s.len() == 0 {
        0
    } else {
        digits_value(s.drop_last()) * 10 + ((s.last() as int - '0' as int) as nat)
    }
}

pub open spec fn all_digits(s: Seq<char>) -> bool {
    forall|i: int| 0 <= i < s.len() ==> crate::text::is_ascii_digit(#[trigger] s[i])
}

/// What `usize::from_str` reads from `s`: an optional `+`, then at least one digit, and no more
/// than fits.
pub open spec fn parsed_count(s: Seq<char>) -> Option<usize> {
    let d = if s.len() > 0 && s[0] == '+' { s.drop_first() } else { s };
    if d.len() > 0 && all_digits(d) && digits_value(d) <= usize::MAX {
        Some(digits_value(d) as usize)
    } else {
        None
    }
}

/// Where the first `;` of `s` is.
pub open spec fn first_semicolon(s: Seq<char>, i: int) -> Option<int>
    decreases s.len() - i,
{
    if i < 0 || i >= s.len() {
        None
    } else if s[i] == ';' {
        Some(i)
    } else {
        first_semicolon(s, i + 1)
    }
}

/// The element types a fixed-size numeric array may have.
pub open spec fn numeric_element(t: Seq<char>) -> bool {
    t == "f32"@ || t == "f64"@ || t == "u8"@ || t == "u16"@ || t == "u32"@ || t == "i32"@
}

/// `[f64;4]` is four; anything but a numeric element type is no fixed-size array here.
pub open spec fn array_len(t: Seq<char>) -> Option<usize> {
    if t.len() >= 2 && t[0] == '[' && t.last() == ']' {
        let body = t.subrange(1, t.len() - 1);
        match first_semicolon(body, 0) {
            None => None,
            Some(k) => if numeric_element(trimmed(body.take(k), Edge::White)) {
                parsed_count(trimmed(body.skip(k + 1), Edge::White))
            } else {
                None
            },
        }
    } else {
        None
    }
}

/// The control a parameter gets, read from what the runner states of it: its variants first, then
/// its type once `Option<…>` is off it, and plain text for any type not recognised.
pub open spec fn control_spec(rust_type: Seq<char>, variants: Seq<Seq<char>>) -> ControlM {
    let t = inner_type(rust_type);
    if variants.len() > 0 {
        ControlM::Choice(variants)
    } else if t == "bool"@ {
        ControlM::Boolean
    } else if t == "Vec<String>"@ {
        ControlM::List
    } else if t == "GeoBBox"@ {
        ControlM::Bbox
    } else if t == "HexColor"@ {
        ControlM::Color(true)
    } else if t == "SeparatorChar"@ || t == "CsvDelimiter"@ {
        ControlM::Char
    } else if t == "FilePath"@ || t == "SourceLocation"@ || t == "GeoDataPath"@ || t == "TileFilePath"@ {
        ControlM::Path
    } else if t == "GeoCenter"@ {
        ControlM::Numbers(3)
    } else if array_len(t) is Some {
        ControlM::Numbers(array_len(t)->0)
    } else if t == "u8"@ {
        ControlM::Number { integer: true, min: Some(0), max: Some(255) }
    } else if t == "u16"@ {
        ControlM::Number { integer: true, min: Some(0), max: Some(65535) }
    } else if t == "u32"@ {
        ControlM::Number { integer: true, min: Some(0), max: Some(u32::MAX) }
    } else if t == "u64"@ || t == "usize"@ {
        ControlM::Number { integer: true, min: Some(0), max: None }
    } else if t == "i8"@ || t == "i16"@ || t == "i32"@ || t == "i64"@ || t == "isize"@ {
        ControlM::Number { integer: true, min: None, max: None }
    } else if t == "f32"@ || t == "f64"@ {
        ControlM::Number { integer: false, min: None, max: None }
    } else {
        ControlM::Text
    }
}

/// Reads `usize::from_str`'s answer from `chars[from..to]`; see [`parsed_count`].
fn parse_count(chars: &Vec<char>, from: usize, to: usize) -> (r: Option<usize>)
    requires
        from <= to <= chars@.len(),
    ensures
        r == parsed_count(chars@.subrange(from as int, to as int)),
{
    let ghost s = chars@.subrange(from as int, to as int);
    let has_plus = from < to && chars[from] == '+';
    let start = if has_plus { from + 1 } else { from };
    let ghost d = chars@.subrange(start as int, to as int);
    proof {
        if s.len() > 0 {
            assert(s[0] == chars@[from as int]);
        }
        assert(has_plus == (s.len() > 0 && s[0] == '+'));
        if has_plus {
            assert(d =~= s.drop_first());
        } else {
            assert(d =~= s);
        }
    }
    if start == to {
        proof {
            assert(d.len() == 0);
            assert(parsed_count(s) is None);
        }
        return None;
    }
    let mut value: usize = 0;
    let mut i = start;
    while i < to
        invariant
            start <= i <= to <= chars@.len(),
            d == chars@.subrange(start as int, to as int),
            parsed_count(chars@.subrange(from as int, to as int)) == (if d.len() > 0 && all_digits(d) && digits_value(d) <= usize::MAX {
                Some(digits_value(d) as usize)
            } else {
                None::<usize>
            }),
            all_digits(chars@.subrange(start as int, i as int)),
            value == digits_value(chars@.subrange(start as int, i as int)),
        decreases to - i,
    {
        let c = chars[i];
        proof {
            assert(chars@.subrange(start as int, i as int + 1).drop_last() =~= chars@.subrange(start as int, i as int));
            assert(chars@.subrange(start as int, i as int + 1).last() == c);
        }
        if !('0' <= c && c <= '9') {
            proof {
                assert(d[i - start] == c);
                assert(!crate::text::is_ascii_digit(d[i - start]));
                assert(!all_digits(d));
            }
            return None;
        }
        let digit = (c as u32 - '0' as u32) as usize;
        let next = match value.checked_mul(10) {
            Some(v) => v.checked_add(digit),
            None => None,
        };
        match next {
            Some(v) => { value = v; },
            None => {
                proof {
                    let pre = chars@.subrange(start as int, i as int + 1);
                    assert(d.take(i - start + 1) =~= pre);
                    assert(digits_value(pre) == value * 10 + digit) by {
                        assert(pre.drop_last() =~= chars@.subrange(start as int, i as int));
                        assert(pre.last() == c);
                    }
                    assert(value * 10 + digit > usize::MAX);
                    lemma_digits_grow(d, (i - start) as int);
                }
                return None;
            },
        }
        i = i + 1;
    }
    proof {
        assert(chars@.subrange(start as int, i as int) =~= d);
    }
    Some(value)
}

/// A longer run of digits is worth at least what its prefix is.
proof fn lemma_digits_grow(d: Seq<char>, k: int)
    requires
        0 <= k < d.len(),
    ensures
        digits_value(d) >= digits_value(d.take(k + 1)),
    decreases d.len() - k,
{
    if k + 1 < d.len() {
        lemma_digits_grow(d, k + 1);
        assert(d.take(k + 2).drop_last() =~= d.take(k + 1));
    } else {
        assert(d.take(k + 1) =~= d);
    }
}

/// `t` with `Option<…>` taken off; see [`inner_type`].
pub fn inner_of(t: &str) -> (r: String)
    ensures
        r@ == inner_type(t@),
{
    let chars = crate::text::chars_of(t);
    let n = chars.len();
    if n >= 8 && chars[n - 1] == '>' {
        let head = crate::text::string_between(&chars, 0, 7);
        if crate::text::same_text(head.as_str(), "Option<") {
            proof {
                assert(head@ =~= t@.take(7));
                assert(t@.last() == chars@[n - 1]);
            }
            return crate::text::string_between(&chars, 7, n - 1);
        }
        proof {
            assert(head@ =~= t@.take(7));
        }
    }
    proof {
        if t@.len() >= 8 {
            assert(t@.last() == chars@[n - 1]);
        }
    }
    crate::text::owned(t)
}

/// The length of a fixed-size numeric array type; see [`array_len`].
fn array_len_of(t: &str) -> (r: Option<usize>)
    ensures
        r == array_len(t@),
{
    let chars = crate::text::chars_of(t);
    let n = chars.len();
    if !(n >= 2 && chars[0] == '[' && chars[n - 1] == ']') {
        proof {
            if t@.len() >= 2 {
                assert(t@.last() == chars@[n - 1]);
            }
        }
        return None;
    }
    proof {
        assert(t@.last() == chars@[n - 1]);
    }
    let body = crate::text::string_between(&chars, 1, n - 1);
    let b = crate::text::chars_of(body.as_str());
    let mut k: usize = 0;
    proof {
        assert(first_semicolon(b@, 0) == first_semicolon(b@, 0));
    }
    while k < b.len() && b[k] != ';'
        invariant
            k <= b@.len(),
            first_semicolon(b@, 0) == first_semicolon(b@, k as int),
        decreases b@.len() - k,
    {
        k = k + 1;
    }
    if k == b.len() {
        return None;
    }
    let element = crate::text::string_between(&b, 0, k);
    let el_chars = crate::text::chars_of(element.as_str());
    let (ea, eb) = trim_bounds(&el_chars, Edge::White);
    let el = crate::text::string_between(&el_chars, ea, eb);
    proof {
        assert(element@ =~= b@.take(k as int));
    }
    let numeric = crate::text::same_text(el.as_str(), "f32") || crate::text::same_text(el.as_str(), "f64")
        || crate::text::same_text(el.as_str(), "u8") || crate::text::same_text(el.as_str(), "u16")
        || crate::text::same_text(el.as_str(), "u32") || crate::text::same_text(el.as_str(), "i32");
    if !numeric {
        return None;
    }
    let count = crate::text::string_between(&b, k + 1, b.len());
    let c_chars = crate::text::chars_of(count.as_str());
    let (ca, cb) = trim_bounds(&c_chars, Edge::White);
    proof {
        assert(count@ =~= b@.skip(k as int + 1));
    }
    parse_count(&c_chars, ca, cb)
}

/// The control a parameter gets; see [`control_spec`].
///
/// Unknown types fall back to text rather than failing: a parameter the runner adds in a shape not
/// recognised here is still editable, as the string VPL stores anyway.
pub fn control_for(rust_type: &str, variants: &Vec<String>) -> (c: Control)
    ensures
        c@ == control_spec(rust_type@, texts(variants@)),
{
    if variants.len() > 0 {
        let mut options: Vec<String> = Vec::new();
        let mut i: usize = 0;
        while i < variants.len()
            invariant
                i <= variants@.len(),
                texts(options@) == texts(variants@.take(i as int)),
            decreases variants@.len() - i,
        {
            let ghost before = options@;
            options.push(variants[i].clone());
            proof {
                assert(texts(options@) =~= texts(before).push(variants@[i as int]@));
                assert(variants@.take(i as int + 1) =~= variants@.take(i as int).push(variants@[i as int]));
                assert(texts(variants@.take(i as int + 1)) =~= texts(variants@.take(i as int)).push(variants@[i as int]@));
            }
            i = i + 1;
        }
        proof {
            assert(variants@.take(i as int) =~= variants@);
            assert(texts(variants@) =~= variants@.map_values(|v: String| v@));
            assert(texts(options@) =~= options@.map_values(|o: String| o@));
        }
        return Control::Choice { options };
    }
    let inner = inner_of(rust_type);
    let t = inner.as_str();
    if crate::text::same_text(t, "bool") {
        return Control::Boolean;
    }
    if crate::text::same_text(t, "Vec<String>") {
        return Control::List;
    }
    if crate::text::same_text(t, "GeoBBox") {
        return Control::Bbox;
    }
    if crate::text::same_text(t, "HexColor") {
        return Control::Color { hex: true };
    }
    if crate::text::same_text(t, "SeparatorChar") || crate::text::same_text(t, "CsvDelimiter") {
        return Control::Char;
    }
    if crate::text::same_text(t, "FilePath") || crate::text::same_text(t, "SourceLocation")
        || crate::text::same_text(t, "GeoDataPath") || crate::text::same_text(t, "TileFilePath") {
        return Control::Path;
    }
    if crate::text::same_text(t, "GeoCenter") {
        return Control::Numbers { count: 3 };
    }
    match array_len_of(t) {
        Some(count) => return Control::Numbers { count },
        None => {},
    }
    if crate::text::same_text(t, "u8") {
        Control::Number { integer: true, min: Some(0), max: Some(255) }
    } else if crate::text::same_text(t, "u16") {
        Control::Number { integer: true, min: Some(0), max: Some(65535) }
    } else if crate::text::same_text(t, "u32") {
        Control::Number { integer: true, min: Some(0), max: Some(u32::MAX) }
    } else if crate::text::same_text(t, "u64") || crate::text::same_text(t, "usize") {
        Control::Number { integer: true, min: Some(0), max: None }
    } else if crate::text::same_text(t, "i8") || crate::text::same_text(t, "i16") || crate::text::same_text(t, "i32")
        || crate::text::same_text(t, "i64") || crate::text::same_text(t, "isize") {
        Control::Number { integer: true, min: None, max: None }
    } else if crate::text::same_text(t, "f32") || crate::text::same_text(t, "f64") {
        Control::Number { integer: false, min: None, max: None }
    } else {
        Control::Text
    }
}

pub open spec fn field_infos_model(v: Seq<FieldInfo>) -> Seq<FieldM> {
    v.map_values(|f: FieldInfo| f@)
}

pub open spec fn field_metas_model(v: Seq<FieldMeta>) -> Seq<FieldM> {
    v.map_values(|f: FieldMeta| field_meta_model(f))
}

/// What a described parameter is, once read: its name, documentation, default and flags as given,
/// and the control [`control_spec`] gives its type and variants.
pub open spec fn field_meta_model(f: FieldMeta) -> FieldM {
    FieldM {
        name: f.name@,
        doc: f.doc@,
        required: f.required,
        sources: f.sources,
        default: match f.default {
            Some(d) => Some(d@),
            None => None,
        },
        control: control_spec(f.rust_type@, texts(f.enum_variants@)),
    }
}

/// What a described operation is, once read: the same name, kind, summary, details and parameters.
pub open spec fn meta_model(m: OperationMeta) -> OperationM {
    OperationM {
        name: m.name@,
        kind: m.kind@,
        summary: m.summary@,
        details: m.details@,
        fields: m.fields@.map_values(|f: FieldMeta| field_meta_model(f)),
    }
}

/// The descriptions `ms`, each read into a form.
pub open spec fn metas_model(ms: Seq<OperationMeta>) -> Seq<OperationM> {
    ms.map_values(|m: OperationMeta| meta_model(m))
}

/// Where `x` goes among the name-ordered `ops`: after every operation whose name does not come
/// after its own, so that an operation joins the end of those that share its name.
pub open spec fn slot(ops: Seq<OperationM>, x: OperationM) -> nat
    decreases ops.len(),
{
    if ops.len() == 0 {
        0
    } else if text_less(x.name, ops.last().name) {
        slot(ops.drop_last(), x)
    } else {
        ops.len()
    }
}

/// `ops` in order of name, those that share a name in the order they came: a stable sort.
pub open spec fn sorted_by_name(ops: Seq<OperationM>) -> Seq<OperationM>
    decreases ops.len(),
{
    if ops.len() == 0 {
        ops
    } else {
        let rest = sorted_by_name(ops.drop_last());
        rest.insert(slot(rest, ops.last()) as int, ops.last())
    }
}

/// The operations of `ops` called `name`, in the order they come.
pub open spec fn called(ops: Seq<OperationM>, name: Seq<char>) -> Seq<OperationM>
    decreases ops.len(),
{
    if ops.len() == 0 {
        seq![]
    } else if ops.last().name == name {
        called(ops.drop_last(), name).push(ops.last())
    } else {
        called(ops.drop_last(), name)
    }
}

proof fn lemma_called_join(a: Seq<OperationM>, b: Seq<OperationM>, name: Seq<char>)
    ensures
        called(a + b, name) == called(a, name) + called(b, name),
    decreases b.len(),
{
    if b.len() == 0 {
        assert(a + b =~= a);
        assert(called(a, name) + called(b, name) =~= called(a, name));
    } else {
        lemma_called_join(a, b.drop_last(), name);
        assert((a + b).drop_last() =~= a + b.drop_last());
        assert((a + b).last() == b.last());
        if b.last().name == name {
            assert((called(a, name) + called(b.drop_last(), name)).push(b.last())
                =~= called(a, name) + called(b.drop_last(), name).push(b.last()));
        }
    }
}

proof fn lemma_called_none(ops: Seq<OperationM>, name: Seq<char>)
    requires
        forall|m: int| 0 <= m < ops.len() ==> (#[trigger] ops[m]).name != name,
    ensures
        called(ops, name) == Seq::<OperationM>::empty(),
    decreases ops.len(),
{
    if ops.len() > 0 {
        lemma_called_none(ops.drop_last(), name);
    }
}

proof fn lemma_slot_after(ops: Seq<OperationM>, x: OperationM)
    ensures
        slot(ops, x) <= ops.len(),
        forall|m: int| slot(ops, x) <= m < ops.len() ==> text_less(x.name, (#[trigger] ops[m]).name),
    decreases ops.len(),
{
    if ops.len() > 0 && text_less(x.name, ops.last().name) {
        lemma_slot_after(ops.drop_last(), x);
        assert forall|m: int| slot(ops, x) <= m < ops.len() implies text_less(x.name, (#[trigger] ops[m]).name) by {
            if m < ops.len() - 1 {
                assert(ops[m] == ops.drop_last()[m]);
            }
        }
    }
}

/// Sorting by name keeps the operations of any one name in the order they were described in.
pub proof fn lemma_sorting_is_stable(ops: Seq<OperationM>, name: Seq<char>)
    ensures
        called(sorted_by_name(ops), name) == called(ops, name),
    decreases ops.len(),
{
    if ops.len() > 0 {
        lemma_sorting_is_stable(ops.drop_last(), name);
        let rest = sorted_by_name(ops.drop_last());
        let x = ops.last();
        lemma_slot_after(rest, x);
        let k = slot(rest, x) as int;
        let before = rest.take(k);
        let after = rest.skip(k);
        assert(rest.insert(k, x) =~= before + seq![x] + after);
        assert(rest =~= before + after);
        lemma_called_join(before + seq![x], after, name);
        lemma_called_join(before, seq![x], name);
        lemma_called_join(before, after, name);
        assert(seq![x].drop_last() =~= Seq::<OperationM>::empty());
        assert(seq![x].last() == x);
        assert(called(Seq::<OperationM>::empty(), name) == Seq::<OperationM>::empty());
        if x.name == name {
            assert forall|m: int| 0 <= m < after.len() implies (#[trigger] after[m]).name != name by {
                assert(after[m] == rest[k + m]);
                crate::style::lemma_text_less_total(x.name, x.name);
            }
            lemma_called_none(after, name);
            assert(called(seq![x], name) =~= seq![x]);
            assert(called(before, name) + seq![x] + Seq::<OperationM>::empty() =~= called(before, name).push(x));
            assert(called(before, name) + Seq::<OperationM>::empty() =~= called(before, name));
        } else {
            assert(called(seq![x], name) =~= Seq::<OperationM>::empty());
            assert(called(before, name) + Seq::<OperationM>::empty() =~= called(before, name));
        }
    }
}

/// `ops` are the forms of `ms`, stably sorted by name.
pub open spec fn read_from(ops: Seq<OperationM>, ms: Seq<OperationMeta>) -> bool {
    ops == sorted_by_name(metas_model(ms))
}

/// One operation, read into what a form needs: each parameter with its control.
pub fn info_of(meta: &OperationMeta) -> (r: OperationInfo)
    ensures
        r@ == meta_model(*meta),
        r.fields@.len() == meta.fields@.len(),
        forall|i: int| 0 <= i < meta.fields@.len() ==> (#[trigger] r.fields@[i]).control@
            == control_spec(meta.fields@[i].rust_type@, texts(meta.fields@[i].enum_variants@)),
{
    let mut fields: Vec<FieldInfo> = Vec::new();
    let mut i: usize = 0;
    while i < meta.fields.len()
        invariant
            i <= meta.fields@.len(),
            fields@.len() == i,
            field_infos_model(fields@) == field_metas_model(meta.fields@.take(i as int)),
            forall|k: int| 0 <= k < i ==> (#[trigger] fields@[k]).control@
                == control_spec(meta.fields@[k].rust_type@, texts(meta.fields@[k].enum_variants@)),
        decreases meta.fields@.len() - i,
    {
        let f = &meta.fields[i];
        let control = control_for(f.rust_type.as_str(), &f.enum_variants);
        let ghost before = fields@;
        fields.push(FieldInfo {
            name: f.name.clone(),
            doc: f.doc.clone(),
            required: f.required,
            sources: f.sources,
            default: f.default.clone(),
            control,
        });
        proof {
            assert(field_infos_model(fields@) =~= field_infos_model(before).push(fields@[i as int]@));
            assert(meta.fields@.take(i as int + 1) =~= meta.fields@.take(i as int).push(meta.fields@[i as int]));
            assert(field_metas_model(meta.fields@.take(i as int + 1)) =~= field_metas_model(meta.fields@.take(i as int)).push(field_meta_model(meta.fields@[i as int])));
        }
        i = i + 1;
    }
    proof {
        assert(meta.fields@.take(i as int) =~= meta.fields@);
        assert(field_infos_model(fields@) =~= fields@.map_values(|f: FieldInfo| f@));
        assert(field_metas_model(meta.fields@) =~= meta.fields@.map_values(|f: FieldMeta| field_meta_model(f)));
    }
    OperationInfo {
        name: meta.name.clone(),
        kind: meta.kind.clone(),
        summary: meta.summary.clone(),
        details: meta.details.clone(),
        fields,
    }
}

/// Whether `ops` are in order of name.
pub open spec fn by_name(ops: Seq<OperationM>) -> bool {
    forall|i: int, j: int| 0 <= i < j < ops.len() ==> !text_less(ops[j].name, ops[i].name)
}

/// The described operations read into forms, sorted by name; operations of one name keep the order
/// they were described in.
#[verifier::rlimit(30)]
pub fn sorted_operations(metas: &Vec<OperationMeta>) -> (r: Vec<OperationInfo>)
    ensures
        by_name(operations_model(r@)),
        r@.len() == metas@.len(),
        forall|x: OperationM| operations_model(r@).contains(x)
            <==> metas_model(metas@).contains(x),
        operations_model(r@) == sorted_by_name(metas_model(metas@)),
{
    let ghost mm = metas_model(metas@);
    let mut out: Vec<OperationInfo> = Vec::new();
    let mut i: usize = 0;
    while i < metas.len()
        invariant
            i <= metas@.len(),
            mm == metas_model(metas@),
            out@.len() == i,
            by_name(operations_model(out@)),
            forall|x: OperationM| operations_model(out@).contains(x) <==> mm.take(i as int).contains(x),
            operations_model(out@) == sorted_by_name(mm.take(i as int)),
        decreases metas@.len() - i,
    {
        let info = info_of(&metas[i]);
        let ghost before = operations_model(out@);
        let mut k: usize = out.len();
        proof {
            assert(before.take(k as int) =~= before);
        }
        while k > 0 && crate::style::less(info.name.as_str(), out[k - 1].name.as_str())
            invariant
                k <= out@.len(),
                before == operations_model(out@),
                forall|m: int| k <= m < out@.len() ==> text_less(info@.name, (#[trigger] before[m]).name),
                slot(before, info@) == slot(before.take(k as int), info@),
            decreases k,
        {
            proof {
                assert(before[k - 1] == out@[k - 1]@);
                assert(before.take(k as int).drop_last() =~= before.take(k - 1));
            }
            k = k - 1;
        }
        proof {
            if k > 0 {
                assert(before[k - 1] == out@[k - 1]@);
            }
            assert(slot(before.take(k as int), info@) == k);
        }
        out.insert(k, info);
        proof {
            let after = operations_model(out@);
            assert(mm.take(i as int + 1).drop_last() =~= mm.take(i as int));
            assert(mm.take(i as int + 1).last() == info@);
            assert(after =~= sorted_by_name(mm.take(i as int + 1)));
            assert(after =~= before.insert(k as int, info@));
            if k > 0 {
                assert(before[k - 1] == out@[k - 1]@);
                assert(!text_less(info@.name, before[k - 1].name));
            }
            assert forall|a: int, b: int| 0 <= a < b < after.len() implies !text_less(after[b].name, after[a].name) by {
                if a < k && b == k {
                    if text_less(info@.name, before[a].name) {
                        crate::style::lemma_text_less_order(info@.name, before[a].name, before[k - 1].name);
                        crate::style::lemma_text_less_total(before[a].name, before[k - 1].name);
                        if a < k - 1 {
                            assert(!text_less(before[k - 1].name, before[a].name));
                        }
                        crate::style::lemma_text_less_total(before[k - 1].name, info@.name);
                    }
                } else if a == k && b > k {
                    assert(after[b] == before[b - 1]);
                    assert(text_less(info@.name, before[b - 1].name));
                    crate::style::lemma_text_less_total(info@.name, before[b - 1].name);
                } else if a < k && b > k {
                    assert(after[a] == before[a] && after[b] == before[b - 1]);
                } else if a > k {
                    assert(after[a] == before[a - 1] && after[b] == before[b - 1]);
                }
            }
            assert(mm.take(i as int + 1) =~= mm.take(i as int).push(info@));
            assert forall|x: OperationM| after.contains(x) <==> mm.take(i as int + 1).contains(x) by {
                let t = mm.take(i as int);
                if after.contains(x) {
                    let m = choose|m: int| 0 <= m < after.len() && after[m] == x;
                    if m < k { assert(before[m] == x); assert(before.contains(x)); assert(t.push(info@)[ {let q = choose|q: int| 0 <= q < t.len() && t[q] == x; q} ] == x); }
                    else if m > k { assert(before[m - 1] == x); assert(before.contains(x)); assert(t.push(info@)[ {let q = choose|q: int| 0 <= q < t.len() && t[q] == x; q} ] == x); }
                    else { assert(t.push(info@)[t.len() as int] == x); }
                }
                if t.push(info@).contains(x) {
                    let m = choose|m: int| 0 <= m < t.push(info@).len() && t.push(info@)[m] == x;
                    if m < t.len() {
                        assert(t[m] == x);
                        assert(t.contains(x));
                        assert(before.contains(x));
                        let q = choose|q: int| 0 <= q < before.len() && before[q] == x;
                        if q < k { assert(after[q] == x); } else { assert(after[q + 1] == x); }
                    } else {
                        assert(after[k as int] == x);
                    }
                }
            }
        }
        i = i + 1;
    }
    proof {
        assert(mm.take(i as int) =~= mm);
    }
    out
}

/// Every operation this build registers, read into forms and sorted by name: the forms of what
/// the runner describes (see [`registered`]), each once, stably sorted.
pub fn operations() -> (r: Vec<OperationInfo>)
    ensures
        by_name(operations_model(r@)),
        exists|metas: Seq<OperationMeta>| #[trigger] read_from(operations_model(r@), metas)
            && registered(metas_model(metas)),
        this_build(operations_model(r@)),
        names_of(operations_model(r@)) == sorted_names(built_names()),
{
    let metas = registry();
    let r = sorted_operations(&metas);
    proof {
        assert(read_from(operations_model(r@), metas@));
        assert(registered(metas_model(metas@)));
        lemma_sorted_names(metas_model(metas@));
    }
    r
}

/// Where `x` goes among the ordered names `ns`: after every name that does not come after it.
pub open spec fn name_slot(ns: Seq<Seq<char>>, x: Seq<char>) -> nat
    decreases ns.len(),
{
    if ns.len() == 0 {
        0
    } else if text_less(x, ns.last()) {
        name_slot(ns.drop_last(), x)
    } else {
        ns.len()
    }
}

/// `ns` in order.
pub open spec fn sorted_names(ns: Seq<Seq<char>>) -> Seq<Seq<char>>
    decreases ns.len(),
{
    if ns.len() == 0 {
        ns
    } else {
        let rest = sorted_names(ns.drop_last());
        rest.insert(name_slot(rest, ns.last()) as int, ns.last())
    }
}

proof fn lemma_slot_by_name(ops: Seq<OperationM>, x: OperationM)
    ensures
        slot(ops, x) == name_slot(names_of(ops), x.name),
    decreases ops.len(),
{
    if ops.len() > 0 {
        assert(names_of(ops.drop_last()) =~= names_of(ops).drop_last());
        assert(names_of(ops).last() == ops.last().name);
        lemma_slot_by_name(ops.drop_last(), x);
    }
}

/// Sorting operations by name puts their names in order: the names of the result depend on the
/// names alone.
pub proof fn lemma_sorted_names(ops: Seq<OperationM>)
    ensures
        names_of(sorted_by_name(ops)) == sorted_names(names_of(ops)),
    decreases ops.len(),
{
    if ops.len() > 0 {
        lemma_sorted_names(ops.drop_last());
        let rest = sorted_by_name(ops.drop_last());
        lemma_slot_after(rest, ops.last());
        lemma_slot_by_name(rest, ops.last());
        assert(names_of(ops.drop_last()) =~= names_of(ops).drop_last());
        assert(names_of(ops).last() == ops.last().name);
        let k = slot(rest, ops.last()) as int;
        assert(names_of(rest.insert(k, ops.last())) =~= names_of(rest).insert(k, ops.last().name));
    }
}

proof fn lemma_sorted_contains(ops: Seq<OperationM>)
    ensures
        sorted_by_name(ops).len() == ops.len(),
        forall|x: OperationM| sorted_by_name(ops).contains(x) <==> ops.contains(x),
    decreases ops.len(),
{
    if ops.len() > 0 {
        let front = ops.drop_last();
        lemma_sorted_contains(front);
        let rest = sorted_by_name(front);
        let x = ops.last();
        lemma_slot_after(rest, x);
        let k = slot(rest, x) as int;
        let out = rest.insert(k, x);
        assert forall|y: OperationM| out.contains(y) <==> ops.contains(y) by {
            if out.contains(y) {
                let m = choose|m: int| 0 <= m < out.len() && out[m] == y;
                if m < k {
                    assert(rest[m] == y && rest.contains(y));
                    assert(front.contains(y));
                    let q = choose|q: int| 0 <= q < front.len() && front[q] == y;
                    assert(ops[q] == front[q]);
                } else if m > k {
                    assert(rest[m - 1] == y && rest.contains(y));
                    assert(front.contains(y));
                    let q = choose|q: int| 0 <= q < front.len() && front[q] == y;
                    assert(ops[q] == front[q]);
                } else {
                    assert(ops[ops.len() - 1] == y);
                }
            }
            if ops.contains(y) {
                let m = choose|m: int| 0 <= m < ops.len() && ops[m] == y;
                if m < ops.len() - 1 {
                    assert(front[m] == ops[m]);
                    assert(front.contains(y));
                    let q = choose|q: int| 0 <= q < rest.len() && rest[q] == y;
                    if q < k {
                        assert(out[q] == y);
                    } else {
                        assert(out[q + 1] == y);
                    }
                } else {
                    assert(out[k] == y);
                }
            }
        }
    }
}

proof fn lemma_find_named(ops: Seq<OperationM>, name: Seq<char>)
    ensures
        (exists|i: int| 0 <= i < ops.len() && #[trigger] ops[i].name == name) ==> (find_op(ops, name) matches Some(y)
            && ops.contains(y) && y.name == name),
        (forall|i: int| 0 <= i < ops.len() ==> #[trigger] ops[i].name != name) ==> find_op(ops, name) is None,
    decreases ops.len(),
{
    if ops.len() > 0 {
        let tail = ops.drop_first();
        lemma_find_named(tail, name);
        if ops[0].name != name {
            if exists|i: int| 0 <= i < ops.len() && #[trigger] ops[i].name == name {
                let i = choose|i: int| 0 <= i < ops.len() && #[trigger] ops[i].name == name;
                assert(tail[i - 1].name == name);
                let y = find_op(tail, name)->0;
                let q = choose|q: int| 0 <= q < tail.len() && tail[q] == y;
                assert(ops[q + 1] == y);
            }
            if forall|i: int| 0 <= i < ops.len() ==> #[trigger] ops[i].name != name {
                assert forall|i: int| 0 <= i < tail.len() implies #[trigger] tail[i].name != name by {
                    assert(tail[i] == ops[i + 1]);
                }
            }
        } else {
            assert(ops[0] == ops[0]);
        }
    }
}

/// What this build's sorted forms give for an operation's name: the operation, when this build
/// registers one by that name, with the parameters [`known_shape`] gives it.
pub proof fn lemma_this_build_finds(ops: Seq<OperationM>, name: Seq<char>)
    requires
        this_build(ops),
    ensures
        built_names().contains(name) ==> (find_op(ops, name) matches Some(y) && y.name == name
            && known_shape(name) == Some(shape(y.fields))),
        !built_names().contains(name) ==> find_op(ops, name) is None,
{
    let base = choose|base: Seq<OperationM>| #[trigger] registered(base) && ops == sorted_by_name(base);
    lemma_sorted_contains(base);
    assert(names_of(base).len() == base.len());
    if built_names().contains(name) {
        let j = choose|j: int| 0 <= j < built_names().len() && built_names()[j] == name;
        assert(names_of(base)[j] == base[j].name);
        assert(base.contains(base[j]));
        assert(ops.contains(base[j]));
        let q = choose|q: int| 0 <= q < ops.len() && ops[q] == base[j];
        assert(ops[q].name == name);
        lemma_find_named(ops, name);
        let y = find_op(ops, name)->0;
        assert(base.contains(y));
        let k = choose|k: int| 0 <= k < base.len() && base[k] == y;
        assert(known_shape(base[k].name) == Some(shape(base[k].fields)));
    } else {
        assert forall|i: int| 0 <= i < ops.len() implies #[trigger] ops[i].name != name by {
            assert(ops.contains(ops[i]));
            assert(base.contains(ops[i]));
            let k = choose|k: int| 0 <= k < base.len() && base[k] == ops[i];
            assert(names_of(base)[k] == base[k].name);
            if ops[i].name == name {
                assert(built_names()[k] == name);
                assert(built_names().contains(name));
            }
        }
        lemma_find_named(ops, name);
    }
}

/// The runner's GDAL raster operation is not among the operations this build registers.
pub proof fn lemma_no_gdal_raster()
    ensures
        !built_names().contains("from_gdal_raster"@),
{
    reveal_strlit("from_color");
    reveal_strlit("from_container");
    reveal_strlit("from_csv");
    reveal_strlit("from_debug");
    reveal_strlit("from_geo");
    reveal_strlit("from_grid");
    reveal_strlit("from_h3");
    reveal_strlit("from_merged_vector");
    reveal_strlit("from_stacked_raster");
    reveal_strlit("from_stacked");
    reveal_strlit("from_tile");
    reveal_strlit("from_tilejson");
    reveal_strlit("filter");
    reveal_strlit("meta_update");
    reveal_strlit("remap_coords");
    reveal_strlit("dem_overview");
    reveal_strlit("dem_quantize");
    reveal_strlit("dem_tile_resize");
    reveal_strlit("raster_flatten");
    reveal_strlit("raster_format");
    reveal_strlit("raster_levels");
    reveal_strlit("raster_mask");
    reveal_strlit("raster_overscale");
    reveal_strlit("raster_overview");
    reveal_strlit("raster_tile_resize");
    reveal_strlit("vector_filter_features");
    reveal_strlit("vector_filter_layers");
    reveal_strlit("vector_filter_properties");
    reveal_strlit("vector_overzoom");
    reveal_strlit("vector_repair");
    reveal_strlit("vector_update_properties");
    reveal_strlit("from_gdal_raster");
    assert(built_names()[0].len() != "from_gdal_raster"@.len());
    assert(built_names()[1].len() != "from_gdal_raster"@.len());
    assert(built_names()[2].len() != "from_gdal_raster"@.len());
    assert(built_names()[3].len() != "from_gdal_raster"@.len());
    assert(built_names()[4].len() != "from_gdal_raster"@.len());
    assert(built_names()[5].len() != "from_gdal_raster"@.len());
    assert(built_names()[6].len() != "from_gdal_raster"@.len());
    assert(built_names()[7].len() != "from_gdal_raster"@.len());
    assert(built_names()[8].len() != "from_gdal_raster"@.len());
    assert(built_names()[9].len() != "from_gdal_raster"@.len());
    assert(built_names()[10].len() != "from_gdal_raster"@.len());
    assert(built_names()[11].len() != "from_gdal_raster"@.len());
    assert(built_names()[12].len() != "from_gdal_raster"@.len());
    assert(built_names()[13].len() != "from_gdal_raster"@.len());
    assert(built_names()[14].len() != "from_gdal_raster"@.len());
    assert(built_names()[15].len() != "from_gdal_raster"@.len());
    assert(built_names()[16].len() != "from_gdal_raster"@.len());
    assert(built_names()[17].len() != "from_gdal_raster"@.len());
    assert(built_names()[18].len() != "from_gdal_raster"@.len());
    assert(built_names()[19].len() != "from_gdal_raster"@.len());
    assert(built_names()[20].len() != "from_gdal_raster"@.len());
    assert(built_names()[21].len() != "from_gdal_raster"@.len());
    assert(built_names()[22][0] != "from_gdal_raster"@[0]);
    assert(built_names()[23].len() != "from_gdal_raster"@.len());
    assert(built_names()[24].len() != "from_gdal_raster"@.len());
    assert(built_names()[25].len() != "from_gdal_raster"@.len());
    assert(built_names()[26].len() != "from_gdal_raster"@.len());
    assert(built_names()[27].len() != "from_gdal_raster"@.len());
    assert(built_names()[28].len() != "from_gdal_raster"@.len());
    assert(built_names()[29].len() != "from_gdal_raster"@.len());
    assert(built_names()[30].len() != "from_gdal_raster"@.len());
    assert forall|i: int| 0 <= i < built_names().len() implies built_names()[i] != "from_gdal_raster"@ by {
    }
}

} // verus!
