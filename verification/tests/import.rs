use studio_core::import::needs_sniff;
use studio_core::import::{
    is_pipeline, is_remote, kind_for, kinds, kinds_from, opening_given, pipeline_extensions, read_node_given,
    source_parameter, source_parameter_in, JsonShape,
};
use studio_core::import::{candidates, json_shape, shape_from, JsonHead};
use studio_core::vpl::operations::operations;
use studio_core::tabular::columns_from;
use studio_core::vpl::operations::{Control, FieldInfo, OperationInfo};

/// The command that saves a `.vpl` refuses a destination this does not name, so an empty list
/// would refuse *every* save - fail-closed, but silently, and only for whoever renamed the id.
#[test]
fn a_pipeline_still_knows_what_it_is_called() {
    let extensions = pipeline_extensions();
    assert!(!extensions.is_empty(), "the pipeline kind lost its extensions");
    assert!(extensions.contains(&"vpl"), "{extensions:?}");
}

/// The case that has an operation behind it. `from_tilejson` fetches, so the source has to be
/// somewhere it can fetch from.
#[test]
fn the_tilejson_card_reads_a_url_rather_than_a_file() {
    let card = kinds().into_iter().find(|kind| kind.id == "tilejson").unwrap();
    assert_eq!(card.operation.as_deref(), Some("from_tilejson"));
    assert_eq!(source_parameter("from_tilejson"), "url");
    // And nothing is left to ask for: the source answers the operation's only requirement.
    assert!(card.needs.is_empty(), "{:?}", card.needs);
}

#[test]
fn everything_else_still_reads_a_filename() {
    for operation in ["from_container", "from_geo", "from_csv"] {
        assert_eq!(source_parameter(operation), "filename", "{operation}");
    }
}

/// A card that says "pick a file" when the operation needs two more answers would be lying, so
/// what is still missing comes from the registry rather than from a hand-kept note.
#[test]
fn what_a_filename_cannot_supply_is_listed() {
    let by_id = |id: &str| kinds().into_iter().find(|k| k.id == id).unwrap();
    assert!(by_id("container").needs.is_empty(), "a container is complete once it is chosen");
    assert!(by_id("vector").needs.is_empty());
    assert_eq!(by_id("table").needs, ["lon_column", "lat_column"], "a CSV cannot say which columns hold the coordinates");
}

/// A `.vpl` is a document, not a node - opening one replaces the pipeline (C9).
#[test]
fn a_pipeline_file_is_not_a_read_operation() {
    let pipeline = kinds().into_iter().find(|k| k.id == "pipeline").unwrap();
    assert_eq!(pipeline.operation, None);
    assert!(pipeline.needs.is_empty());
}

#[test]
fn a_path_is_matched_to_its_kind_whatever_its_case() {
    assert_eq!(kind_for("/tmp/Berlin.MBTiles").unwrap().id, "container");
    assert_eq!(kind_for("cities.geojson").unwrap().id, "vector");
    assert_eq!(kind_for("cities.csv").unwrap().id, "table");
    assert_eq!(kind_for("berlin.vpl").unwrap().id, "pipeline");
    assert!(kind_for("notes.txt").is_none());
    // Not merely "contains" - a file *named* like an extension is not that extension.
    assert!(kind_for("geojson").is_none());
}

fn field(name: &str, required: bool) -> FieldInfo {
    FieldInfo { name: name.to_string(), doc: String::new(), required, sources: false, default: None, control: Control::Text }
}

fn operation(name: &str, fields: Vec<FieldInfo>) -> OperationInfo {
    OperationInfo {
        name: name.to_string(),
        kind: "read".to_string(),
        summary: String::new(),
        details: String::new(),
        fields,
    }
}

#[test]
fn a_kind_whose_operation_is_missing_is_not_offered() {
    let available = vec![operation("from_container", vec![field("filename", true)])];
    let offered: Vec<String> = kinds_from(&available).into_iter().map(|k| k.id).collect();
    assert_eq!(offered, ["container", "pipeline"]);
}

#[test]
fn the_source_parameter_falls_back_in_order() {
    let available = vec![
        operation("a", vec![field("size", false), field("filename", true)]),
        operation("b", vec![field("url", true), field("other", true)]),
        operation("c", vec![field("size", false), field("path", true)]),
        operation("d", vec![field("size", false)]),
    ];
    assert_eq!(source_parameter_in(&available, "a"), "filename");
    assert_eq!(source_parameter_in(&available, "b"), "url");
    assert_eq!(source_parameter_in(&available, "c"), "path");
    assert_eq!(source_parameter_in(&available, "d"), "filename");
    assert_eq!(source_parameter_in(&available, "absent"), "filename");
    let kinds = kinds_from(&vec![operation("from_csv", vec![field("filename", true), field("lon_column", true), field("lat_column", true), field("id_column", false)])]);
    assert_eq!(kinds[0].needs, ["lon_column", "lat_column"]);
}

#[test]
fn remote_means_a_web_scheme_in_any_case() {
    assert!(is_remote("https://example.org/a.json"));
    assert!(is_remote("HTTP://example.org/a.json"));
    assert!(!is_remote("/data/http://x"));
    assert!(!is_remote("ftp://example.org/a"));
    assert!(is_remote("HTTPS://x.org/a.json"));
    assert!(!is_remote("s3://b/a"));
    assert!(!is_remote("http:/x"));
}

#[test]
fn a_pipeline_file_is_known_by_its_extension() {
    assert!(is_pipeline("/tmp/a.vpl"));
    assert!(is_pipeline("A.VPL"));
    assert!(!is_pipeline("a.vpl.txt"));
    assert!(!is_pipeline(".vpl"));
    assert!(!is_pipeline("vpl"));
    assert!(is_pipeline("Berlin.VPL"));
    assert!(!is_pipeline("berlin.vpl.tmp"));
    assert!(!is_pipeline("berlin.mbtiles"));
    assert!(!is_pipeline("a.vpl/.."));
}

#[test]
fn a_json_is_opened_by_what_it_turned_out_to_be() {
    let local = opening_given("/data/tiles.json", Some(JsonShape::TileJson));
    assert!(local.kind.is_none());
    assert!(local.refused.unwrap().contains("TileJSON"));
    let remote = opening_given("https://example.org/tiles.json", Some(JsonShape::TileJson));
    assert_eq!(remote.kind.map(|k| k.id), Some("tilejson".to_string()));
    let style = opening_given("/data/style.json", Some(JsonShape::Style));
    assert!(style.refused.unwrap().contains("MapLibre style"));
    let geo = opening_given("/data/places.json", Some(JsonShape::GeoJson));
    assert_eq!(geo.kind.map(|k| k.id), Some("vector".to_string()));
    let unread = opening_given("/data/places.json", None);
    assert_eq!(unread.kind.map(|k| k.id), Some("vector".to_string()));
    // Only `.json` is ambiguous: a style shape on anything else changes nothing.
    let csv = opening_given("/data/places.csv", Some(JsonShape::Style));
    assert_eq!(csv.kind.map(|k| k.id), Some("table".to_string()));
}

#[test]
fn a_csv_header_fills_in_what_it_can() {
    let table = kinds().into_iter().find(|k| k.id == "table").unwrap();
    let names = vec!["id".to_string(), " Lon".to_string(), "LATITUDE".to_string()];
    let columns = columns_from(names, ';').unwrap();
    assert_eq!(columns.lon.as_deref(), Some(" Lon"));
    assert_eq!(columns.lat.as_deref(), Some("LATITUDE"));
    let vpl = read_node_given(&table, "cities.csv", Some(&columns));
    assert_eq!(vpl, "from_csv filename=cities.csv lon_column=' Lon' lat_column=LATITUDE delimiter=';'");
    let unread = read_node_given(&table, "cities.csv", None);
    assert_eq!(unread, "from_csv filename=cities.csv");
    let pipeline = kinds().into_iter().find(|k| k.id == "pipeline").unwrap();
    assert_eq!(read_node_given(&pipeline, "a.vpl", None), "");
}

#[test]
fn every_offered_kind_has_its_operation() {
    let available = operations();
    for kind in kinds() {
        let Some(name) = &kind.operation else { continue };
        assert!(
            available.iter().any(|op| &op.name == name),
            "{} offers {name}, which this build does not have",
            kind.id
        );
    }
}

#[test]
fn every_extension_is_named_in_the_operations_documentation() {
    let available = operations();
    for kind in kinds() {
        if kind.id == "raster" {
            continue;
        }
        let Some(name) = &kind.operation else { continue };
        let operation = available.iter().find(|op| &op.name == name).unwrap();
        let text = format!(
            "{}{}{}",
            operation.summary,
            operation.details,
            operation.fields.iter().map(|f| f.doc.clone()).collect::<String>()
        );
        let words: Vec<String> = text.to_lowercase().split(|c: char| !c.is_ascii_alphanumeric()).map(str::to_string).collect();
        for extension in &kind.extensions {
            assert!(
                words.iter().any(|word| word == extension),
                "{name} is offered for .{extension}, which its documentation does not mention"
            );
        }
    }
}

#[test]
fn no_extension_belongs_to_two_kinds() {
    let mut seen: Vec<(&str, &str)> = Vec::new();
    let all = candidates();
    for candidate in &all {
        for extension in &candidate.extensions {
            if let Some((other, _)) = seen.iter().find(|(_, ext)| ext == extension) {
                panic!("both {other} and {} claim .{extension}", candidate.id);
            }
            seen.push((candidate.id, extension));
        }
    }
}

#[test]
fn a_tilejson_is_one_by_its_version() {
    let text = r#"{"tilejson":"3.0.0","tiles":["https://x/{z}/{x}/{y}.pbf"]}"#;
    assert_eq!(json_shape(text), JsonShape::TileJson);
}

#[test]
fn a_tilejson_is_one_by_its_templates_alone() {
    let text = r#"{"name":"osm","tiles":["https://x/{z}/{x}/{y}.pbf"],"maxzoom":14}"#;
    assert_eq!(json_shape(text), JsonShape::TileJson);
}

#[test]
fn a_geojson_is_one_whichever_shape_it_holds() {
    for kind in ["FeatureCollection", "Feature", "Point", "Polygon", "GeometryCollection"] {
        let text = format!(r#"{{"type":"{kind}","features":[]}}"#);
        assert_eq!(json_shape(&text), JsonShape::GeoJson, "{kind}");
    }
}

#[test]
fn a_style_is_neither() {
    let text = r#"{"version":8,"sources":{},"layers":[]}"#;
    assert_eq!(json_shape(text), JsonShape::Style);
}

#[test]
fn a_geojson_carrying_the_word_is_still_a_geojson() {
    let text = r#"{"type":"FeatureCollection","features":[
        {"type":"Feature","properties":{"tilejson":"3.0.0","tiles":["{z}/{x}/{y}"]},"geometry":null}]}"#;
    assert_eq!(json_shape(text), JsonShape::GeoJson);
}

#[test]
fn a_document_too_big_to_read_is_unknown() {
    assert_eq!(json_shape(r#"{"type":"FeatureCollection","features":[{"type":"Fea"#), JsonShape::Unknown);
    assert_eq!(json_shape(""), JsonShape::Unknown);
    assert_eq!(json_shape("[1,2,3]"), JsonShape::Unknown);
    assert_eq!(json_shape("not json at all"), JsonShape::Unknown);
}

#[test]
fn a_head_is_read_in_order_of_precedence() {
    let head = |tilejson: bool, tile: Option<&str>, kind: Option<&str>, version: Option<u64>, layers: bool| {
        Some(JsonHead {
            has_tilejson: tilejson,
            first_tile: tile.map(str::to_string),
            kind_name: kind.map(str::to_string),
            version,
            has_layers: layers,
        })
    };
    assert_eq!(shape_from(&None), JsonShape::Unknown);
    assert_eq!(shape_from(&head(true, None, Some("Feature"), Some(8), true)), JsonShape::TileJson);
    assert_eq!(shape_from(&head(false, Some("a/{z}/{x}"), Some("Feature"), None, false)), JsonShape::GeoJson);
    assert_eq!(shape_from(&head(false, Some("{y}{x}{z}"), None, None, false)), JsonShape::TileJson);
    assert_eq!(shape_from(&head(false, None, Some("Thing"), Some(8), true)), JsonShape::Style);
    assert_eq!(shape_from(&head(false, None, None, Some(7), true)), JsonShape::Unknown);
}

#[test]
fn this_build_offers_every_kind_but_raster() {
    let offered = kinds();
    let ids: Vec<&str> = offered.iter().map(|k| k.id.as_str()).collect();
    assert_eq!(ids, ["container", "vector", "tilejson", "table", "pipeline"]);
    let needs: Vec<Vec<String>> = offered.iter().map(|k| k.needs.clone()).collect();
    assert_eq!(needs[3], ["lon_column", "lat_column"]);
    assert!(needs.iter().enumerate().all(|(i, n)| i == 3 || n.is_empty()));
}

#[test]
fn an_operation_with_neither_filename_nor_url_is_fed_its_first_required_field() {
    assert_eq!(source_parameter("from_tile"), "filename");
    assert_eq!(source_parameter("raster_mask"), "geojson");
    assert_eq!(source_parameter("from_h3"), "resolution");
    assert_eq!(source_parameter("from_debug"), "filename");
    assert_eq!(source_parameter("no_such_operation"), "filename");
}

#[test]
fn only_a_local_json_is_read_before_it_is_opened() {
    assert!(needs_sniff("/data/a.json"));
    assert!(needs_sniff("/data/A.JSON"));
    assert!(!needs_sniff("https://example.org/tiles.json"));
    assert!(!needs_sniff("/data/a.geojson"));
}
