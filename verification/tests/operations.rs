use studio_core::vpl::operations::{control_for, inner_of, operations, registry, sorted_operations, Control, FieldInfo, FieldMeta, OperationMeta};

fn control(rust_type: &str) -> Control {
    control_for(rust_type, &Vec::new())
}

#[test]
fn an_enum_offers_its_variants() {
    let variants = vec!["png".to_string(), "webp".to_string()];
    assert_eq!(control_for("Option<TileFormat>", &variants), Control::Choice { options: variants.clone() });
}

#[test]
fn the_types_the_runner_names_choose_their_control() {
    assert_eq!(control("Option<bool>"), Control::Boolean);
    assert_eq!(control("Vec<String>"), Control::List);
    assert_eq!(control("GeoBBox"), Control::Bbox);
    assert_eq!(control("Option<HexColor>"), Control::Color { hex: true });
    assert_eq!(control("SeparatorChar"), Control::Char);
    assert_eq!(control("Option<CsvDelimiter>"), Control::Char);
    assert_eq!(control("FilePath"), Control::Path);
    assert_eq!(control("GeoCenter"), Control::Numbers { count: 3 });
}

#[test]
fn a_fixed_array_is_as_many_numbers_as_it_holds() {
    assert_eq!(control("[f64;4]"), Control::Numbers { count: 4 });
    assert_eq!(control("Option<[u8; 3]>"), Control::Numbers { count: 3 });
    assert_eq!(control("[String;2]"), Control::Text, "only numeric elements count");
    assert_eq!(control("[f64;x]"), Control::Text);
}

#[test]
fn a_number_is_bounded_by_its_width() {
    assert_eq!(control("Option<u8>"), Control::Number { integer: true, min: Some(0), max: Some(255) });
    assert_eq!(control("u32"), Control::Number { integer: true, min: Some(0), max: Some(u32::MAX) });
    assert_eq!(control("usize"), Control::Number { integer: true, min: Some(0), max: None });
    assert_eq!(control("i64"), Control::Number { integer: true, min: None, max: None });
    assert_eq!(control("f32"), Control::Number { integer: false, min: None, max: None });
}

#[test]
fn a_string_type_falls_back_to_text() {
    assert_eq!(control("String"), Control::Text);
    assert_eq!(control("Option<String>"), Control::Text);
}

#[test]
fn every_operation_is_listed_once_in_name_order() {
    let all = operations();
    assert!(!all.is_empty());
    for pair in all.windows(2) {
        assert!(pair[0].name < pair[1].name, "{} then {}", pair[0].name, pair[1].name);
    }
    assert!(all.iter().any(|op| op.name == "from_container"));
}

fn field(operation: &str, name: &str) -> FieldInfo {
    operations()
        .into_iter()
        .find(|op| op.name == operation)
        .unwrap_or_else(|| panic!("no operation {operation}"))
        .fields
        .into_iter()
        .find(|f| f.name == name)
        .unwrap_or_else(|| panic!("{operation} has no field {name}"))
}

#[test]
fn an_enum_becomes_a_choice_of_its_own_variants() {
    let Control::Choice { options } = field("from_debug", "format").control else {
        panic!("format should be a choice");
    };
    assert!(options.contains(&"png".to_string()), "{options:?}");
    assert!(options.contains(&"mvt".to_string()), "{options:?}");
}


#[test]
fn only_a_string_falls_back_to_text() {
    const KNOWN_TEXT_TYPES: &[&str] = &[
        "String",
        "MaxTileBytes",
        "QualityByZoom",
        "CelExpression",
        "RegexPattern",
        "TileJSON",
        "VectorLayers",
        "HttpUrl",
        "CrsExtent",
        "RasterTransform",
        "BandIndices",
        "NodataValues",
    ];

    let unrecognised: Vec<String> = registry()
        .iter()
        .flat_map(|meta| {
            meta.fields.iter().filter_map(move |field| {
                let inner = inner_of(&field.rust_type);
                let text = control_for(&field.rust_type, &field.enum_variants) == Control::Text;
                (text && !field.sources && !KNOWN_TEXT_TYPES.contains(&inner.as_str()))
                    .then(|| format!("{}.{} :: {}", meta.name, field.name, field.rust_type))
            })
        })
        .collect();

    assert!(
        unrecognised.is_empty(),
        "these reached the text fallback because `control_for` does not know their type: {unrecognised:?}"
    );
}

#[test]
fn a_url_is_not_a_path() {
    assert_eq!(field("from_tilejson", "url").control, Control::Text);
}

#[test]
fn a_float_is_a_number_without_bounds() {
    assert_eq!(field("dem_quantize", "elevation_error").control, Control::Number { integer: false, min: None, max: None });
}

#[test]
fn every_rectangle_in_the_registry_can_be_drawn() {
    let missed: Vec<String> = operations()
        .iter()
        .flat_map(|operation| {
            operation
                .fields
                .iter()
                .filter(|field| {
                    matches!(field.name.as_str(), "bbox" | "bounds")
                        && field.control != Control::Bbox
                        && !field.doc.contains("units of `crs`")
                })
                .map(|field| format!("{}.{}", operation.name, field.name))
        })
        .collect();
    assert!(missed.is_empty(), "named like a rectangle and not offered as one: {missed:?}");
}

#[test]
fn only_a_typed_colour_is_a_swatch() {
    let wrong: Vec<String> = registry()
        .iter()
        .flat_map(|meta| {
            meta.fields
                .iter()
                .filter(|field| {
                    matches!(control_for(&field.rust_type, &field.enum_variants), Control::Color { .. })
                        && inner_of(&field.rust_type) != "HexColor"
                })
                .map(move |field| format!("{}.{} :: {}", meta.name, field.name, field.rust_type))
        })
        .collect();
    assert!(wrong.is_empty(), "not colours: {wrong:?}");
}

#[test]
fn only_a_rectangle_is_drawn_on_the_map() {
    let wrong: Vec<String> = registry()
        .iter()
        .flat_map(|meta| {
            meta.fields
                .iter()
                .filter(|field| {
                    control_for(&field.rust_type, &field.enum_variants) == Control::Bbox && inner_of(&field.rust_type) != "GeoBBox"
                })
                .map(move |field| format!("{}.{} :: {}", meta.name, field.name, field.rust_type))
        })
        .collect();
    assert!(wrong.is_empty(), "not rectangles: {wrong:?}");
}

#[test]
fn a_fixed_array_the_table_says_nothing_about_is_bare_numbers() {
    assert_eq!(field("from_csv", "bbox").control, Control::Bbox);
    assert_eq!(field("meta_update", "center").control, Control::Numbers { count: 3 });
}

#[test]
fn a_string_list_is_a_list_and_a_plain_string_is_text() {
    assert_eq!(field("from_csv", "properties_include").control, Control::List);
    assert_eq!(field("from_csv", "layer_name").control, Control::Text);
}

#[test]
fn a_boolean_is_a_checkbox() {
    assert_eq!(field("from_csv", "has_header").control, Control::Boolean);
}

#[test]
fn a_sources_field_is_marked_rather_than_given_a_control() {
    let sources = field("from_stacked", "sources");
    assert!(sources.sources);
    assert!(sources.required);
}

#[test]
fn required_and_documentation_come_through() {
    let filename = field("from_container", "filename");
    assert!(filename.required);
    assert!(!filename.doc.is_empty(), "upstream documents its parameters; pass it on");
}

#[test]
fn an_unknown_type_falls_back_to_text() {
    assert_eq!(control("Option<SomethingNew>"), Control::Text);
    assert_eq!(control("[String;2]"), Control::Text);
}

#[test]
fn every_operation_reports_a_side_and_at_least_one_way_in() {
    for operation in operations() {
        assert!(operation.kind == "read" || operation.kind == "transform", "{} has kind {:?}", operation.name, operation.kind);
    }
}

#[test]
fn every_operation_has_a_short_usable_summary() {
    for operation in operations() {
        let summary = &operation.summary;
        assert!(!summary.is_empty(), "{} has no summary", operation.name);
        assert!(!summary.contains("###"), "{}'s summary swallowed a heading: {summary}", operation.name);
        assert!(summary.chars().count() <= 300, "{}'s summary is {} chars", operation.name, summary.chars().count());
    }
}

#[test]
fn details_leave_the_parameter_list_to_fields() {
    for operation in operations() {
        assert!(!operation.details.contains("### Parameters"), "{}'s details still carry the parameter list", operation.name);
    }
}

fn meta(name: &str, summary: &str) -> OperationMeta {
    OperationMeta {
        name: name.to_string(),
        kind: "transform".to_string(),
        summary: summary.to_string(),
        details: format!("{summary}, at length"),
        fields: vec![FieldMeta {
            name: "level".to_string(),
            doc: "How deep.".to_string(),
            rust_type: "Option<u8>".to_string(),
            required: false,
            sources: false,
            enum_variants: Vec::new(),
            default: Some("3".to_string()),
        }],
    }
}

#[test]
fn operations_of_one_name_keep_the_order_they_were_described_in() {
    let metas = vec![meta("raster_format", "first"), meta("filter", "only"), meta("raster_format", "second")];
    let sorted = sorted_operations(&metas);
    let order: Vec<(&str, &str)> = sorted.iter().map(|op| (op.name.as_str(), op.summary.as_str())).collect();
    assert_eq!(order, vec![("filter", "only"), ("raster_format", "first"), ("raster_format", "second")]);
    assert_eq!(sorted[0].details, "only, at length");
    assert_eq!(sorted[0].fields[0].doc, "How deep.");
    assert_eq!(sorted[0].fields[0].default.as_deref(), Some("3"));
    assert_eq!(sorted[0].fields[0].control, control("Option<u8>"));
}

#[test]
fn the_registry_lists_this_builds_operations_reads_first() {
    let names = [
        "from_color", "from_container", "from_csv", "from_debug", "from_geo", "from_grid", "from_h3",
        "from_merged_vector", "from_stacked_raster", "from_stacked", "from_tile", "from_tilejson", "filter",
        "meta_update", "remap_coords", "dem_overview", "dem_quantize", "dem_tile_resize", "raster_flatten",
        "raster_format", "raster_levels", "raster_mask", "raster_overscale", "raster_overview", "raster_tile_resize",
        "vector_filter_features", "vector_filter_layers", "vector_filter_properties", "vector_overzoom",
        "vector_repair", "vector_update_properties",
    ];
    let metas = registry();
    let listed: Vec<&str> = metas.iter().map(|m| m.name.as_str()).collect();
    assert_eq!(listed, names);
    for (i, meta) in metas.iter().enumerate() {
        assert_eq!(meta.kind, if i < 12 { "read" } else { "transform" }, "{}", meta.name);
    }
    let declared: Vec<(&str, Vec<(&str, bool)>)> = vec![
        ("from_color", vec![("color", false), ("tile_size", false), ("format", false)]),
        ("from_container", vec![("filename", true), ("ssh_identity", false)]),
        ("from_csv", vec![("filename", true), ("lon_column", true), ("lat_column", true), ("id_column", false), ("delimiter", false), ("has_header", false), ("layer_name", false), ("min_zoom", false), ("max_zoom", false), ("bbox", false), ("properties_include", false), ("properties_exclude", false), ("point_reduction", false), ("point_reduction_value", false), ("compression", false), ("max_tile_bytes", false)]),
        ("from_debug", vec![("format", false)]),
        ("from_geo", vec![("filename", true), ("layer_name", false), ("min_zoom", false), ("max_zoom", false), ("bbox", false), ("properties_include", false), ("properties_exclude", false), ("polygon_min_area", false), ("polygon_simplify", false), ("line_min_length", false), ("line_simplify", false), ("point_reduction", false), ("point_reduction_value", false), ("compression", false), ("max_tile_bytes", false), ("ignore_id", false)]),
        ("from_grid", vec![("epsg", true), ("size", true), ("bbox", true), ("offset", false), ("max_cells_per_tile", false), ("id_template", false), ("id_field", false), ("x_field", false), ("y_field", false), ("densify_tolerance", false), ("layer_name", false)]),
        ("from_h3", vec![("resolution", true), ("max_cells_per_tile", false), ("layer_name", false), ("id_field", false)]),
        ("from_merged_vector", vec![("sources", true)]),
        ("from_stacked_raster", vec![("sources", true), ("format", false), ("auto_overscale", false)]),
        ("from_stacked", vec![("sources", true)]),
        ("from_tile", vec![("filename", true)]),
        ("from_tilejson", vec![("url", true), ("max_retries", false), ("max_concurrent_requests", false)]),
        ("filter", vec![("bbox", false), ("bbox_border", false), ("level_min", false), ("level_max", false), ("filename", false)]),
        ("meta_update", vec![("attribution", false), ("bounds", false), ("center", false), ("description", false), ("fillzoom", false), ("legend", false), ("name", false), ("schema", false), ("tilejson", false), ("tilejson_file", false), ("tilejson_update", false), ("tilejson_update_file", false), ("vector_layers", false), ("vector_layers_file", false)]),
        ("remap_coords", vec![("flip_x", false), ("flip_y", false), ("swap_xy", false)]),
        ("dem_overview", vec![("level", false), ("encoding", false)]),
        ("dem_quantize", vec![("elevation_error", false), ("slope_error", false), ("encoding", false)]),
        ("dem_tile_resize", vec![("tile_size", true), ("encoding", false)]),
        ("raster_flatten", vec![("color", false)]),
        ("raster_format", vec![("format", false), ("quality", false), ("quality_translucent", false), ("effort", false)]),
        ("raster_levels", vec![("brightness", false), ("contrast", false), ("gamma", false)]),
        ("raster_mask", vec![("geojson", true), ("buffer", false), ("blur", false), ("blur_function", false)]),
        ("raster_overscale", vec![("level_base", false), ("level_max", false), ("enable_climbing", false)]),
        ("raster_overview", vec![("level", false)]),
        ("raster_tile_resize", vec![("tile_size", true)]),
        ("vector_filter_features", vec![("layer", true), ("expr", true)]),
        ("vector_filter_layers", vec![("filter", true), ("invert", false)]),
        ("vector_filter_properties", vec![("regex", true), ("invert", false)]),
        ("vector_overzoom", vec![("level_base", false), ("level_max", false), ("enable_climbing", false), ("buffer", false)]),
        ("vector_repair", vec![("drop_offenders", false)]),
        ("vector_update_properties", vec![("data_source_path", true), ("layer_name", true), ("id_field_tiles", true), ("id_field_data", true), ("replace_properties", false), ("remove_non_matching", false), ("include_id", false), ("field_separator", false), ("decimal_separator", false)]),
    ];
    for (meta, (name, fields)) in metas.iter().zip(&declared) {
        assert_eq!(meta.name, *name);
        let shape: Vec<(&str, bool)> = meta.fields.iter().map(|f| (f.name.as_str(), f.required)).collect();
        assert_eq!(&shape, fields, "{name}");
    }
}
