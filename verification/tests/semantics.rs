use std::collections::HashSet;
use studio_core::vpl::semantics::{role_of, roles, Choices, Formats, Names, Role};

#[test]
fn no_operation_or_field_is_listed_twice() {
    let mut seen = HashSet::new();
    for (operation, fields) in roles() {
        assert!(seen.insert(operation), "`{operation}` opens a second block, which is unreachable");
        let mut names = HashSet::new();
        for (field, _) in fields {
            assert!(names.insert(field), "`{operation}.{field}` is listed twice");
        }
    }
}

#[test]
fn a_field_with_nothing_to_add_has_no_role() {
    assert_eq!(role_of("from_debug", "format"), None);
    assert_eq!(role_of("remap_coords", "flip_x"), None);
    assert_eq!(role_of("from_geo", "layer_name"), None);
}

#[test]
fn the_colour_no_type_spells_is_the_one_the_table_keeps() {
    assert_eq!(role_of("from_color", "color"), None);
    assert_eq!(role_of("raster_flatten", "color"), Some(Role::Color));
}

#[test]
fn a_path_field_carries_its_formats() {
    assert_eq!(
        role_of("from_container", "filename"),
        Some(Role::Path { formats: Formats::Container, urls: true })
    );
    assert_eq!(Formats::Container.extensions(), vec!["versatiles", "mbtiles", "pmtiles", "tar"]);
    assert!(Formats::Any.extensions().is_empty());
}

#[test]
fn a_column_names_the_field_holding_its_file() {
    assert_eq!(
        role_of("vector_update_properties", "id_field_data"),
        Some(Role::Names(Names::ColumnOf("data_source_path")))
    );
    assert_eq!(role_of("raster_levels", "brightness"), Some(Role::Range { min: -255, max: 255 }));
    assert_eq!(role_of("from_color", "tile_size"), Some(Role::Choice(Choices::TileSize)));
    assert_eq!(Choices::TileSize.options(), vec!["256", "512"]);
}

#[test]
fn no_unclassified_field_of_a_known_shape() {
    let mut missing: Vec<String> = Vec::new();
    for meta in studio_core::vpl::operations::registry() {
        for field in &meta.fields {
            let name = field.name.as_str();
            let ty = field.rust_type.as_str();
            let expected = if ty.contains("[f64;4]") {
                Some("a bbox")
            } else if ty.contains("u8") && (name.contains("zoom") || name.contains("level")) {
                Some("a zoom level")
            } else if ty.contains("String") && name.contains("file") {
                Some("a path")
            } else {
                None
            };
            if let Some(what) = expected {
                if role_of(&meta.name, name).is_none() {
                    missing.push(format!("{}.{name} looks like {what} ({ty})", meta.name));
                }
            }
        }
    }
    assert!(missing.is_empty(), "upstream has fields with no role, so a form renders them plainly:\n  {}", missing.join("\n  "));
}
