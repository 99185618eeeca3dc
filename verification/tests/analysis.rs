use studio_core::analysis::{commonest_geometry, largest_first_order, layer_from, LayerFacts, LayerInspection};

fn layer(name: &str, bytes: usize) -> LayerInspection {
    LayerInspection { name: name.to_string(), feature_count: 1, encoded_bytes: bytes, property_keys: Vec::new(), geometry: "point".to_string() }
}

#[test]
fn the_commonest_geometry_names_the_layer() {
    assert_eq!(commonest_geometry(0, 5, 2), "line");
    assert_eq!(commonest_geometry(0, 0, 3), "point");
    assert_eq!(commonest_geometry(9, 1, 1), "polygon");
    assert_eq!(commonest_geometry(0, 0, 0), "unknown");
}

#[test]
fn a_tie_goes_to_the_more_specific_geometry() {
    assert_eq!(commonest_geometry(4, 4, 0), "polygon");
    assert_eq!(commonest_geometry(0, 2, 2), "line");
    assert_eq!(commonest_geometry(1, 1, 1), "polygon");
}

#[test]
fn layers_are_listed_largest_first() {
    let sorted = largest_first_order(vec![layer("a", 10), layer("b", 30), layer("c", 10), layer("d", 20)]);
    let names: Vec<&str> = sorted.iter().map(|l| l.name.as_str()).collect();
    assert_eq!(names, ["b", "d", "a", "c"], "equal sizes keep their order");
    let sizes: Vec<usize> = sorted.iter().map(|l| l.encoded_bytes).collect();
    assert!(sizes.windows(2).all(|w| w[0] >= w[1]));
}

#[test]
fn a_decoded_layer_is_shown_by_its_commonest_geometry() {
    let facts = LayerFacts {
        name: "roads".to_string(),
        geometry_types: vec![2, 2, 3, 1, 2],
        encoded_bytes: 120,
        property_keys: vec!["class".to_string()],
    };
    let layer = layer_from(&facts);
    assert_eq!(layer.name, "roads");
    assert_eq!(layer.feature_count, 5);
    assert_eq!(layer.encoded_bytes, 120);
    assert_eq!(layer.geometry, "line");
    assert_eq!(layer.property_keys, ["class"]);
}

#[test]
fn an_empty_tile_has_no_layers() {
    if let Some(tile) = studio_core::analysis::inspect_blob(3, 4, 5, &Vec::new()) {
        assert_eq!((tile.z, tile.x, tile.y, tile.stored_bytes), (3, 4, 5, 0));
        assert!(tile.layers.is_empty());
    }
}
