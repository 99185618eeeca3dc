use studio_core::graphs::Graphs;
use studio_core::vpl::document::Document;
use studio_core::graphs::{name_for_source, sanitise, MAX_NAME};

#[test]
fn a_name_survives_a_url_a_filename_and_a_json_key() {
    assert_eq!(sanitise("Berlin Extract"), "berlin-extract");
    assert_eq!(sanitise("  spaced  out  "), "spaced-out");
    assert_eq!(sanitise("osm/2024"), "osm-2024");
    assert_eq!(sanitise("a...b"), "a-b", "a run of punctuation is one separator");
    assert_eq!(sanitise("--edges--"), "edges");
    assert_eq!(sanitise("Grüße"), "gr-e", "non-ASCII is not smuggled into a URL");
    assert_eq!(sanitise("!!!"), "");
    assert!(sanitise(&"x".repeat(200)).len() <= MAX_NAME);
}

#[test]
fn a_source_names_its_graph_after_the_file() {
    assert_eq!(name_for_source("berlin.mbtiles"), "berlin");
    assert_eq!(name_for_source("/data/tiles/berlin.mbtiles"), "berlin");
    assert_eq!(name_for_source("places.geojson"), "places");
    // A URL is a path as far as the stem is concerned.
    assert_eq!(name_for_source("https://example.org/tiles/osm.versatiles"), "osm");
}

/// The two ways a graph is created must not disagree: `open_vpl` derives the same name.
#[test]
fn a_vpl_and_the_container_it_reads_agree_on_the_stem() {
    assert_eq!(name_for_source("berlin.vpl"), name_for_source("berlin.mbtiles"));
}

#[test]
fn a_source_with_no_usable_stem_falls_back() {
    assert_eq!(name_for_source("/data/tiles/"), "tiles");
    assert_eq!(name_for_source(""), "graph");
    // Sanitises away to nothing, so it is no better than the fallback.
    assert_eq!(name_for_source("///"), "graph");
}

#[test]
fn a_long_name_is_cut_to_the_limit() {
    let long = "ab-".repeat(40);
    let cleaned = sanitise(&long);
    assert_eq!(cleaned.len(), MAX_NAME);
    assert!(cleaned.starts_with("ab-ab"));
}

#[test]
fn stems_follow_the_platform_rules() {
    assert_eq!(name_for_source(".hidden"), ".hidden");
    assert_eq!(name_for_source("archive.tar.gz"), "archive.tar");
    assert_eq!(name_for_source("a/.."), "graph");
    assert_eq!(name_for_source("a/./"), "a");
    assert_eq!(name_for_source("dir/!!!.png"), "graph");
}

fn doc(text: &str) -> Document {
    Document::parse(text).unwrap()
}

fn graphs() -> Graphs {
    Graphs::new()
}

#[test]
fn a_suggested_name_gives_way_to_one_already_taken() {
    let mut graphs = graphs();
    graphs.add("places", doc("from_debug format=png"), None);
    let second = graphs.add("places", doc("from_debug format=webp"), None);
    let third = graphs.add("Places", doc("from_debug format=jpg"), None);

    assert_eq!(graphs.get(second).unwrap().name, "places-2");
    assert_eq!(graphs.get(third).unwrap().name, "places-3", "and sanitising happens first");
}

#[test]
fn a_rename_onto_a_taken_name_is_refused() {
    let mut graphs = graphs();
    let a = graphs.add("basemap", doc("from_debug format=png"), None);
    let b = graphs.add("hillshade", doc("from_debug format=png"), None);

    let error = graphs.rename(b, "basemap").unwrap_err();
    assert!(error.message().contains("already called"), "{}", error.message());
    assert_eq!(graphs.get(b).unwrap().name, "hillshade", "and nothing changed");
    assert_eq!(graphs.get(a).unwrap().name, "basemap");
}

#[test]
fn a_rename_cleans_what_it_accepts() {
    let mut graphs = graphs();
    let id = graphs.add("basemap", doc("from_debug format=png"), None);

    assert_eq!(graphs.rename(id, "Berlin Extract").unwrap(), "berlin-extract");
    assert_eq!(graphs.get(id).unwrap().name, "berlin-extract");
    assert_eq!(graphs.rename(id, "berlin-extract").unwrap(), "berlin-extract");
}

#[test]
fn a_name_that_sanitises_to_nothing_is_refused() {
    let mut graphs = graphs();
    let id = graphs.add("basemap", doc("from_debug format=png"), None);

    assert!(graphs.rename(id, "!!!").is_err());
    assert!(graphs.rename(id, "   ").is_err());
    assert_eq!(graphs.get(id).unwrap().name, "basemap");
}

#[test]
fn an_id_outlives_the_name_it_started_with() {
    let mut graphs = graphs();
    let id = graphs.add("basemap", doc("from_debug format=png"), None);

    graphs.rename(id, "osm").unwrap();
    assert_eq!(graphs.get(id).unwrap().name, "osm");
    assert!(graphs.by_name("basemap").is_none());
    assert_eq!(graphs.by_name("osm").map(|g| g.id), Some(id));
}

#[test]
fn a_removed_graphs_id_is_not_handed_out_again() {
    let mut graphs = graphs();
    let first = graphs.add("a", doc("from_debug format=png"), None);
    assert!(graphs.remove(first));
    assert!(!graphs.remove(first), "removing twice is not an error, it is a no-op");

    let second = graphs.add("b", doc("from_debug format=png"), None);
    assert_ne!(first, second);
    assert!(graphs.get(first).is_none());
}

#[test]
fn two_files_with_one_name_do_not_collide() {
    let mut graphs = graphs();
    let first = graphs.add(&name_for_source("/a/places.geojson"), doc("from_debug format=png"), None);
    let second = graphs.add(&name_for_source("/b/places.geojson"), doc("from_debug format=png"), None);

    assert_eq!(graphs.get(first).unwrap().name, "places");
    assert_eq!(graphs.get(second).unwrap().name, "places-2");
}

#[test]
fn removing_a_graph_frees_its_name() {
    let mut graphs = graphs();
    let first = graphs.add("places", doc("from_debug format=png"), None);
    graphs.remove(first);

    let second = graphs.add("places", doc("from_debug format=png"), None);
    assert_eq!(graphs.get(second).unwrap().name, "places");
}

#[test]
fn dirty_is_a_comparison_not_a_flag() {
    let mut graphs = graphs();
    let saved = "from_debug format=png";
    let id = graphs.add("a", doc(saved), Some(("/tmp/a.vpl".to_string(), saved.to_string())));
    assert!(!graphs.get(id).unwrap().info().dirty);

    assert!(graphs.set_document(id, doc("from_debug format=webp")));
    assert!(graphs.get(id).unwrap().info().dirty);

    let unsaved = graphs.add("b", doc(saved), None);
    assert!(graphs.get(unsaved).unwrap().info().dirty);
}

#[test]
fn a_name_with_no_letters_becomes_graph_and_counts_on() {
    let mut graphs = graphs();
    let first = graphs.add("!!!", doc("from_debug format=png"), None);
    let second = graphs.add("", doc("from_debug format=png"), None);
    assert_eq!(graphs.get(first).unwrap().name, "graph");
    assert_eq!(graphs.get(second).unwrap().name, "graph-2");
    assert_eq!(graphs.list().len(), 2);
    assert_eq!(graphs.list()[1].path, None);
}
