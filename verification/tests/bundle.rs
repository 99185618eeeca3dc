use studio_core::bundle::{anchored, is_url, names_a_file, normalise, reanchor};
use studio_core::vpl::document::Document;

/// What each file reference says, whatever quoting was chosen for it.
fn written(text: &str) -> Vec<String> {
    let document = Document::parse(text).unwrap();
    studio_core::bundle::file_references(document.pipeline())
        .into_iter()
        .map(|reference| reference.value)
        .collect()
}

#[test]
fn a_file_below_the_save_becomes_relative() {
    let text = "from_container filename='/home/anna/maps/berlin.mbtiles'";
    let out = reanchor(text, None, "/home/anna/maps").unwrap();
    assert_eq!(written(&out), ["berlin.mbtiles"]);
}

#[test]
fn a_file_deeper_still_keeps_the_path_below() {
    let text = "from_container filename='/home/anna/maps/data/berlin.mbtiles'";
    let out = reanchor(text, None, "/home/anna/maps").unwrap();
    assert_eq!(written(&out), ["data/berlin.mbtiles"]);
}

#[test]
fn a_file_outside_stays_absolute() {
    let text = "from_container filename='/home/anna/other/berlin.mbtiles'";
    let out = reanchor(text, None, "/home/anna/maps").unwrap();
    assert_eq!(written(&out), ["/home/anna/other/berlin.mbtiles"]);
    assert!(!out.contains(".."), "{out}");
}

#[test]
fn saving_somewhere_else_keeps_pointing_at_the_same_file() {
    let text = "from_container filename=berlin.mbtiles";
    let out = reanchor(text, Some("/home/anna/maps"), "/tmp/elsewhere").unwrap();
    assert_eq!(written(&out), ["/home/anna/maps/berlin.mbtiles"]);
}

#[test]
fn saving_in_place_leaves_a_relative_path_alone() {
    let text = "from_container filename='data/berlin.mbtiles'";
    let out = reanchor(text, Some("/home/anna/maps"), "/home/anna/maps").unwrap();
    assert_eq!(written(&out), ["data/berlin.mbtiles"]);
    assert_eq!(out, text, "nothing needed rewriting, so nothing was");
}

#[test]
fn a_url_is_left_exactly_as_it_is() {
    let text = "from_tilejson url='https://example.org/tiles.json'";
    let out = reanchor(text, None, "/home/anna/maps").unwrap();
    assert_eq!(out, text);
}

#[test]
fn a_missing_file_is_anchored_like_any_other() {
    let text = "from_container filename='/home/anna/maps/gone.mbtiles'";
    let out = reanchor(text, None, "/home/anna/maps").unwrap();
    assert_eq!(written(&out), ["gone.mbtiles"]);
}

#[test]
fn a_path_that_doubles_back_is_still_below() {
    let text = "from_container filename='/home/anna/maps/../maps/berlin.mbtiles'";
    let out = reanchor(text, None, "/home/anna/maps").unwrap();
    assert_eq!(written(&out), ["berlin.mbtiles"]);
}

#[test]
fn every_reference_in_the_pipeline_is_anchored() {
    let text = "from_container filename='/home/anna/maps/a.mbtiles' | filter filename='/home/anna/maps/b.geojson'";
    let out = reanchor(text, None, "/home/anna/maps").unwrap();
    assert_eq!(written(&out), ["a.mbtiles", "b.geojson"]);
}

#[test]
fn anchoring_what_is_already_anchored_changes_nothing() {
    let dir = "/home/anna/maps";
    let once = reanchor("from_container filename='/home/anna/maps/berlin.mbtiles'", None, dir).unwrap();
    let twice = reanchor(&once, Some(dir), dir).unwrap();
    assert_eq!(once, twice);
}

#[test]
fn comments_and_layout_survive_anchoring() {
    let text = "# Berlin\nfrom_container filename='/home/anna/maps/berlin.mbtiles' # the input\n  | vector_repair\n";
    let out = reanchor(text, None, "/home/anna/maps").unwrap();
    assert_eq!(out, "# Berlin\nfrom_container filename=berlin.mbtiles # the input\n  | vector_repair\n");
}

#[test]
fn a_pipeline_that_does_not_parse_is_refused() {
    assert!(reanchor("from_container filename=", None, "/tmp").is_err());
}

#[test]
fn a_windows_path_is_not_mistaken_for_a_url() {
    assert!(!is_url("C:\\tiles\\berlin.mbtiles"));
    assert!(is_url("https://example.org/a"));
    assert!(is_url("s3://bucket/a"));
    assert!(!is_url("data/berlin.mbtiles"));
}

#[test]
fn only_the_listed_fields_name_files() {
    assert!(names_a_file("from_container", "filename"));
    assert!(names_a_file("from_tilejson", "url"));
    assert!(names_a_file("vector_update_properties", "data_source_path"));
    assert!(!names_a_file("from_tilejson", "filename"));
    assert!(!names_a_file("from_debug", "format"));
}

#[test]
fn a_path_is_resolved_without_the_file_system() {
    assert_eq!(normalise("/a/b/../c/./d"), "/a/c/d");
    assert_eq!(normalise("a//b/"), "a/b");
    assert_eq!(normalise("../x"), "../x");
    assert_eq!(normalise("/.."), "/..");
    assert_eq!(anchored("x.csv", Some("/data"), "/data"), "x.csv");
    assert_eq!(anchored("/other/x.csv", None, "/data"), "/other/x.csv");
}

use studio_core::bundle::{paths_to_check, plan, FileFact, ReferenceKind, Source};

fn source(name: &str, text: &str, dir: Option<&str>) -> Source {
    Source { name: name.to_string(), text: text.to_string(), dir: dir.map(str::to_string), enabled: true, disabled: Vec::new() }
}

fn fact(path: &str, bytes: u64) -> FileFact {
    FileFact { path: path.to_string(), bytes: Some(bytes) }
}

#[test]
fn a_url_is_left_alone() {
    let vpl = "from_container filename='https://example.org/berlin.versatiles'";
    let plan = plan(&vec![source("berlin", vpl, None)], &Vec::new()).unwrap();
    assert!(plan.carry.is_empty(), "a URL works from anywhere");
    assert_eq!(plan.graphs[0].vpl, vpl, "and so is not rewritten");
    assert_eq!(plan.references[0].kind, ReferenceKind::Remote);
}

#[test]
fn an_absolute_path_is_carried_and_the_pipeline_renamed() {
    let vpl = "from_container filename='/tmp/x/berlin.mbtiles' | vector_repair";
    let plan = plan(&vec![source("berlin", vpl, None)], &vec![fact("/tmp/x/berlin.mbtiles", 5)]).unwrap();
    assert_eq!(plan.carry.len(), 1);
    assert_eq!(plan.carry[0].to, "data/berlin.mbtiles");
    assert_eq!(plan.carry[0].bytes, 5);
    assert_eq!(plan.bytes(), 5);
    assert_eq!(plan.graphs[0].vpl, "from_container filename='data/berlin.mbtiles' | vector_repair");
}

#[test]
fn a_relative_name_resolves_against_the_graphs_own_directory() {
    let vpl = "from_csv filename=quakes.csv lon_column=lon lat_column=lat";
    let graph = source("quakes", vpl, Some("/tmp/q"));
    assert_eq!(paths_to_check(&graph).unwrap(), vec!["/tmp/q/quakes.csv".to_string()]);
    let plan = plan(&vec![graph], &vec![fact("/tmp/q/quakes.csv", 12)]).unwrap();
    assert_eq!(plan.carry.len(), 1);
    assert_eq!(plan.carry[0].from, "/tmp/q/quakes.csv");
}

#[test]
fn one_file_named_twice_is_carried_once() {
    let vpl = "from_container filename='/tmp/s/shared.mbtiles'";
    let plan = plan(&vec![source("a", vpl, None), source("b", vpl, None)], &vec![fact("/tmp/s/shared.mbtiles", 5)]).unwrap();
    assert_eq!(plan.carry.len(), 1);
    assert_eq!(plan.graphs[0].vpl, plan.graphs[1].vpl);
    assert!(plan.graphs[0].vpl.contains("data/shared.mbtiles"));
}

#[test]
fn two_files_sharing_a_name_do_not_collide() {
    let a = "from_csv filename='/tmp/one/cities.csv'";
    let b = "from_csv filename='/tmp/two/cities.csv'";
    let facts = vec![fact("/tmp/one/cities.csv", 13), fact("/tmp/two/cities.csv", 12)];
    let plan = plan(&vec![source("a", a, None), source("b", b, None)], &facts).unwrap();
    assert_eq!(plan.carry.len(), 2);
    assert_eq!(plan.carry[0].to, "data/cities.csv");
    assert_eq!(plan.carry[1].to, "data/cities-2.csv");
    assert!(plan.graphs[1].vpl.contains("data/cities-2.csv"), "{}", plan.graphs[1].vpl);
    assert_eq!(plan.bytes(), 25);
}

#[test]
fn a_missing_file_is_reported_and_left_as_written() {
    let vpl = "from_container filename='/nowhere/berlin.mbtiles'";
    let plan = plan(&vec![source("berlin", vpl, None)], &vec![FileFact { path: "/nowhere/berlin.mbtiles".into(), bytes: None }]).unwrap();
    assert!(plan.carry.is_empty());
    assert_eq!(plan.missing().len(), 1);
    assert_eq!(plan.graphs[0].vpl, vpl, "the name it had is the best guess there is");
}

#[test]
fn several_references_in_one_graph_are_all_rewritten() {
    let vpl = "from_stacked [ from_csv filename='/tmp/m/a.csv', from_csv filename='/tmp/m/b.csv' ]";
    let plan = plan(&vec![source("both", vpl, None)], &vec![fact("/tmp/m/a.csv", 4), fact("/tmp/m/b.csv", 4)]).unwrap();
    assert_eq!(plan.carry.len(), 2);
    assert_eq!(plan.graphs[0].vpl, "from_stacked [ from_csv filename='data/a.csv', from_csv filename='data/b.csv' ]");
}

#[test]
fn everything_but_the_paths_is_untouched() {
    let vpl = "# Berlin\nfrom_container filename='/tmp/e/berlin.mbtiles' # the input\n  | vector_repair\n";
    let plan = plan(&vec![source("berlin", vpl, None)], &vec![fact("/tmp/e/berlin.mbtiles", 5)]).unwrap();
    assert_eq!(plan.graphs[0].vpl, "# Berlin\nfrom_container filename='data/berlin.mbtiles' # the input\n  | vector_repair\n");
}

#[test]
fn a_name_needing_quotes_gets_them() {
    let vpl = "from_container filename='/tmp/q/my tiles.mbtiles'";
    let plan = plan(&vec![source("berlin", vpl, None)], &vec![fact("/tmp/q/my tiles.mbtiles", 5)]).unwrap();
    assert_eq!(plan.graphs[0].vpl, "from_container filename='data/my tiles.mbtiles'");
    assert!(studio_core::vpl::document::Document::parse(&plan.graphs[0].vpl).is_ok());
}

#[test]
fn a_graph_naming_no_file_is_unchanged() {
    let vpl = "from_debug format=png\n  | raster_overview level=2\n";
    let plan = plan(&vec![source("debug", vpl, None)], &Vec::new()).unwrap();
    assert_eq!(plan.graphs[0].vpl, vpl);
    assert!(plan.references.is_empty());
}

#[test]
fn a_graph_that_does_not_parse_is_named_in_the_error() {
    let error = plan(&vec![source("broken", "from_debug format=", None)], &Vec::new()).unwrap_err();
    assert_eq!(error.graph, "broken");
}

#[test]
fn every_file_valued_field_upstream_is_listed() {
    let mut unlisted = Vec::new();
    for operation in studio_core::vpl::operations::operations() {
        for field in &operation.fields {
            let looks_like_a_file = ["file", "path", "url", "dir"].iter().any(|hint| field.name.contains(hint));
            if looks_like_a_file && !names_a_file(&operation.name, &field.name) {
                unlisted.push(format!("{}.{}", operation.name, field.name));
            }
        }
    }
    unlisted.sort();
    assert!(
        unlisted.is_empty(),
        "upstream has file-valued fields the list does not name, so a bundle would leave them behind: {unlisted:?}"
    );
}

#[test]
fn a_file_named_like_a_numbered_copy_does_not_take_its_place() {
    let a = "from_csv filename='/a/cities.csv'";
    let b = "from_csv filename='/b/cities.csv'";
    let c = "from_csv filename='/c/cities-2.csv'";
    let facts = vec![fact("/a/cities.csv", 1), fact("/b/cities.csv", 2), fact("/c/cities-2.csv", 3)];
    let plan = plan(&vec![source("a", a, None), source("b", b, None), source("c", c, None)], &facts).unwrap();
    let tos: Vec<&str> = plan.carry.iter().map(|c| c.to.as_str()).collect();
    assert_eq!(tos, ["data/cities.csv", "data/cities-2.csv", "data/cities-2-2.csv"]);
}

#[test]
fn a_copy_opens_looking_the_way_the_original_looked() {
    let mut hidden = source("hidden", "from_debug format=png | raster_format format=webp", None);
    hidden.enabled = false;
    hidden.disabled = vec![vec![1]];
    let shown = source("shown", "from_csv filename=cities.csv", Some("/data"));
    let plan = plan(&vec![hidden, shown], &vec![fact("/data/cities.csv", 10)]).unwrap();
    assert_eq!(plan.graphs.len(), 2);
    assert_eq!((plan.graphs[0].name.as_str(), plan.graphs[0].enabled), ("hidden", false));
    assert_eq!(plan.graphs[0].disabled, vec![vec![1u32]]);
    assert_eq!((plan.graphs[1].name.as_str(), plan.graphs[1].enabled), ("shown", true));
    assert!(plan.graphs[1].disabled.is_empty());
    assert!(plan.carry.iter().all(|c| c.to.starts_with("data/")), "{:?}", plan.carry);
}

#[test]
fn a_path_anchored_once_stays_as_it_is_when_anchored_again_in_place() {
    for value in ["/data/x.csv", "/data/sub/./y.csv", "/other/../x.csv", "/data", "/elsewhere/z.csv"] {
        let once = anchored(value, None, "/data/");
        assert_eq!(anchored(&once, Some("/data/"), "/data/"), once, "{value}");
        let once = anchored(value, None, "/data");
        assert_eq!(anchored(&once, Some("/data"), "/data"), once, "{value}");
    }
}
