use studio_core::vpl::document::Document;
use studio_core::vpl::validate::{between, distance, nearest, suggestion, validate};

fn diagnose(vpl: &str) -> Vec<String> {
    validate(&Document::parse(vpl).unwrap()).into_iter().map(|d| d.message).collect()
}

#[test]
fn a_correct_pipeline_has_nothing_to_say() {
    for vpl in [
        "from_debug format=png",
        "from_container filename=berlin.versatiles",
        "from_container filename=a | raster_overview level=2",
        "from_stacked [ from_debug format=png, from_debug format=png ]",
        "from_csv filename=a.csv lon_column=lon lat_column=lat | vector_repair",
    ] {
        assert_eq!(diagnose(vpl), Vec::<String>::new(), "{vpl} should be clean");
    }
}

#[test]
fn an_unknown_operation_is_named_and_a_near_miss_suggested() {
    let messages = diagnose("from_containr filename=a");
    assert_eq!(messages.len(), 1);
    assert!(messages[0].contains("unknown operation 'from_containr'"), "{messages:?}");
    assert!(messages[0].contains("did you mean `from_container`"), "{messages:?}");
}

#[test]
fn a_plausible_but_absent_operation_is_caught() {
    let messages = diagnose("from_container filename=a | vector_filter layer=roads");
    assert!(messages.iter().any(|m| m.contains("unknown operation 'vector_filter'")), "{messages:?}");
}

#[test]
fn an_unknown_parameter_is_reported_where_it_is_written() {
    let vpl = "from_debug format=png nonsense=1";
    let document = Document::parse(vpl).unwrap();
    let found = validate(&document);
    assert_eq!(found.len(), 1, "{found:?}");
    assert!(found[0].message.contains("has no parameter 'nonsense'"), "{found:?}");
    assert_eq!(document.slice(found[0].span), Some("nonsense"), "underline the key itself");
}

#[test]
fn a_missing_required_parameter_points_at_the_operation() {
    let document = Document::parse("from_container").unwrap();
    let found = validate(&document);
    assert_eq!(found.len(), 1, "{found:?}");
    assert!(found[0].message.contains("requires the parameter 'filename'"), "{found:?}");
    assert_eq!(document.slice(found[0].span), Some("from_container"));
}

#[test]
fn an_accepted_alias_is_never_reported() {
    for vpl in ["from_debug format=pbf", "from_debug format=jpeg", "from_debug format=mvt"] {
        assert!(diagnose(vpl).is_empty(), "{vpl} builds, so it must not be flagged");
    }
}

#[test]
fn a_value_that_is_neither_a_variant_nor_an_alias_is_reported() {
    assert!(!diagnose("from_debug format=notaformat").is_empty(), "upstream refuses this, so the editor should say so");
}

#[test]
fn operations_are_checked_for_position() {
    assert!(
        diagnose("from_debug format=png | from_debug format=png")[0].contains("can only be the first node"),
        "a read in transform position"
    );
    assert!(diagnose("raster_overview level=2")[0].contains("has to start with a read operation"), "a transform at the head");
}

#[test]
fn a_composite_without_sources_says_what_is_missing() {
    let messages = diagnose("from_stacked");
    assert_eq!(messages.len(), 1, "{messages:?}");
    assert!(messages[0].contains("needs at least one source"), "{messages:?}");
}

#[test]
fn nested_pipelines_are_checked_too() {
    let messages = diagnose("from_stacked [ from_containr filename=a ]");
    assert!(messages.iter().any(|m| m.contains("from_containr")), "{messages:?}");
}

#[test]
fn every_problem_is_reported_not_just_the_first() {
    let messages = diagnose("from_debug nonsense=1 | raster_overview rubbish=2");
    assert_eq!(messages.len(), 2, "both should be reported: {messages:?}");
}

#[test]
fn problems_come_back_in_the_order_they_are_written() {
    let document = Document::parse("from_debug nonsense=1 | raster_overview rubbish=2").unwrap();
    let found = validate(&document);
    assert_eq!(found.len(), 2);
    assert!(found[0].span.start < found[1].span.start);
    assert_eq!(document.slice(found[0].span), Some("nonsense"));
    assert_eq!(document.slice(found[1].span), Some("rubbish"));
}

#[test]
fn the_edit_distance_counts_insertions_removals_and_replacements() {
    assert_eq!(distance("", ""), 0);
    assert_eq!(distance("abc", ""), 3);
    assert_eq!(distance("", "ab"), 2);
    assert_eq!(distance("kitten", "sitting"), 3);
    assert_eq!(distance("from_containr", "from_container"), 1);
    assert_eq!(distance("Grüße", "Grusse"), 3);
}

#[test]
fn a_near_miss_must_be_near_enough_for_its_length() {
    let names: Vec<String> = ["from_csv", "from_geo", "from_container", "from_debug"].iter().map(|s| s.to_string()).collect();
    assert_eq!(nearest("from_containr", &names), Some(2));
    assert_eq!(nearest("from_gjo", &names), Some(1));
    assert_eq!(nearest("to_tile", &names), None);
    // At one distance the shorter name wins, then the earlier.
    let tied: Vec<String> = ["abcd", "abc", "abx"].iter().map(|s| s.to_string()).collect();
    assert_eq!(nearest("ab", &tied), Some(1));
}

#[test]
fn text_between_two_markers_is_found() {
    assert_eq!(between("unknown operation 'x' here", "'", "'").as_deref(), Some("x"));
    assert_eq!(between("no markers", "'", "'"), None);
    assert_eq!(between("one 'side", "'", "'"), None);
    assert_eq!(between("[]", "[", "]").as_deref(), Some(""));
}

#[test]
fn a_suggestion_is_added_only_for_an_unknown_operation_with_a_near_miss() {
    let names: Vec<String> = ["from_container", "raster_flatten"].iter().map(|s| s.to_string()).collect();
    assert_eq!(
        suggestion("unknown operation 'raster_flaten'", &names),
        "unknown operation 'raster_flaten' - did you mean `raster_flatten`?"
    );
    assert_eq!(suggestion("unknown operation 'zzz'", &names), "unknown operation 'zzz'");
    assert_eq!(suggestion("something else", &names), "something else");
}
