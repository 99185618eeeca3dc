use studio_core::vpl::parse::Parser;
use studio_core::vpl::print::quote_value;
use studio_core::vpl::read_node;

fn parse(text: &str) -> studio_core::vpl::ast::Pipeline {
    Parser::new(text).parse_document().unwrap_or_else(|e| panic!("{text:?} did not parse: {e:?}")).0
}

/// Opening a container is the same thing as putting a read node at the head of the pipeline, so
/// the node Studio shows has to be VPL that actually parses - including for the awkward paths
/// people really have.
#[test]
fn an_opened_container_becomes_a_read_node() {
    assert_eq!(read_node("from_container", "berlin.versatiles"), "from_container filename=berlin.versatiles");
    assert_eq!(
        read_node("from_container", "/data/My Tiles/berlin.versatiles"),
        "from_container filename='/data/My Tiles/berlin.versatiles'"
    );
    assert_eq!(
        read_node("from_container", "/data/it's here.versatiles"),
        "from_container filename=\"/data/it's here.versatiles\""
    );
    // The operation is whichever the import catalogue chose, so a GeoJSON reads as one too.
    assert_eq!(read_node("from_geo", "cities.geojson"), "from_geo filename=cities.geojson");

    for source in [
        "berlin.versatiles",
        "/data/My Tiles/berlin.versatiles",
        "/data/it's here.versatiles",
        "https://download.versatiles.org/osm.versatiles",
        "/data/Grüße.versatiles",
    ] {
        let vpl = read_node("from_container", source);
        let pipeline = parse(&vpl);
        assert_eq!(pipeline.nodes[0].property("filename"), [source.to_string()], "the path must survive the round trip intact");
    }
}

#[test]
fn a_value_is_quoted_with_the_least_punctuation() {
    assert_eq!(quote_value("mvt").as_deref(), Some("mvt"));
    assert_eq!(quote_value("13.4").as_deref(), Some("13.4"));
    assert_eq!(quote_value("foo bar").as_deref(), Some("'foo bar'"));
    assert_eq!(quote_value("it's").as_deref(), Some("\"it's\""));
    assert_eq!(quote_value("it's a \"quote\"\n").as_deref(), Some("\"it's a \\\"quote\\\"\\n\""));
    assert_eq!(quote_value("").as_deref(), Some("''"));
    assert_eq!(quote_value("bell\u{7}").as_deref(), Some("\"bell\u{7}\""));
}

#[test]
fn what_is_quoted_reads_back() {
    for value in ["mvt", "foo bar", "it's", "it's a \"quote\"", "line\nbreak", "tab\there", "back\\slash", "Grüße"] {
        let quoted = quote_value(value).unwrap();
        let pipeline = parse(&format!("from_debug a={quoted}"));
        assert_eq!(pipeline.nodes[0].property("a"), [value.to_string()], "{quoted}");
    }
}

#[test]
fn a_repeated_key_updates_the_first_and_the_rest_follow_in_order() {
    assert_eq!(
        studio_core::vpl::read_node_with("from_csv", "a b.csv", &[("lon_column", "lon"), ("filename", "x.csv")]),
        "from_csv filename=x.csv lon_column=lon"
    );
    assert_eq!(studio_core::vpl::read_node_with("from_csv", "", &[]), "from_csv filename=''");
}

#[test]
fn every_quoted_value_is_a_parameter_that_reads_back_as_itself() {
    for value in ["plain", "x.csv", "with space", "it's", "", "tab\there", "back\\slash \"q\"", "bell\u{7}"] {
        let quoted = quote_value(value).unwrap();
        let (pipeline, comments) = Parser::new(&format!("node a={quoted}")).parse_document().unwrap();
        assert!(comments.is_empty());
        assert_eq!(pipeline.nodes.len(), 1);
        assert_eq!(pipeline.nodes[0].property("a"), [value.to_string()], "{quoted}");
    }
}

#[test]
fn spans_point_at_what_they_name_and_comments_come_in_order() {
    let text = "# first\nfrom_csv filename=a.csv # after\n| filter level=3 [ from_debug  x=[1, 2] ]";
    let (pipeline, comments) = Parser::new(text).parse_document().unwrap();
    let at = |start: usize, end: usize| &text[start..end];
    let first = &pipeline.nodes[0];
    assert_eq!(at(first.name_span.start, first.name_span.end), "from_csv");
    let key = &first.properties[0];
    assert_eq!(at(key.key_span.start, key.key_span.end), "filename");
    assert_eq!(at(key.span.start, key.span.end), "filename=a.csv");
    let inner = &pipeline.nodes[1].sources[0].nodes[0];
    assert_eq!(at(inner.name_span.start, inner.name_span.end), "from_debug");
    assert_eq!(at(inner.properties[0].span.start, inner.properties[0].span.end), "x=[1, 2]");
    let texts: Vec<&str> = comments.iter().map(|c| at(c.span.start, c.span.end)).collect();
    assert_eq!(texts, ["# first", "# after"]);
    assert!(comments[0].span.end <= comments[1].span.start);
}

#[test]
fn a_value_span_covers_the_value_as_written() {
    let text = "from_csv filename='my file.csv' lon_column=\"x\\ty\" zoom=[1, 2] [ from_debug ]";
    let (pipeline, _) = Parser::new(text).parse_document().unwrap();
    let node = &pipeline.nodes[0];
    let written: Vec<&str> = node.properties.iter().map(|p| &text[p.value.span().start..p.value.span().end]).collect();
    assert_eq!(written, ["'my file.csv'", "\"x\\ty\"", "[1, 2]"]);
    assert_eq!(node.span.start, node.name_span.start);
    assert_eq!(&text[node.span.start..node.span.end], &text[..]);
}
