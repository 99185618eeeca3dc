use studio_core::vpl::ast::Span;
use studio_core::vpl::document::Document;

#[test]
fn the_text_is_kept_byte_for_byte() {
    let text = "# a comment\nfrom_debug format=png   |  raster_overview level=2\n";
    let document = Document::parse(text).unwrap();
    assert_eq!(document.text(), text);
    assert_eq!(document.comments().len(), 1);
    assert_eq!(document.pipeline().nodes.len(), 2);
}

#[test]
fn an_edit_that_would_not_parse_changes_nothing() {
    let text = "from_debug format=png";
    let mut document = Document::parse(text).unwrap();
    assert!(document.replace(Span::new(0, 10), "|").is_err());
    assert_eq!(document.text(), text);
    document.replace(Span::new(18, 21), "pbf").unwrap();
    assert_eq!(document.text(), "from_debug format=pbf");
}

#[test]
fn a_span_inside_a_character_is_refused() {
    let text = "from_debug format='é'";
    let mut document = Document::parse(text).unwrap();
    assert!(document.replace(Span::new(20, 21), "x").is_err());
    assert_eq!(document.text(), text);
}

#[test]
fn a_value_is_quoted_the_way_it_needs() {
    let mut document = Document::parse("from_container filename=a.mbtiles").unwrap();
    document.set_value(Span::new(24, 33), "my tiles.mbtiles").unwrap();
    assert_eq!(document.text(), "from_container filename='my tiles.mbtiles'");
    assert!(document.set_value(Span::new(0, 3), "x").is_err(), "no value sits there");
    document.set_value(Span::new(24, 42), "").unwrap();
    assert_eq!(document.text(), "from_container filename=''", "the empty value is written ''");
}
