use studio_core::style::{dedup, draw_order, is_exportable, less, rename_in_order, segments, Preset, Segment};

fn whole(name: &str) -> Segment {
    Segment::whole(name.to_string())
}

fn names(list: &[&str]) -> Vec<String> {
    list.iter().map(|name| name.to_string()).collect()
}

fn view(segments: &[Segment]) -> Vec<(String, Option<String>)> {
    segments.iter().map(|s| (s.source.clone(), s.from.clone())).collect()
}

#[test]
fn a_font_named_twice_is_taken_once() {
    let repeated = ["a".to_string(), "b".to_string(), "a".to_string()];
    assert_eq!(dedup(&repeated.to_vec()), vec!["a".to_string(), "b".to_string()]);
}

#[test]
fn fonts_come_out_in_a_stable_order() {
    assert_eq!(
        dedup(&names(&["noto_sans_regular", "noto_sans_bold", "noto_sans_regular"])),
        names(&["noto_sans_bold", "noto_sans_regular"])
    );
    assert!(dedup(&Vec::new()).is_empty());
    assert!(less("ab", "b") && less("a", "ab") && !less("b", "b"));
}

#[test]
fn the_draw_order_survives_sources_coming_and_going() {
    let order = vec![whole("basemap"), whole("gone")];
    assert_eq!(draw_order(&order, &names(&["places", "basemap"])), names(&["basemap", "places"]));
    assert!(draw_order(&order, &Vec::new()).is_empty());
    assert_eq!(draw_order(&Vec::new(), &names(&["zebra", "alpha"])), names(&["alpha", "zebra"]));
}

#[test]
fn a_source_may_be_drawn_in_two_places() {
    let order = vec![
        whole("osm"),
        whole("dataviz"),
        Segment { source: "osm".into(), from: Some("label-place-city".into()) },
    ];
    let drawn = segments(&order, &names(&["osm", "dataviz"]));
    assert_eq!(drawn.len(), 3, "the source's second run is not deduplicated away");
    assert_eq!(drawn[2].source, "osm");
    assert_eq!(drawn[2].from.as_deref(), Some("label-place-city"));
    assert_eq!(draw_order(&order, &names(&["osm", "dataviz"])), names(&["osm", "dataviz"]));
}

#[test]
fn a_source_nothing_names_is_drawn_whole() {
    let order = vec![whole("osm")];
    assert_eq!(
        view(&segments(&order, &names(&["osm", "new"]))),
        vec![("osm".to_string(), None), ("new".to_string(), None)]
    );
}

#[test]
fn a_rename_carries_the_position_over() {
    let mut order = vec![
        whole("basemap"),
        whole("other"),
        Segment { source: "basemap".into(), from: Some("label-place-city".into()) },
    ];
    rename_in_order(&mut order, "basemap", "streets");
    assert_eq!(
        view(&order),
        vec![
            ("streets".to_string(), None),
            ("other".to_string(), None),
            ("streets".to_string(), Some("label-place-city".to_string())),
        ]
    );
}

#[test]
fn a_style_is_exported_as_json_or_code() {
    assert!(is_exportable("/tmp/style.json"));
    assert!(is_exportable("/tmp/STYLE.TS"));
    assert!(!is_exportable("/tmp/style.yaml"));
    assert!(!is_exportable("/tmp/json"));
    assert_eq!(Preset::default(), Preset::Colorful);
}
