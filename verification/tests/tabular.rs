use studio_core::tabular::{columns_from, TabularError};

fn header(names: &[&str]) -> Vec<String> {
    names.iter().map(|n| n.to_string()).collect()
}

#[test]
fn candidate_order_beats_column_order() {
    let columns = columns_from(header(&["long", "longitude", "lat"]), ',').unwrap();
    assert_eq!(columns.lon.as_deref(), Some("longitude"));
}

/// **Matching is forgiving about space; reporting is not.** `a, lon` has a column called ` lon`,
/// and that is the name `from_csv` will look it up by.
#[test]
fn matching_ignores_case_and_surrounding_space() {
    let columns = columns_from(header(&["ID", " LON ", " LAT "]), ',').unwrap();
    assert_eq!(columns.names, ["ID", " LON ", " LAT "]);
    assert_eq!(columns.lon.as_deref(), Some(" LON "));
    assert_eq!(columns.lat.as_deref(), Some(" LAT "));
}

/// A guess fills in a required field, so a wrong one is worse than none.
#[test]
fn nothing_is_guessed_from_ambiguous_names() {
    let columns = columns_from(header(&["id", "x", "y"]), ',').unwrap();
    assert_eq!(columns.names, ["id", "x", "y"]);
    assert_eq!(columns.lon, None, "x is as often projected metres as a longitude");
    assert_eq!(columns.lat, None);
}

#[test]
fn an_empty_header_is_refused_and_the_delimiter_recorded() {
    assert!(matches!(columns_from(Vec::new(), ','), Err(TabularError::NoHeader)));
    let columns = columns_from(header(&["lng", "lattitude"]), '\t').unwrap();
    assert_eq!(columns.delimiter, "\t");
    assert_eq!(columns.lon.as_deref(), Some("lng"));
    assert_eq!(columns.lat.as_deref(), Some("lattitude"));
}
