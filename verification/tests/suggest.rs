use studio_core::suggest::{files_wanted_in, for_node_in, for_pipeline_in, ColumnFact};
use studio_core::vpl::document::Document;
use studio_core::vpl::operations::{Control, FieldInfo, OperationInfo};

fn field(name: &str) -> FieldInfo {
    FieldInfo { name: name.to_string(), doc: String::new(), required: false, sources: false, default: None, control: Control::Text }
}

fn from_csv() -> OperationInfo {
    OperationInfo {
        name: "from_csv".to_string(),
        kind: "read".to_string(),
        summary: String::new(),
        details: String::new(),
        fields: vec![field("filename"), field("lon_column"), field("lat_column"), field("delimiter"), field("properties_include")],
    }
}

fn facts(path: &str, columns: &[&str]) -> Vec<ColumnFact> {
    vec![ColumnFact { path: path.to_string(), columns: Some(columns.iter().map(|c| c.to_string()).collect()) }]
}

#[test]
fn a_csv_offers_its_own_columns_for_the_fields_that_name_one() {
    let document = Document::parse("from_csv filename=cities.csv").unwrap();
    let node = &document.pipeline().nodes[0];
    let ops = vec![from_csv()];
    let found = for_node_in(node, &ops, "/data", &facts("/data/cities.csv", &["city_id", "city_name"]));
    let fields: Vec<&str> = found.iter().map(|s| s.field.as_str()).collect();
    assert_eq!(fields, ["lon_column", "lat_column", "properties_include"]);
    assert_eq!(found[0].values, ["city_id", "city_name"]);
}

#[test]
fn a_relative_filename_resolves_the_way_the_pipeline_resolves_it() {
    let document = Document::parse("from_csv filename=quakes.csv").unwrap();
    let node = &document.pipeline().nodes[0];
    let ops = vec![from_csv()];
    assert!(!for_node_in(node, &ops, "/data", &facts("/data/quakes.csv", &["magnitude"])).is_empty());
    assert!(for_node_in(node, &ops, "/nowhere", &facts("/data/quakes.csv", &["magnitude"])).is_empty());
}

#[test]
fn an_absolute_filename_ignores_the_directory() {
    let document = Document::parse("from_csv filename='/data/quakes.csv'").unwrap();
    let node = &document.pipeline().nodes[0];
    let found = for_node_in(node, &vec![from_csv()], "/nowhere", &facts("/data/quakes.csv", &["magnitude"]));
    assert!(found[0].values.contains(&"magnitude".to_string()));
}

#[test]
fn a_node_with_no_file_behind_it_suggests_nothing() {
    let ops = vec![from_csv()];
    let none = Vec::new();
    for vpl in ["from_debug format=png", "from_csv"] {
        let document = Document::parse(vpl).unwrap();
        assert!(for_node_in(&document.pipeline().nodes[0], &ops, ".", &none).is_empty());
    }
    let unreadable = vec![ColumnFact { path: "/nowhere/absent.csv".to_string(), columns: None }];
    let document = Document::parse("from_csv filename=absent.csv").unwrap();
    assert!(for_node_in(&document.pipeline().nodes[0], &ops, "/nowhere", &unreadable).is_empty());
}

#[test]
fn each_node_gets_its_own_file_s_columns() {
    let document = Document::parse("from_stacked [ from_csv filename='a.csv', from_csv filename='b.csv' ]").unwrap();
    let ops = vec![from_csv()];
    assert_eq!(files_wanted_in(document.pipeline(), &ops, "/d").len(), 6);
    let mut known = facts("/d/a.csv", &["alpha"]);
    known.extend(facts("/d/b.csv", &["beta"]));
    let found = for_pipeline_in(document.pipeline(), &ops, "/d", &known);
    assert_eq!(found.len(), 2);
    assert_eq!(found[0].path, "0.0.0");
    assert_eq!(found[0].fields[0].values, ["alpha"]);
    assert_eq!(found[1].path, "0.1.0");
    assert_eq!(found[1].fields[0].values, ["beta"]);
}

#[test]
fn nodes_with_nothing_to_say_are_left_out() {
    let document = Document::parse("from_debug format=png | filter level_max=3").unwrap();
    assert!(studio_core::suggest::for_pipeline(document.pipeline(), "/tmp/suggest-quiet", &Vec::new()).is_empty());
}
