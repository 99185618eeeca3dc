use studio_core::paths::PathError;
use studio_core::project::{
    check_destination, check_manifest, check_name, file_is_inside, graph_ref, temp_path, GraphRef, Manifest,
    ProjectError, SavedGraph,
};

fn manifest(version: u32, files: &[&str]) -> Manifest {
    Manifest {
        version,
        graphs: files
            .iter()
            .map(|file| GraphRef { name: "g".to_string(), file: file.to_string() })
            .collect(),
    }
}

#[test]
fn a_destination_that_is_not_a_pipeline_is_refused() {
    let error = check_destination("/tmp/not-a-pipeline/berlin.mbtiles").unwrap_err();
    let ProjectError::NotAPipeline(message) = error else { panic!("{error:?}") };
    assert!(message.contains("saved as .vpl"), "{message}");
    assert!(check_destination("/tmp/pipeline.vpl").is_ok());
}

#[test]
fn a_temporary_file_sits_beside_its_target() {
    assert_eq!(temp_path("/tmp/atomic/pipeline.vpl"), "/tmp/atomic/pipeline.vpl.tmp");
}

#[test]
fn a_graph_name_that_is_a_path_is_refused() {
    assert_eq!(check_name("../escape"), Err(PathError::Separator));
    assert_eq!(check_name(".."), Err(PathError::Dot));
    assert_eq!(check_name("basemap"), Ok(()));
}

#[test]
fn a_graph_is_named_by_its_own_file() {
    let graph = SavedGraph {
        name: "basemap".to_string(),
        vpl: "from_debug format=png".to_string(),
        enabled: true,
        disabled: Vec::new(),
    };
    let entry = graph_ref(&graph);
    assert_eq!((entry.name.as_str(), entry.file.as_str()), ("basemap", "basemap.vpl"));
}

#[test]
fn a_manifest_cannot_name_a_file_outside_the_project() {
    assert_eq!(
        check_manifest(&manifest(1, &["basemap.vpl", "../../../etc/passwd"])),
        Err(ProjectError::Outside("../../../etc/passwd".to_string()))
    );
    assert_eq!(check_manifest(&manifest(1, &["basemap.vpl", "./hillshade.vpl"])), Ok(()));
    assert!(!file_is_inside("/etc/passwd"));
    assert!(!file_is_inside("sub/dir.vpl"));
    assert!(!file_is_inside(""));
}

#[test]
fn a_manifest_from_the_future_says_so() {
    assert_eq!(check_manifest(&manifest(99, &[])), Err(ProjectError::LaterVersion(99)));
}

#[test]
fn a_refused_name_says_why() {
    let error = studio_core::project::check_name("../escape").unwrap_err();
    assert_eq!(
        studio_core::project::name_refusal("../escape", &error),
        "\"../escape\" cannot be a graph name: \"../escape\" cannot be a filename - it contains a path separator"
    );
    let error = studio_core::project::check_name("").unwrap_err();
    assert_eq!(studio_core::project::name_refusal("", &error), "\"\" cannot be a graph name: an empty name cannot be a filename");
}
