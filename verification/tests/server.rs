use studio_core::server::{tile_url_for, Revisions};

/// The template still has to be one MapLibre can fill in.
#[test]
fn a_tile_url_is_a_template_with_a_revision() {
    let url = "http://127.0.0.1:1/tiles/x/{z}/{x}/{y}?v=2";
    assert!(url.contains("{z}/{x}/{y}"), "MapLibre needs the placeholders intact");
    assert!(url.contains("?v="), "and the revision must survive them");
    assert_eq!(tile_url_for("http://127.0.0.1:1", "x", 2), url);
}

#[test]
fn a_remount_changes_the_url_and_leaves_the_others_alone() {
    let base = "http://127.0.0.1:8080";
    let mut revisions = Revisions::new();
    assert_eq!(revisions.tile_url(base, "berlin"), "http://127.0.0.1:8080/tiles/berlin/{z}/{x}/{y}?v=0");
    revisions.bump("berlin");
    let first = revisions.tile_url(base, "berlin");
    let other = revisions.tile_url(base, "elsewhere");
    revisions.bump("berlin");
    assert_ne!(revisions.tile_url(base, "berlin"), first);
    assert_eq!(revisions.tile_url(base, "elsewhere"), other, "an untouched mount keeps its URL");
    assert_eq!(revisions.revision("berlin"), 2);
    for _ in 0..10 {
        revisions.bump("elsewhere");
    }
    assert!(revisions.tile_url(base, "elsewhere").ends_with("?v=10"));
}
