use studio_core::store::{reconcile_panes, PaneState, RecentEntry, Recents, Side, RECENTS_CAPACITY};

fn pane(id: &str, side: Side, open: bool) -> PaneState {
    PaneState { id: id.to_string(), side, open }
}

#[test]
fn most_recent_comes_first_without_duplicating() {
    let mut recents = Recents::new();
    recents.record_at("/a", 1);
    recents.record_at("/b", 2);
    recents.record_at("/a", 3);
    let sources: Vec<_> = recents.entries().iter().map(|e| e.source.as_str()).collect();
    assert_eq!(sources, ["/a", "/b"], "re-opening moves up, not duplicates");
    assert_eq!(recents.entries()[0].opened_at, 3);
}

#[test]
fn recents_stay_bounded() {
    let mut recents = Recents::new();
    for i in 0..40 {
        recents.record_at(&format!("/{i}"), i);
    }
    assert_eq!(recents.entries().len(), RECENTS_CAPACITY);
    assert_eq!(recents.entries()[0].source, "/39");
}

#[test]
fn forgetting_removes_only_that_source() {
    let mut recents = Recents::new();
    recents.record_at("/a", 1);
    recents.record_at("/b", 2);
    recents.forget("/a");
    let sources: Vec<_> = recents.entries().iter().map(|e| e.source.as_str()).collect();
    assert_eq!(sources, ["/b"]);
    recents.forget("/nothing");
    assert_eq!(recents.entries().len(), 1);
}

#[test]
fn a_stored_list_is_cleaned_on_the_way_in() {
    let stored = vec![
        RecentEntry { source: "/a".into(), opened_at: 3 },
        RecentEntry { source: "/a".into(), opened_at: 1 },
        RecentEntry { source: "/b".into(), opened_at: 2 },
    ];
    let recents = Recents::from_entries(stored);
    let sources: Vec<_> = recents.entries().iter().map(|e| e.source.as_str()).collect();
    assert_eq!(sources, ["/a", "/b"]);
    assert_eq!(recents.entries()[0].opened_at, 3);
}

#[test]
fn a_pane_this_build_does_not_have_is_dropped() {
    let panes = reconcile_panes(vec![pane("pipeline", Side::Left, true), pane("from-the-future", Side::Left, true)]);
    assert!(panes.iter().all(|p| p.id != "from-the-future"));
    assert!(panes.iter().any(|p| p.id == "pipeline"));
}

#[test]
fn a_pane_the_file_has_never_heard_of_is_added() {
    let panes = reconcile_panes(vec![pane("pipeline", Side::Left, false)]);
    let ids: Vec<&str> = panes.iter().map(|p| p.id.as_str()).collect();
    assert_eq!(ids, ["pipeline", "output", "inspector"]);
    assert!(!panes[0].open, "the remembered pane kept its own state");
}

#[test]
fn a_remembered_order_survives_and_new_panes_go_last() {
    let panes = reconcile_panes(vec![pane("inspector", Side::Right, true), pane("pipeline", Side::Left, true)]);
    let ids: Vec<&str> = panes.iter().map(|p| p.id.as_str()).collect();
    assert_eq!(ids, ["inspector", "pipeline", "output"]);
}

#[test]
fn a_duplicated_pane_keeps_its_first_appearance() {
    let panes = reconcile_panes(vec![pane("pipeline", Side::Left, false), pane("pipeline", Side::Right, true)]);
    let pipelines: Vec<&PaneState> = panes.iter().filter(|p| p.id == "pipeline").collect();
    assert_eq!(pipelines.len(), 1);
    assert_eq!(pipelines[0].side, Side::Left);
    assert!(!pipelines[0].open);
}

#[test]
fn no_panes_at_all_fall_back_to_the_catalogue() {
    let panes = reconcile_panes(Vec::new());
    assert_eq!(panes, vec![pane("pipeline", Side::Left, true), pane("output", Side::Right, true), pane("inspector", Side::Right, true)]);
}
