use studio_core::history::{EditKind, History, Step, Target, LIMIT};

const G: Target = Target::Graph(1);
const H: Target = Target::Graph(2);

fn push(history: &mut History, target: Target, text: &str, kind: EditKind) {
    history.push_at(target, text.to_string(), kind, 0);
}

fn text(step: Option<Step>) -> Option<String> {
    step.map(|step| step.text)
}

#[test]
fn nothing_to_undo_at_the_start() {
    let mut history = History::new();
    assert!(!history.can_undo() && !history.can_redo());
    assert_eq!(history.undo(), None);
    assert_eq!(history.redo(), None);
}

#[test]
fn steps_back_and_forward_through_the_states() {
    let mut history = History::new();
    for t in ["a", "b", "c"] {
        push(&mut history, G, t, EditKind::Structured);
    }
    assert_eq!(history.current_of(G), Some("c"));
    assert_eq!(text(history.undo()).as_deref(), Some("b"));
    assert_eq!(text(history.undo()).as_deref(), Some("a"));
    assert!(!history.can_undo());
    assert_eq!(text(history.redo()).as_deref(), Some("b"));
    assert_eq!(text(history.redo()).as_deref(), Some("c"));
    assert!(!history.can_redo());
}

#[test]
fn editing_after_an_undo_discards_the_redo_tail() {
    let mut history = History::new();
    for t in ["a", "b", "c"] {
        push(&mut history, G, t, EditKind::Structured);
    }
    history.undo();
    history.undo();
    push(&mut history, G, "x", EditKind::Structured);
    assert!(!history.can_redo());
    assert_eq!(text(history.undo()).as_deref(), Some("a"));
}

#[test]
fn a_run_of_typing_is_one_step() {
    let mut history = History::new();
    history.push_at(G, "f".into(), EditKind::Typing, 1000);
    history.push_at(G, "fr".into(), EditKind::Typing, 1080);
    history.push_at(G, "fro".into(), EditKind::Typing, 1160);
    history.push_at(G, "from".into(), EditKind::Typing, 1240);
    assert_eq!(history.current_of(G), Some("from"));
    assert_eq!(history.undo(), None, "the whole burst collapsed into the first state");
}

#[test]
fn a_pause_in_typing_starts_a_new_step() {
    let mut history = History::new();
    history.push_at(G, "a".into(), EditKind::Typing, 1000);
    history.push_at(G, "ab".into(), EditKind::Typing, 3000);
    assert_eq!(text(history.undo()).as_deref(), Some("a"));
}

#[test]
fn a_structured_edit_never_merges_into_typing() {
    let mut history = History::new();
    history.push_at(G, "a".into(), EditKind::Typing, 1000);
    history.push_at(G, "ab".into(), EditKind::Structured, 1010);
    history.push_at(G, "abc".into(), EditKind::Typing, 1020);
    assert_eq!(text(history.undo()).as_deref(), Some("ab"));
    assert_eq!(text(history.undo()).as_deref(), Some("a"));
}

#[test]
fn recording_the_same_text_twice_changes_nothing() {
    let mut history = History::new();
    push(&mut history, G, "a", EditKind::Structured);
    push(&mut history, G, "a", EditKind::Structured);
    push(&mut history, G, "a", EditKind::Typing);
    assert!(!history.can_undo());
}

#[test]
fn the_stack_stays_bounded() {
    let mut history = History::new();
    for i in 0..(LIMIT + 50) {
        push(&mut history, G, &format!("v{i}"), EditKind::Structured);
    }
    assert_eq!(history.len(), LIMIT);
    assert_eq!(history.current_of(G), Some(format!("v{}", LIMIT + 49).as_str()));
    assert_eq!(text(history.undo()), Some(format!("v{}", LIMIT + 48)));
}

#[test]
fn clearing_forgets_everything() {
    let mut history = History::new();
    push(&mut history, G, "a", EditKind::Structured);
    push(&mut history, G, "b", EditKind::Structured);
    history.clear();
    assert!(!history.can_undo() && !history.can_redo());
    assert_eq!(history.current_of(G), None);
}

#[test]
fn undo_crosses_graphs_and_says_which_one() {
    let mut history = History::new();
    push(&mut history, G, "g1", EditKind::Structured);
    push(&mut history, H, "h1", EditKind::Structured);
    push(&mut history, G, "g2", EditKind::Structured);
    push(&mut history, H, "h2", EditKind::Structured);
    assert_eq!(history.undo(), Some(Step { target: H, text: "h1".into() }));
    assert_eq!(history.undo(), Some(Step { target: G, text: "g1".into() }));
    assert_eq!(history.undo(), None, "each graph is back at its first recorded state");
}

#[test]
fn undoing_restores_the_graphs_own_previous_state() {
    let mut history = History::new();
    push(&mut history, G, "from_debug format=png", EditKind::Structured);
    push(&mut history, H, "from_debug format=webp", EditKind::Structured);
    push(&mut history, G, "from_debug format=png | raster_flatten", EditKind::Structured);
    let step = history.undo().expect("something to undo");
    assert_eq!(step.target, G);
    assert_eq!(step.text, "from_debug format=png", "restored G's own previous text, not H's");
    assert_eq!(history.current_of(H).unwrap(), "from_debug format=webp", "H untouched");
}

#[test]
fn redo_returns_to_the_graph_it_came_from() {
    let mut history = History::new();
    push(&mut history, G, "g1", EditKind::Structured);
    push(&mut history, H, "h1", EditKind::Structured);
    push(&mut history, G, "g2", EditKind::Structured);
    history.undo();
    assert_eq!(history.redo(), Some(Step { target: G, text: "g2".into() }));
    assert_eq!(history.redo(), None);
}

#[test]
fn typing_does_not_merge_across_graphs() {
    let mut history = History::new();
    push(&mut history, G, "g0", EditKind::Replaced);
    push(&mut history, H, "h0", EditKind::Replaced);
    history.push_at(G, "a".into(), EditKind::Typing, 5000);
    history.push_at(H, "b".into(), EditKind::Typing, 5020);
    history.push_at(H, "bc".into(), EditKind::Typing, 5040);
    assert_eq!(history.undo(), Some(Step { target: H, text: "h0".into() }), "H falls back to its baseline in one step");
    assert_eq!(history.current_of(G).unwrap(), "a");
}

#[test]
fn a_graph_with_no_entries_has_no_current_text() {
    let mut history = History::new();
    push(&mut history, G, "g1", EditKind::Structured);
    assert_eq!(history.current_of(H), None);
}

#[test]
fn undo_stops_at_a_graphs_first_state_rather_than_borrowing_anothers() {
    let mut history = History::new();
    push(&mut history, G, "g1", EditKind::Structured);
    push(&mut history, H, "h1", EditKind::Structured);
    assert!(!history.can_undo(), "H has no earlier state of its own");
    assert_eq!(history.undo(), None);
    assert_eq!(history.current_of(G).unwrap(), "g1", "and G was not disturbed");
}

#[test]
fn the_style_and_the_graphs_share_one_stack() {
    let mut history = History::new();
    push(&mut history, G, "from_debug", EditKind::Structured);
    push(&mut history, Target::Style, r#"{"preset":"colorful"}"#, EditKind::Structured);
    push(&mut history, G, "from_debug | filter", EditKind::Structured);
    push(&mut history, Target::Style, r#"{"preset":"graybeard"}"#, EditKind::Structured);
    let step = history.undo().unwrap();
    assert_eq!(step.target, Target::Style);
    assert_eq!(step.text, r#"{"preset":"colorful"}"#);
    let step = history.undo().unwrap();
    assert_eq!(step.target, G);
    assert_eq!(step.text, "from_debug");
    assert_eq!(history.redo().unwrap().target, G);
    assert_eq!(history.redo().unwrap().target, Target::Style);
}

#[test]
fn a_style_edit_never_merges_into_a_run_of_typing() {
    let mut history = History::new();
    history.push_at(Target::Style, r#"{"preset":"colorful"}"#.into(), EditKind::Replaced, 1000);
    history.push_at(G, "from_".into(), EditKind::Typing, 1010);
    history.push_at(G, "from_d".into(), EditKind::Typing, 1020);
    history.push_at(Target::Style, r#"{"preset":"shadow"}"#.into(), EditKind::Typing, 1030);
    let step = history.undo().unwrap();
    assert_eq!(step.target, Target::Style);
    assert_eq!(step.text, r#"{"preset":"colorful"}"#, "the style goes back to its own last state");
    assert_eq!(history.current_of(G), Some("from_d"), "the run of typing was not swallowed into the style's edit");
}

#[test]
fn undo_then_redo_is_no_change() {
    let mut history = History::new();
    push(&mut history, G, "a", EditKind::Structured);
    push(&mut history, G, "b", EditKind::Structured);
    let back = history.undo().unwrap();
    assert_eq!(back.text, "a");
    assert_eq!(history.redo(), Some(Step { target: G, text: "b".into() }));
    assert_eq!(history.current_of(G), Some("b"));
}
