use studio_core::diagnostics::{Level, NewProblem, Origin, Problems, HISTORY};

fn error(message: &str) -> NewProblem {
    NewProblem { level: Level::Error, origin: Origin::Webview, message: message.to_string(), detail: None }
}

#[test]
fn keeps_what_it_is_told() {
    let mut log = Problems::new();
    assert_eq!(log.record_at(error("no such file"), 10), 1);
    assert_eq!(log.record_at(error("port in use"), 11), 2);

    let held = log.list();
    assert_eq!(held.len(), 2);
    assert_eq!(held[0].message, "no such file", "oldest first");
    assert_eq!(held[0].count, 1);
    assert_ne!(held[0].id, held[1].id, "ids are distinct");
}

/// The `bin` container case: one decode error per tile.
#[test]
fn folds_a_repeat_into_the_entry_it_repeats() {
    let mut log = Problems::new();
    log.record_at(error("could not decode tile"), 1);
    for at in 0..99 {
        assert_eq!(log.record_at(error("could not decode tile"), 2 + at), 1, "still one entry");
    }

    let held = log.list();
    assert_eq!(held.len(), 1);
    assert_eq!(held[0].count, 100);
    assert_eq!(held[0].at, 100, "a repeat moves the entry in time");
}

/// Folded across the list, not only against the last entry: real sessions interleave.
#[test]
fn folds_a_repeat_that_something_else_came_between() {
    let mut log = Problems::new();
    log.record_at(error("could not decode tile"), 1);
    log.record_at(error("something else"), 2);
    log.record_at(error("could not decode tile"), 3);

    let held = log.list();
    assert_eq!(held.len(), 2);
    assert_eq!(held[0].count, 2);
    assert_eq!(held[1].count, 1);
}

#[test]
fn tells_two_reports_apart_by_every_field_it_shows() {
    let mut log = Problems::new();
    log.record_at(error("failed"), 1);
    log.record_at(NewProblem { origin: Origin::Core, ..error("failed") }, 1);
    log.record_at(NewProblem { level: Level::Warn, ..error("failed") }, 1);
    log.record_at(NewProblem { detail: Some("at line 4".to_string()), ..error("failed") }, 1);
    assert_eq!(log.list().len(), 4);
}

#[test]
fn drops_the_oldest_rather_than_growing_forever() {
    let mut log = Problems::new();
    for index in 0..HISTORY + 10 {
        log.record_at(error(&format!("problem {index}")), index as u32);
    }

    let held = log.list();
    assert_eq!(held.len(), HISTORY);
    assert_eq!(held[0].message, "problem 10", "the first ten are gone");
}

#[test]
fn forgets_everything_when_asked() {
    let mut log = Problems::new();
    log.record_at(error("no such file"), 1);
    log.clear();
    assert_eq!(log.count(), 0);
    assert!(log.list().is_empty());
}
