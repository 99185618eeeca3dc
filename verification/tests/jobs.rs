use studio_core::jobs::{CancelToken, JobState, Lane, Registry, HISTORY, LOG_LINES};

const WINDOW: &str = "window-1";

fn submit(registry: &mut Registry, label: &str, lane: Lane, scope: &str) -> (u32, Vec<u32>, bool) {
    registry.submit(label.to_string(), lane, scope.to_string())
}

fn state(registry: &Registry, id: u32) -> JobState {
    registry.job(id).unwrap().state.clone()
}

#[test]
fn queued_jobs_run_one_at_a_time_in_order() {
    let mut registry = Registry::new();
    let ids: Vec<u32> = (0..4).map(|n| submit(&mut registry, &format!("job {n}"), Lane::Queued, WINDOW).0).collect();
    assert_eq!(ids, vec![1, 2, 3, 4]);
    assert_eq!(state(&registry, 1), JobState::Running);
    assert_eq!(state(&registry, 4), JobState::Queued);
    assert_eq!(registry.pump(), None, "the lane is taken");

    assert_eq!(registry.complete(1, None), Some(true), "the first held the lane");
    assert_eq!(registry.pump(), Some(2));
    assert_eq!(state(&registry, 2), JobState::Running);
    assert_eq!(state(&registry, 3), JobState::Queued);
}

#[test]
fn a_queued_submission_says_whether_it_starts() {
    let mut registry = Registry::new();
    assert!(submit(&mut registry, "first", Lane::Queued, WINDOW).2);
    assert!(!submit(&mut registry, "second", Lane::Queued, "window-2").2, "the lane is shared by every window");
    assert!(submit(&mut registry, "preview", Lane::Latest, WINDOW).2, "a preview never waits for a conversion");
}

#[test]
fn a_latest_job_supersedes_only_within_its_own_scope() {
    let mut registry = Registry::new();
    let (mine, _, _) = submit(&mut registry, "mine", Lane::Latest, WINDOW);
    let (theirs, _, _) = submit(&mut registry, "theirs", Lane::Latest, "window-2");
    let (newer, superseded, _) = submit(&mut registry, "newer", Lane::Latest, WINDOW);
    assert_eq!(superseded, vec![mine]);
    assert_eq!(state(&registry, mine), JobState::Cancelled);
    assert_eq!(state(&registry, theirs), JobState::Running);
    assert_eq!(state(&registry, newer), JobState::Running);
}

#[test]
fn a_job_that_returns_an_error_fails_with_it() {
    let mut registry = Registry::new();
    let (id, _, _) = submit(&mut registry, "doomed", Lane::Queued, WINDOW);
    assert_eq!(registry.complete(id, Some("no such file".to_string())), Some(true));
    assert_eq!(state(&registry, id), JobState::Failed { error: "no such file".into() });
}

#[test]
fn cancelling_a_queued_job_removes_it_without_running_it() {
    let mut registry = Registry::new();
    let (running, _, _) = submit(&mut registry, "running", Lane::Queued, WINDOW);
    let (waiting, _, _) = submit(&mut registry, "waiting", Lane::Queued, WINDOW);
    assert_eq!(registry.cancel(waiting), Some(false), "it did not hold the lane");
    assert_eq!(state(&registry, waiting), JobState::Cancelled);
    assert_eq!(registry.cancel(running), Some(true));
    assert_eq!(registry.pump(), None, "nothing is left waiting");
}

#[test]
fn cancelling_a_finished_job_does_nothing() {
    let mut registry = Registry::new();
    let (id, _, _) = submit(&mut registry, "quick", Lane::Queued, WINDOW);
    registry.complete(id, None);
    assert_eq!(registry.cancel(id), None);
    assert_eq!(state(&registry, id), JobState::Finished);
    assert_eq!(registry.complete(id, Some("late".into())), None, "no second ending");
    assert_eq!(registry.cancel(99), None);
}

#[test]
fn the_log_keeps_the_most_recent_lines() {
    let mut registry = Registry::new();
    let (id, _, _) = submit(&mut registry, "chatty", Lane::Queued, WINDOW);
    let mut last = 0;
    for n in 0..LOG_LINES + 10 {
        last = registry.record_log(id, format!("line {n}")).unwrap();
        assert!(last <= LOG_LINES);
    }
    assert_eq!(last, LOG_LINES);
    let log = &registry.job(id).unwrap().log;
    assert_eq!(log.len(), LOG_LINES);
    assert_eq!(log[0], "line 10", "the oldest were dropped, not the newest");
    assert_eq!(registry.record_log(77, "nobody".into()), None);
}

#[test]
fn progress_is_recorded_on_the_job() {
    let mut registry = Registry::new();
    let (id, _, _) = submit(&mut registry, "counting", Lane::Queued, WINDOW);
    assert!(registry.record_progress(id, Some(25), Some(100), "a quarter".into()));
    let job = registry.job(id).unwrap();
    assert_eq!((job.done, job.total), (Some(25), Some(100)));
    assert_eq!(job.message, "a quarter");
    assert!(!registry.record_progress(42, None, None, String::new()));
}

#[test]
fn finished_jobs_age_out_but_waiting_ones_do_not() {
    let mut registry = Registry::new();
    let (holder, _, _) = submit(&mut registry, "holder", Lane::Queued, WINDOW);
    let (waiting, _, _) = submit(&mut registry, "waiting", Lane::Queued, WINDOW);
    for n in 0..HISTORY + 5 {
        let (id, _, _) = submit(&mut registry, &format!("preview {n}"), Lane::Latest, WINDOW);
        registry.complete(id, None);
    }
    submit(&mut registry, "one more", Lane::Latest, WINDOW);
    let ended = registry.list(WINDOW).iter().filter(|job| !job.state.is_active()).count();
    assert!(ended <= HISTORY, "{ended}");
    assert_eq!(state(&registry, holder), JobState::Running);
    assert_eq!(state(&registry, waiting), JobState::Queued);
}

#[test]
fn a_window_is_listed_its_own_work_and_no_other() {
    let mut registry = Registry::new();
    submit(&mut registry, "mine", Lane::Latest, WINDOW);
    submit(&mut registry, "theirs", Lane::Latest, "window-2");
    let mine: Vec<&str> = registry.list(WINDOW).iter().map(|job| job.label.as_str()).collect();
    assert_eq!(mine, ["mine"]);
    assert!(registry.list("window-3").is_empty());
}

#[test]
fn cancellation_is_visible_to_the_job() {
    let token = CancelToken::new();
    let job = token.clone();
    assert!(!job.is_cancelled());
    token.cancel();
    assert!(job.is_cancelled(), "the token is shared, not copied");
}
