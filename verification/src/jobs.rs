//! The bookkeeping behind long operations: which jobs exist, which lane each is in, which may run,
//! and what each has reported.
//!
//! Two lanes, because a conversion and a preview want opposite things from a runner. A conversion
//! wants to be left alone until it finishes, so [`Lane::Queued`] runs one job at a time in
//! submission order, across every project. A preview wants to be replaced the moment it is out of
//! date, so submitting to [`Lane::Latest`] cancels what that lane was running for the same scope.
//!
//! [`Registry`] decides; whatever runs the work asks it what to start and tells it how each job
//! ended. Every job carries the scope (a window) that submitted it: a scope is listed its own work,
//! supersedes only its own previews, and has its own history pruned.

use std::sync::Arc;
use std::sync::atomic::AtomicBool;
use vstd::prelude::*;
use crate::text::same_text;

verus! {

/// Identifies a job for the lifetime of the process.
pub type JobId = u32;

/// How many finished jobs a scope keeps.
pub const HISTORY: usize = 50;

/// How many log lines a job keeps: the last ones, since a failure explains itself at the end.
pub const LOG_LINES: usize = 1000;

/// How a job relates to the ones already in flight.
#[derive(Debug, Clone, Copy, PartialEq, Eq, Structural)]
pub enum Lane {
    /// One at a time, in submission order.
    Queued,
    /// Newest wins: submitting cancels what this lane was running in the same scope.
    Latest,
}

/// Where a job is in its life.
#[derive(Debug, Clone, PartialEq, Eq)]
pub enum JobState {
    /// Waiting for the lane to free up. Only [`Lane::Queued`] jobs are ever here.
    Queued,
    Running,
    Finished,
    Cancelled,
    Failed { error: String },
}

pub ghost enum StateM {
    Queued,
    Running,
    Finished,
    Cancelled,
    Failed(Seq<char>),
}

impl View for JobState {
    type V = StateM;

    open spec fn view(&self) -> StateM {
        match self {
            JobState::Queued => StateM::Queued,
            JobState::Running => StateM::Running,
            JobState::Finished => StateM::Finished,
            JobState::Cancelled => StateM::Cancelled,
            JobState::Failed { error } => StateM::Failed(error@),
        }
    }
}

pub open spec fn active(s: StateM) -> bool {
    s is Queued || s is Running
}

impl JobState {
    /// Whether the job may still do something: the two non-terminal states.
    pub fn is_active(&self) -> (b: bool)
        ensures
            b == active(self@),
    {
        match self {
            JobState::Queued | JobState::Running => true,
            _ => false,
        }
    }
}

/// A cancellation flag shared with the running job. Cheap to clone; every clone is the same flag.
#[derive(Debug, Clone)]
pub struct CancelToken(Arc<AtomicBool>);

impl CancelToken {
    pub fn new() -> (t: CancelToken) {
        CancelToken(Arc::new(AtomicBool::new(false)))
    }

    /// Asks the job to stop. The job decides when it is safe to do so.
    pub fn cancel(&self) {
        self.0.store(true, std::sync::atomic::Ordering::Relaxed);
    }

    /// Whether any clone of this token has been cancelled.
    ///
    /// The flag is shared with other threads, so nothing is promised of what a read returns.
    pub fn is_cancelled(&self) -> (b: bool) {
        self.0.load(std::sync::atomic::Ordering::Relaxed)
    }
}

/// One job, as the registry keeps it.
///
/// `done` and `total` are the counts a job reports when it counts in units; `message` is what it
/// last said it was doing.
#[derive(Debug)]
pub struct Entry {
    pub id: JobId,
    pub label: String,
    pub lane: Lane,
    pub state: JobState,
    /// Whose job this is: a window.
    pub scope: String,
    pub done: Option<u64>,
    pub total: Option<u64>,
    pub message: String,
    /// The most recent log lines, oldest first.
    pub log: Vec<String>,
}

pub ghost struct EntryM {
    pub id: JobId,
    pub label: Seq<char>,
    pub lane: Lane,
    pub state: StateM,
    pub scope: Seq<char>,
    pub done: Option<u64>,
    pub total: Option<u64>,
    pub message: Seq<char>,
    pub log: Seq<Seq<char>>,
}

pub open spec fn texts(v: Seq<String>) -> Seq<Seq<char>> {
    v.map_values(|s: String| s@)
}

impl View for Entry {
    type V = EntryM;

    open spec fn view(&self) -> EntryM {
        EntryM {
            id: self.id,
            label: self.label@,
            lane: self.lane,
            state: self.state@,
            scope: self.scope@,
            done: self.done,
            total: self.total,
            message: self.message@,
            log: texts(self.log@),
        }
    }
}

pub open spec fn entries_model(v: Seq<Entry>) -> Seq<EntryM> {
    v.map_values(|e: Entry| e@)
}

/// Every job of the process, oldest first, and the state of the two lanes.
#[derive(Debug)]
pub struct Registry {
    next_id: JobId,
    entries: Vec<Entry>,
    /// Queued-lane jobs that have not started, in submission order.
    pending: Vec<JobId>,
    /// The queued-lane job that holds the lane, if one does.
    running_queued: Option<JobId>,
}

pub ghost struct RegistryM {
    pub next_id: JobId,
    pub entries: Seq<EntryM>,
    pub pending: Seq<JobId>,
    pub running_queued: Option<JobId>,
}

impl View for Registry {
    type V = RegistryM;

    closed spec fn view(&self) -> RegistryM {
        RegistryM {
            next_id: self.next_id,
            entries: entries_model(self.entries@),
            pending: self.pending@,
            running_queued: self.running_queued,
        }
    }
}

/// Whether some job has this id.
pub open spec fn has_id(es: Seq<EntryM>, id: JobId) -> bool {
    exists|i: int| 0 <= i < es.len() && #[trigger] es[i].id == id
}

/// What the registry promises of itself at every step.
pub open spec fn registry_wf(r: RegistryM) -> bool {
    let es = r.entries;
    // Ids are handed out in order and never reused.
    &&& forall|i: int, j: int| 0 <= i < j < es.len() ==> es[i].id < es[j].id
    &&& forall|i: int| 0 <= i < es.len() ==> 0 < #[trigger] es[i].id <= r.next_id
    // A log never outgrows its cap.
    &&& forall|i: int| 0 <= i < es.len() ==> (#[trigger] es[i]).log.len() <= LOG_LINES
    // Only queued-lane jobs wait, and every one that waits is in line to start.
    &&& forall|i: int| 0 <= i < es.len() && (#[trigger] es[i]).state is Queued
        ==> es[i].lane == Lane::Queued && r.pending.contains(es[i].id)
    &&& forall|k: int, l: int| 0 <= k < l < r.pending.len() ==> r.pending[k] != r.pending[l]
    &&& forall|k: int| 0 <= k < r.pending.len() ==> #[trigger] waiting(es, r.pending[k])
    // The queued lane holds at most one job, and the registry knows which.
    &&& forall|i: int| 0 <= i < es.len() && (#[trigger] es[i]).lane == Lane::Queued
        && es[i].state is Running ==> r.running_queued == Some(es[i].id)
    &&& r.running_queued matches Some(q) ==> exists|i: int| 0 <= i < es.len()
        && #[trigger] es[i].id == q && es[i].lane == Lane::Queued && es[i].state is Running
}

/// Whether the job with this id exists and is waiting.
pub open spec fn waiting(es: Seq<EntryM>, id: JobId) -> bool {
    exists|i: int| 0 <= i < es.len() && #[trigger] es[i].id == id && es[i].state is Queued
}

/// The index of the job with this id, if there is one.
pub open spec fn index_of(es: Seq<EntryM>, id: JobId) -> Option<int> {
    if has_id(es, id) {
        Some(choose|i: int| 0 <= i < es.len() && #[trigger] es[i].id == id)
    } else {
        None
    }
}


/// `e` in another state.
pub open spec fn with_state(e: EntryM, s: StateM) -> EntryM {
    EntryM { state: s, ..e }
}

/// `s` with every `id` taken out.
pub open spec fn without(s: Seq<JobId>, id: JobId) -> Seq<JobId>
    decreases s.len(),
{
    if s.len() == 0 {
        s
    } else if s.last() == id {
        without(s.drop_last(), id)
    } else {
        without(s.drop_last(), id).push(s.last())
    }
}

proof fn lemma_without(s: Seq<JobId>, id: JobId)
    ensures
        forall|x: JobId| without(s, id).contains(x) <==> (s.contains(x) && x != id),
        (forall|k: int, l: int| 0 <= k < l < s.len() ==> s[k] != s[l])
            ==> (forall|k: int, l: int| 0 <= k < l < without(s, id).len() ==> without(s, id)[k] != without(s, id)[l]),
        !s.contains(id) ==> without(s, id) == s,
    decreases s.len(),
{
    if s.len() > 0 {
        lemma_without(s.drop_last(), id);
        let w = without(s.drop_last(), id);
        assert forall|x: JobId| s.contains(x) <==> (s.drop_last().contains(x) || s.last() == x) by {
            if s.contains(x) {
                let k = choose|k: int| 0 <= k < s.len() && s[k] == x;
                if k < s.len() - 1 {
                    assert(s.drop_last()[k] == x);
                }
            }
            if s.drop_last().contains(x) {
                let k = choose|k: int| 0 <= k < s.drop_last().len() && s.drop_last()[k] == x;
                assert(s[k] == x);
            }
            if s.last() == x {
                assert(s[s.len() - 1] == x);
            }
        }
        if s.last() != id {
            assert forall|x: JobId| w.push(s.last()).contains(x) <==> (w.contains(x) || x == s.last()) by {
                if w.push(s.last()).contains(x) {
                    let k = choose|k: int| 0 <= k < w.push(s.last()).len() && w.push(s.last())[k] == x;
                    if k < w.len() {
                        assert(w[k] == x);
                    }
                }
                if w.contains(x) {
                    let k = choose|k: int| 0 <= k < w.len() && w[k] == x;
                    assert(w.push(s.last())[k] == x);
                }
                if x == s.last() {
                    assert(w.push(s.last())[w.len() as int] == x);
                }
            }
            if forall|k: int, l: int| 0 <= k < l < s.len() ==> s[k] != s[l] {
                assert forall|k: int, l: int| 0 <= k < l < s.drop_last().len() implies s.drop_last()[k] != s.drop_last()[l] by {
                    assert(s[k] == s.drop_last()[k] && s[l] == s.drop_last()[l]);
                }
                assert(!s.drop_last().contains(s.last())) by {
                    if s.drop_last().contains(s.last()) {
                        let k = choose|k: int| 0 <= k < s.drop_last().len() && s.drop_last()[k] == s.last();
                        assert(s[k] == s[s.len() - 1]);
                    }
                }
                assert forall|k: int, l: int| 0 <= k < l < w.push(s.last()).len() implies w.push(s.last())[k] != w.push(s.last())[l] by {
                    if l == w.len() {
                        assert(w.contains(w[k]));
                    }
                }
            }
            if !s.contains(id) {
                assert(!s.drop_last().contains(id));
                assert(w == s.drop_last());
                assert(w.push(s.last()) =~= s);
            }
        } else {
            assert(s.contains(id)) by {
                assert(s[s.len() - 1] == id);
            }
            if forall|k: int, l: int| 0 <= k < l < s.len() ==> s[k] != s[l] {
                assert forall|k: int, l: int| 0 <= k < l < s.drop_last().len() implies s.drop_last()[k] != s.drop_last()[l] by {
                    assert(s[k] == s.drop_last()[k] && s[l] == s.drop_last()[l]);
                }
            }
        }
    }
}

/// A log after one more line: the oldest dropped first when it is full.
pub open spec fn kept_log(log: Seq<Seq<char>>, line: Seq<char>) -> Seq<Seq<char>> {
    (if log.len() == LOG_LINES { log.drop_first() } else { log }).push(line)
}

/// How many of a scope's jobs have ended.
pub open spec fn finished_in(es: Seq<EntryM>, scope: Seq<char>) -> nat
    decreases es.len(),
{
    if es.len() == 0 {
        0
    } else {
        (if es[0].scope == scope && !active(es[0].state) { 1nat } else { 0nat }) + finished_in(es.drop_first(), scope)
    }
}

/// `es` without the first `k` of the scope's ended jobs.
pub open spec fn drop_finished(es: Seq<EntryM>, scope: Seq<char>, k: nat) -> Seq<EntryM>
    decreases es.len(),
{
    if es.len() == 0 {
        es
    } else if k > 0 && es[0].scope == scope && !active(es[0].state) {
        drop_finished(es.drop_first(), scope, (k - 1) as nat)
    } else {
        seq![es[0]] + drop_finished(es.drop_first(), scope, k)
    }
}

/// The jobs left once a scope keeps no more than [`HISTORY`] ended ones: its oldest ended jobs go
/// first, and no job that may still run goes at all.
pub open spec fn pruned(es: Seq<EntryM>, scope: Seq<char>) -> Seq<EntryM> {
    if finished_in(es, scope) <= HISTORY {
        es
    } else {
        drop_finished(es, scope, (finished_in(es, scope) - HISTORY) as nat)
    }
}

pub open spec fn ids_ascending(es: Seq<EntryM>) -> bool {
    forall|i: int, j: int| 0 <= i < j < es.len() ==> es[i].id < es[j].id
}

proof fn lemma_drop_finished(es: Seq<EntryM>, scope: Seq<char>, k: nat)
    ensures
        forall|x: EntryM| drop_finished(es, scope, k).contains(x) ==> es.contains(x),
        forall|i: int| 0 <= i < es.len() && active(es[i].state) ==> drop_finished(es, scope, k).contains(#[trigger] es[i]),
        ids_ascending(es) ==> ids_ascending(drop_finished(es, scope, k)),
    decreases es.len(),
{
    if es.len() > 0 {
        let rest = es.drop_first();
        lemma_drop_finished(rest, scope, if k > 0 && es[0].scope == scope && !active(es[0].state) { (k - 1) as nat } else { k });
        let r = drop_finished(es, scope, k);
        assert forall|x: EntryM| rest.contains(x) implies es.contains(x) by {
            let i = choose|i: int| 0 <= i < rest.len() && rest[i] == x;
            assert(es[i + 1] == x);
        }
        if k > 0 && es[0].scope == scope && !active(es[0].state) {
            let d = drop_finished(rest, scope, (k - 1) as nat);
            assert(r == d);
            assert forall|i: int| 0 <= i < es.len() && active(es[i].state) implies r.contains(#[trigger] es[i]) by {
                assert(i != 0);
                assert(rest[i - 1] == es[i]);
            }
            if ids_ascending(es) {
                assert forall|i: int, j: int| 0 <= i < j < rest.len() implies rest[i].id < rest[j].id by {
                    assert(rest[i] == es[i + 1] && rest[j] == es[j + 1]);
                }
            }
        } else {
            let d = drop_finished(rest, scope, k);
            assert(r == seq![es[0]] + d);
            assert forall|x: EntryM| r.contains(x) implies es.contains(x) by {
                let i = choose|i: int| 0 <= i < r.len() && r[i] == x;
                if i == 0 {
                    assert(es[0] == x);
                } else {
                    assert(d[i - 1] == x);
                    assert(d.contains(x));
                }
            }
            assert forall|i: int| 0 <= i < es.len() && active(es[i].state) implies r.contains(#[trigger] es[i]) by {
                if i == 0 {
                    assert(r[0] == es[0]);
                } else {
                    assert(rest[i - 1] == es[i]);
                    assert(d.contains(es[i]));
                    let m = choose|m: int| 0 <= m < d.len() && d[m] == es[i];
                    assert(r[m + 1] == es[i]);
                }
            }
            if ids_ascending(es) {
                assert forall|i: int, j: int| 0 <= i < j < rest.len() implies rest[i].id < rest[j].id by {
                    assert(rest[i] == es[i + 1] && rest[j] == es[j + 1]);
                }
                assert forall|i: int, j: int| 0 <= i < j < r.len() implies r[i].id < r[j].id by {
                    if i == 0 {
                        assert(d.contains(r[j])) by { assert(d[j - 1] == r[j]); }
                        assert(rest.contains(r[j]));
                        let m = choose|m: int| 0 <= m < rest.len() && rest[m] == r[j];
                        assert(es[m + 1] == r[j]);
                    } else {
                        assert(r[i] == d[i - 1] && r[j] == d[j - 1]);
                    }
                }
            }
        }
    }
}

/// A job after a submission to `lane` in `scope`: a preview still running there is superseded.
pub open spec fn superseded(e: EntryM, lane: Lane, scope: Seq<char>) -> EntryM {
    if lane == Lane::Latest && e.lane == Lane::Latest && e.scope == scope && active(e.state) {
        with_state(e, StateM::Cancelled)
    } else {
        e
    }
}

/// The ids of the jobs a submission to `lane` in `scope` supersedes, oldest first.
pub open spec fn superseded_ids(es: Seq<EntryM>, lane: Lane, scope: Seq<char>) -> Seq<JobId>
    decreases es.len(),
{
    if es.len() == 0 {
        seq![]
    } else if superseded(es.last(), lane, scope) != es.last() {
        superseded_ids(es.drop_last(), lane, scope).push(es.last().id)
    } else {
        superseded_ids(es.drop_last(), lane, scope)
    }
}

/// A new job as it is first recorded.
pub open spec fn fresh(id: JobId, label: Seq<char>, lane: Lane, scope: Seq<char>, waits: bool) -> EntryM {
    EntryM {
        id,
        label,
        lane,
        state: if waits { StateM::Queued } else { StateM::Running },
        scope,
        done: None,
        total: None,
        message: seq![],
        log: seq![],
    }
}

/// The registry after a submission: previews superseded, the new job recorded (waiting when the
/// queued lane is taken), and the scope's history pruned.
pub open spec fn submitted(r: RegistryM, label: Seq<char>, lane: Lane, scope: Seq<char>) -> RegistryM {
    let id = (r.next_id + 1) as JobId;
    let waits = lane == Lane::Queued && r.running_queued is Some;
    let es = r.entries.map_values(|e: EntryM| superseded(e, lane, scope));
    RegistryM {
        next_id: id,
        entries: pruned(es.push(fresh(id, label, lane, scope, waits)), scope),
        pending: if waits { r.pending.push(id) } else { r.pending },
        running_queued: if lane == Lane::Queued && !waits { Some(id) } else { r.running_queued },
    }
}

/// The jobs of one scope, in order.
pub open spec fn in_scope(es: Seq<EntryM>, scope: Seq<char>) -> Seq<EntryM>
    decreases es.len(),
{
    if es.len() == 0 {
        seq![]
    } else if es.last().scope == scope {
        in_scope(es.drop_last(), scope).push(es.last())
    } else {
        in_scope(es.drop_last(), scope)
    }
}

/// The queued lane holds at most one job: two running conversions are one and the same.
pub proof fn lemma_one_conversion_at_a_time(r: RegistryM, i: int, j: int)
    requires
        registry_wf(r),
        0 <= i < r.entries.len(),
        0 <= j < r.entries.len(),
        r.entries[i].lane == Lane::Queued && r.entries[i].state is Running,
        r.entries[j].lane == Lane::Queued && r.entries[j].state is Running,
    ensures
        i == j,
{
    assert(r.running_queued == Some(r.entries[i].id));
    assert(r.running_queued == Some(r.entries[j].id));
    if i < j {
        assert(r.entries[i].id < r.entries[j].id);
    }
    if j < i {
        assert(r.entries[j].id < r.entries[i].id);
    }
}

/// A submission leaves other scopes alone: every job of another scope is still there, unchanged.
pub proof fn lemma_submit_keeps_other_scopes(r: RegistryM, label: Seq<char>, lane: Lane, scope: Seq<char>, i: int)
    requires
        registry_wf(r),
        0 <= i < r.entries.len(),
        r.entries[i].scope != scope,
    ensures
        submitted(r, label, lane, scope).entries.contains(r.entries[i]),
{
    let id = (r.next_id + 1) as JobId;
    let waits = lane == Lane::Queued && r.running_queued is Some;
    let es = r.entries.map_values(|e: EntryM| superseded(e, lane, scope)).push(fresh(id, label, lane, scope, waits));
    assert(es[i] == r.entries[i]);
    lemma_drop_finished_keeps_others(es, scope, (finished_in(es, scope) - HISTORY) as nat, i);
    if finished_in(es, scope) <= HISTORY {
        assert(es.contains(es[i]));
    }
}

/// A submission takes out no job that may still run and that it does not supersede: waiting and
/// running jobs are never pruned.
pub proof fn lemma_submit_keeps_live_jobs(r: RegistryM, label: Seq<char>, lane: Lane, scope: Seq<char>, i: int)
    requires
        registry_wf(r),
        0 <= i < r.entries.len(),
        active(superseded(r.entries[i], lane, scope).state),
    ensures
        submitted(r, label, lane, scope).entries.contains(r.entries[i]),
{
    let id = (r.next_id + 1) as JobId;
    let waits = lane == Lane::Queued && r.running_queued is Some;
    let es = r.entries.map_values(|e: EntryM| superseded(e, lane, scope)).push(fresh(id, label, lane, scope, waits));
    assert(es[i] == r.entries[i]);
    lemma_drop_finished(es, scope, (finished_in(es, scope) - HISTORY) as nat);
}

proof fn lemma_drop_finished_keeps_others(es: Seq<EntryM>, scope: Seq<char>, k: nat, i: int)
    requires
        0 <= i < es.len(),
        es[i].scope != scope,
    ensures
        drop_finished(es, scope, k).contains(es[i]),
    decreases es.len(),
{
    let rest = es.drop_first();
    if i == 0 {
        if es.len() > 0 {
            assert(drop_finished(es, scope, k)[0] == es[0]);
        }
    } else {
        let k2 = if k > 0 && es[0].scope == scope && !active(es[0].state) { (k - 1) as nat } else { k };
        assert(rest[i - 1] == es[i]);
        lemma_drop_finished_keeps_others(rest, scope, k2, i - 1);
        let d = drop_finished(rest, scope, k2);
        let m = choose|m: int| 0 <= m < d.len() && d[m] == es[i];
        if !(k > 0 && es[0].scope == scope && !active(es[0].state)) {
            assert(drop_finished(es, scope, k)[m + 1] == es[i]);
        }
    }
}

/// What ending a job leaves behind, whichever way it ended.
pub open spec fn ended(old: RegistryM, new: RegistryM, id: JobId, state: StateM, freed: bool) -> bool {
    &&& new.next_id == old.next_id
    &&& new.entries.len() == old.entries.len()
    &&& forall|i: int| 0 <= i < old.entries.len() ==> #[trigger] new.entries[i]
        == (if old.entries[i].id == id { with_state(old.entries[i], state) } else { old.entries[i] })
    &&& new.pending == without(old.pending, id)
    &&& freed == (old.running_queued == Some(id))
    &&& new.running_queued == (if freed { None } else { old.running_queued })
}

impl Registry {
    pub open spec fn wf(&self) -> bool {
        registry_wf(self@)
    }

    pub fn new() -> (r: Registry)
        ensures
            r.wf(),
            r@.entries.len() == 0,
            r@.pending.len() == 0,
            r@.running_queued is None,
            r@.next_id == 0,
    {
        let r = Registry { next_id: 0, entries: Vec::new(), pending: Vec::new(), running_queued: None };
        proof {
            assert(r@.entries =~= Seq::<EntryM>::empty());
        }
        r
    }

    /// Where the job with this id sits, oldest first.
    pub fn position(&self, id: JobId) -> (r: Option<usize>)
        requires
            self.wf(),
        ensures
            match r {
                Some(i) => i < self@.entries.len() && self@.entries[i as int].id == id,
                None => !has_id(self@.entries, id),
            },
    {
        let mut i: usize = 0;
        while i < self.entries.len()
            invariant
                i <= self.entries.len(),
                forall|j: int| 0 <= j < i ==> self.entries@[j].id != id,
            decreases self.entries.len() - i,
        {
            if self.entries[i].id == id {
                proof {
                    assert(self@.entries[i as int] == self.entries@[i as int]@);
                }
                return Some(i);
            }
            i = i + 1;
        }
        proof {
            assert forall|j: int| 0 <= j < self@.entries.len() implies self@.entries[j].id != id by {
                assert(self@.entries[j] == self.entries@[j]@);
            }
        }
        None
    }

    /// Moves the job at `i` into a terminal state and releases what it held.
    fn end(&mut self, i: usize, state: JobState) -> (freed: bool)
        requires
            old(self).wf(),
            i < old(self)@.entries.len(),
            active(old(self)@.entries[i as int].state),
            !active(state@),
        ensures
            final(self).wf(),
            ended(old(self)@, final(self)@, old(self)@.entries[i as int].id, state@, freed),
    {
        let ghost o = self@;
        let id = self.entries[i].id;
        assert(o.entries[i as int] == self.entries@[i as int]@);
        let mut e = self.entries.remove(i);
        e.state = state;
        self.entries.insert(i, e);
        let mut kept: Vec<JobId> = Vec::new();
        let mut k: usize = 0;
        while k < self.pending.len()
            invariant
                self.pending@ == o.pending,
                k <= self.pending@.len(),
                kept@ == without(o.pending.take(k as int), id),
            decreases self.pending@.len() - k,
        {
            let p = self.pending[k];
            proof {
                assert(o.pending.take(k as int + 1).drop_last() =~= o.pending.take(k as int));
            }
            if p != id {
                kept.push(p);
            }
            k = k + 1;
        }
        proof {
            assert(o.pending.take(k as int) =~= o.pending);
        }
        self.pending = kept;
        let freed = self.running_queued == Some(id);
        if freed {
            self.running_queued = None;
        }
        proof {
            let n = self@;
            let es = o.entries;
            assert(n.entries.len() == es.len());
            assert forall|j: int| 0 <= j < es.len() implies #[trigger] n.entries[j]
                == (if es[j].id == id { with_state(es[j], state@) } else { es[j] }) by {
                assert(n.entries[j] == self.entries@[j]@);
                if j != i {
                    assert(es[j] == old(self).entries@[j]@);
                    assert(es[j].id != id);
                }
            }
            lemma_without(o.pending, id);
            assert(registry_wf(n)) by {
                assert forall|j: int| 0 <= j < n.entries.len() && (#[trigger] n.entries[j]).state is Queued
                    implies n.entries[j].lane == Lane::Queued && n.pending.contains(n.entries[j].id) by {
                    assert(j != i);
                    assert(n.entries[j] == es[j]);
                    assert(o.pending.contains(es[j].id));
                }
                assert forall|k: int| 0 <= k < n.pending.len() implies #[trigger] waiting(n.entries, n.pending[k]) by {
                    assert(n.pending.contains(n.pending[k]));
                    assert(o.pending.contains(n.pending[k]));
                    let kk = choose|kk: int| 0 <= kk < o.pending.len() && o.pending[kk] == n.pending[k];
                    assert(waiting(es, o.pending[kk]));
                    let j = choose|j: int| 0 <= j < es.len() && #[trigger] es[j].id == o.pending[kk] && es[j].state is Queued;
                    assert(n.entries[j] == es[j]);
                }
                assert forall|j: int| 0 <= j < n.entries.len() && (#[trigger] n.entries[j]).lane == Lane::Queued
                    && n.entries[j].state is Running implies n.running_queued == Some(n.entries[j].id) by {
                    assert(j != i);
                    assert(n.entries[j] == es[j]);
                    assert(o.running_queued == Some(es[j].id));
                }
                if n.running_queued is Some {
                    let q = n.running_queued->0;
                    let j = choose|j: int| 0 <= j < es.len() && #[trigger] es[j].id == q && es[j].lane == Lane::Queued && es[j].state is Running;
                    assert(n.entries[j] == es[j]);
                }
            }
        }
        freed
    }

    /// Asks a job to stop. `None` when there is no such job or it has already ended; otherwise the
    /// job is cancelled, taken out of the line, and the answer says whether it held the queued lane.
    ///
    /// Cancelling a job that has already ended changes nothing: its ending is the one already told.
    pub fn cancel(&mut self, id: JobId) -> (r: Option<bool>)
        requires
            old(self).wf(),
        ensures
            final(self).wf(),
            match r {
                None => final(self)@ == old(self)@ && (!has_id(old(self)@.entries, id) || exists|i: int|
                    0 <= i < old(self)@.entries.len() && #[trigger] old(self)@.entries[i].id == id
                    && !active(old(self)@.entries[i].state)),
                Some(freed) => has_id(old(self)@.entries, id) && ended(old(self)@, final(self)@, id, StateM::Cancelled, freed)
                    && forall|i: int| 0 <= i < old(self)@.entries.len() && #[trigger] old(self)@.entries[i].id == id
                        ==> active(old(self)@.entries[i].state),
            },
    {
        match self.position(id) {
            None => None,
            Some(i) => {
                assert(self@.entries[i as int] == self.entries@[i as int]@);
                if !self.entries[i].state.is_active() {
                    return None;
                }
                proof {
                    assert forall|j: int| 0 <= j < self@.entries.len() && #[trigger] self@.entries[j].id == id
                        implies j == i by {
                        if j < i { assert(self@.entries[j].id < self@.entries[i as int].id); }
                        if j > i { assert(self@.entries[i as int].id < self@.entries[j].id); }
                    }
                }
                Some(self.end(i, JobState::Cancelled))
            },
        }
    }

    /// Records how a job ended on its own: `None` for success, or what went wrong.
    ///
    /// `None` when there is no such job or it had already ended (cancelled first, most often),
    /// and then nothing changes; otherwise the answer says whether it held the queued lane.
    pub fn complete(&mut self, id: JobId, failure: Option<String>) -> (r: Option<bool>)
        requires
            old(self).wf(),
        ensures
            final(self).wf(),
            match r {
                None => final(self)@ == old(self)@ && (!has_id(old(self)@.entries, id) || exists|i: int|
                    0 <= i < old(self)@.entries.len() && #[trigger] old(self)@.entries[i].id == id
                    && !active(old(self)@.entries[i].state)),
                Some(freed) => has_id(old(self)@.entries, id) && ended(old(self)@, final(self)@, id,
                    match failure { Some(e) => StateM::Failed(e@), None => StateM::Finished }, freed)
                    && forall|i: int| 0 <= i < old(self)@.entries.len() && #[trigger] old(self)@.entries[i].id == id
                        ==> active(old(self)@.entries[i].state),
            },
    {
        match self.position(id) {
            None => None,
            Some(i) => {
                assert(self@.entries[i as int] == self.entries@[i as int]@);
                if !self.entries[i].state.is_active() {
                    return None;
                }
                proof {
                    assert forall|j: int| 0 <= j < self@.entries.len() && #[trigger] self@.entries[j].id == id
                        implies j == i by {
                        if j < i { assert(self@.entries[j].id < self@.entries[i as int].id); }
                        if j > i { assert(self@.entries[i as int].id < self@.entries[j].id); }
                    }
                }
                let state = match failure {
                    Some(error) => JobState::Failed { error },
                    None => JobState::Finished,
                };
                Some(self.end(i, state))
            },
        }
    }

    /// Starts the next waiting job, if the queued lane is free and a job is waiting: it leaves the
    /// line, holds the lane, and is running.
    pub fn pump(&mut self) -> (r: Option<JobId>)
        requires
            old(self).wf(),
        ensures
            final(self).wf(),
            match r {
                None => final(self)@ == old(self)@
                    && (old(self)@.running_queued is Some || old(self)@.pending.len() == 0),
                Some(id) => {
                    &&& old(self)@.running_queued is None
                    &&& old(self)@.pending.len() > 0
                    &&& id == old(self)@.pending[0]
                    &&& final(self)@.pending == old(self)@.pending.drop_first()
                    &&& final(self)@.running_queued == Some(id)
                    &&& final(self)@.next_id == old(self)@.next_id
                    &&& final(self)@.entries.len() == old(self)@.entries.len()
                    &&& forall|i: int| 0 <= i < old(self)@.entries.len() ==> #[trigger] final(self)@.entries[i]
                        == (if old(self)@.entries[i].id == id { with_state(old(self)@.entries[i], StateM::Running) }
                            else { old(self)@.entries[i] })
                },
            },
    {
        if self.running_queued.is_some() || self.pending.len() == 0 {
            return None;
        }
        let ghost o = self@;
        let id = self.pending[0];
        proof {
            assert(o.pending[0] == id);
        }
        let i = match self.position(id) {
            Some(i) => i,
            None => {
                proof {
                    assert(waiting(o.entries, o.pending[0]));
                    let j = choose|j: int| 0 <= j < o.entries.len() && #[trigger] o.entries[j].id == o.pending[0]
                        && o.entries[j].state is Queued;
                    assert(has_id(o.entries, id));
                }
                return None;
            },
        };
        proof {
            assert(o.entries[i as int] == self.entries@[i as int]@);
            assert forall|j: int| 0 <= j < o.entries.len() && #[trigger] o.entries[j].id == id implies j == i by {
                if j < i { assert(o.entries[j].id < o.entries[i as int].id); }
                if j > i { assert(o.entries[i as int].id < o.entries[j].id); }
            }
            assert(waiting(o.entries, o.pending[0]));
            let j = choose|j: int| 0 <= j < o.entries.len() && #[trigger] o.entries[j].id == o.pending[0]
                && o.entries[j].state is Queued;
            assert(j == i);
        }
        self.pending.remove(0);
        let mut e = self.entries.remove(i);
        e.state = JobState::Running;
        self.entries.insert(i, e);
        self.running_queued = Some(id);
        proof {
            let n = self@;
            let es = o.entries;
            assert(n.pending =~= o.pending.drop_first());
            assert forall|j: int| 0 <= j < es.len() implies #[trigger] n.entries[j]
                == (if es[j].id == id { with_state(es[j], StateM::Running) } else { es[j] }) by {
                assert(n.entries[j] == self.entries@[j]@);
                if j != i {
                    assert(es[j] == old(self).entries@[j]@);
                }
            }
            {
                assert forall|j: int| 0 <= j < n.entries.len() && (#[trigger] n.entries[j]).state is Queued
                    implies n.entries[j].lane == Lane::Queued && n.pending.contains(n.entries[j].id) by {
                    assert(j != i);
                    assert(n.entries[j] == es[j]);
                    let k = choose|k: int| 0 <= k < o.pending.len() && o.pending[k] == es[j].id;
                    assert(k != 0);
                    assert(n.pending[k - 1] == es[j].id);
                }
                assert forall|k: int| 0 <= k < n.pending.len() implies #[trigger] waiting(n.entries, n.pending[k]) by {
                    assert(n.pending[k] == o.pending[k + 1]);
                    assert(o.pending[k + 1] != o.pending[0]);
                    assert(waiting(es, o.pending[k + 1]));
                    let j = choose|j: int| 0 <= j < es.len() && #[trigger] es[j].id == o.pending[k + 1] && es[j].state is Queued;
                    assert(n.entries[j] == es[j]);
                    assert(n.entries[j].id == n.pending[k] && n.entries[j].state is Queued);
                }
                assert forall|j: int| 0 <= j < n.entries.len() && (#[trigger] n.entries[j]).lane == Lane::Queued
                    && n.entries[j].state is Running implies n.running_queued == Some(n.entries[j].id) by {
                    if j != i {
                        assert(n.entries[j] == es[j]);
                    }
                }
                assert(n.entries[i as int].id == id);
            }
            assert(registry_wf(n));
        }
        Some(id)
    }

    /// Adds a line to a job's log, dropping the oldest once it holds [`LOG_LINES`]; the answer is
    /// how many lines it holds now, or `None` when there is no such job.
    pub fn record_log(&mut self, id: JobId, line: String) -> (r: Option<usize>)
        requires
            old(self).wf(),
        ensures
            final(self).wf(),
            match r {
                None => final(self)@ == old(self)@ && !has_id(old(self)@.entries, id),
                Some(n) => {
                    &&& has_id(old(self)@.entries, id)
                    &&& final(self)@.next_id == old(self)@.next_id
                    &&& final(self)@.pending == old(self)@.pending
                    &&& final(self)@.running_queued == old(self)@.running_queued
                    &&& final(self)@.entries.len() == old(self)@.entries.len()
                    &&& forall|i: int| 0 <= i < old(self)@.entries.len() ==> #[trigger] final(self)@.entries[i]
                        == (if old(self)@.entries[i].id == id {
                            EntryM { log: kept_log(old(self)@.entries[i].log, line@), ..old(self)@.entries[i] }
                        } else { old(self)@.entries[i] })
                    &&& forall|i: int| 0 <= i < old(self)@.entries.len() && old(self)@.entries[i].id == id
                        ==> n == #[trigger] final(self)@.entries[i].log.len()
                },
            },
    {
        let i = match self.position(id) {
            Some(i) => i,
            None => return None,
        };
        let ghost o = self@;
        proof {
            assert(o.entries[i as int] == self.entries@[i as int]@);
            assert forall|j: int| 0 <= j < o.entries.len() && #[trigger] o.entries[j].id == id implies j == i by {
                if j < i { assert(o.entries[j].id < o.entries[i as int].id); }
                if j > i { assert(o.entries[i as int].id < o.entries[j].id); }
            }
        }
        let mut e = self.entries.remove(i);
        let ghost before = e.log@;
        if e.log.len() == LOG_LINES {
            e.log.remove(0);
        }
        e.log.push(line);
        let n = e.log.len();
        proof {
            assert(texts(e.log@) =~= kept_log(texts(before), line@));
        }
        self.entries.insert(i, e);
        proof {
            let nn = self@;
            let es = o.entries;
            assert forall|j: int| 0 <= j < es.len() implies #[trigger] nn.entries[j]
                == (if es[j].id == id { EntryM { log: kept_log(es[j].log, line@), ..es[j] } } else { es[j] }) by {
                assert(nn.entries[j] == self.entries@[j]@);
                if j != i {
                    assert(es[j] == old(self).entries@[j]@);
                }
            }
            assert(registry_wf(nn)) by {
                assert forall|k: int| 0 <= k < nn.pending.len() implies #[trigger] waiting(nn.entries, nn.pending[k]) by {
                    assert(waiting(es, o.pending[k]));
                    let j = choose|j: int| 0 <= j < es.len() && #[trigger] es[j].id == o.pending[k] && es[j].state is Queued;
                    assert(nn.entries[j].id == es[j].id);
                    assert(nn.entries[j].id == nn.pending[k] && nn.entries[j].state is Queued);
                }
                if nn.running_queued is Some {
                    let q = nn.running_queued->0;
                    let j = choose|j: int| 0 <= j < es.len() && #[trigger] es[j].id == q && es[j].lane == Lane::Queued && es[j].state is Running;
                    assert(nn.entries[j].id == es[j].id);
                }
            }
        }
        Some(n)
    }

    /// Records what a job last reported: its counts, when it counts, and what it is doing.
    /// `false` when there is no such job, and then nothing changes.
    pub fn record_progress(&mut self, id: JobId, done: Option<u64>, total: Option<u64>, message: String) -> (found: bool)
        requires
            old(self).wf(),
        ensures
            final(self).wf(),
            found == has_id(old(self)@.entries, id),
            !found ==> final(self)@ == old(self)@,
            found ==> {
                &&& final(self)@.next_id == old(self)@.next_id
                &&& final(self)@.pending == old(self)@.pending
                &&& final(self)@.running_queued == old(self)@.running_queued
                &&& final(self)@.entries.len() == old(self)@.entries.len()
                &&& forall|i: int| 0 <= i < old(self)@.entries.len() ==> #[trigger] final(self)@.entries[i]
                    == (if old(self)@.entries[i].id == id {
                        EntryM { done, total, message: message@, ..old(self)@.entries[i] }
                    } else { old(self)@.entries[i] })
            },
    {
        let i = match self.position(id) {
            Some(i) => i,
            None => return false,
        };
        let ghost o = self@;
        proof {
            assert(o.entries[i as int] == self.entries@[i as int]@);
            assert forall|j: int| 0 <= j < o.entries.len() && #[trigger] o.entries[j].id == id implies j == i by {
                if j < i { assert(o.entries[j].id < o.entries[i as int].id); }
                if j > i { assert(o.entries[i as int].id < o.entries[j].id); }
            }
        }
        let mut e = self.entries.remove(i);
        e.done = done;
        e.total = total;
        e.message = message;
        self.entries.insert(i, e);
        proof {
            let nn = self@;
            let es = o.entries;
            assert forall|j: int| 0 <= j < es.len() implies #[trigger] nn.entries[j]
                == (if es[j].id == id { EntryM { done, total, message: message@, ..es[j] } } else { es[j] }) by {
                assert(nn.entries[j] == self.entries@[j]@);
                if j != i {
                    assert(es[j] == old(self).entries@[j]@);
                }
            }
            assert(registry_wf(nn)) by {
                assert forall|k: int| 0 <= k < nn.pending.len() implies #[trigger] waiting(nn.entries, nn.pending[k]) by {
                    assert(waiting(es, o.pending[k]));
                    let j = choose|j: int| 0 <= j < es.len() && #[trigger] es[j].id == o.pending[k] && es[j].state is Queued;
                    assert(nn.entries[j].id == es[j].id);
                    assert(nn.entries[j].id == nn.pending[k] && nn.entries[j].state is Queued);
                }
                if nn.running_queued is Some {
                    let q = nn.running_queued->0;
                    let j = choose|j: int| 0 <= j < es.len() && #[trigger] es[j].id == q && es[j].lane == Lane::Queued && es[j].state is Running;
                    assert(nn.entries[j].id == es[j].id);
                }
            }
        }
        true
    }

    /// Drops the scope's oldest ended jobs once it has more than [`HISTORY`] of them.
    ///
    /// Only ended ones: a queue of sixty conversions is not history, it is the work. Counted per
    /// scope, so a busy window cannot age out a quiet one's last export.
    pub fn prune(&mut self, scope: &str)
        requires
            old(self).wf(),
        ensures
            final(self).wf(),
            final(self)@ == (RegistryM { entries: pruned(old(self)@.entries, scope@), ..old(self)@ }),
    {
        let ghost o = self@;
        let mut finished: usize = 0;
        let mut i: usize = 0;
        assert(o.entries.skip(0) =~= o.entries);
        while i < self.entries.len()
            invariant
                self@ == o,
                i <= self.entries.len(),
                finished <= i,
                finished + finished_in(o.entries.skip(i as int), scope@) == finished_in(o.entries, scope@),
            decreases self.entries.len() - i,
        {
            proof {
                assert(o.entries.skip(i as int).drop_first() =~= o.entries.skip(i as int + 1));
                assert(o.entries.skip(i as int)[0] == self.entries@[i as int]@);
            }
            if same_text(self.entries[i].scope.as_str(), scope) && !self.entries[i].state.is_active() {
                finished = finished + 1;
            }
            i = i + 1;
        }
        proof {
            assert(o.entries.skip(i as int).len() == 0);
            assert(o.entries.skip(0) =~= o.entries);
        }
        if finished <= HISTORY {
            return;
        }
        let mut excess: usize = finished - HISTORY;
        let mut rest: Vec<Entry> = Vec::new();
        std::mem::swap(&mut rest, &mut self.entries);
        let mut kept: Vec<Entry> = Vec::new();
        proof {
            assert(entries_model(kept@) + drop_finished(entries_model(rest@), scope@, excess as nat) =~= pruned(o.entries, scope@));
        }
        while rest.len() > 0
            invariant
                entries_model(kept@) + drop_finished(entries_model(rest@), scope@, excess as nat) == pruned(o.entries, scope@),
            decreases rest.len(),
        {
            let ghost whole = rest@;
            let e = rest.remove(0);
            proof {
                assert(entries_model(rest@) =~= entries_model(whole).drop_first());
                assert(entries_model(whole)[0] == e@);
            }
            let ghost before = entries_model(kept@);
            let ghost tail = entries_model(rest@);
            if excess > 0 && same_text(e.scope.as_str(), scope) && !e.state.is_active() {
                excess = excess - 1;
                proof {
                    assert(entries_model(kept@) == before);
                }
            } else {
                kept.push(e);
                proof {
                    assert(entries_model(kept@) =~= before.push(e@));
                    assert(before.push(e@) + drop_finished(tail, scope@, excess as nat)
                        =~= before + (seq![e@] + drop_finished(tail, scope@, excess as nat)));
                }
            }
        }
        proof {
            assert(entries_model(rest@) =~= Seq::<EntryM>::empty());
            assert(entries_model(kept@) + Seq::<EntryM>::empty() =~= entries_model(kept@));
        }
        self.entries = kept;
        proof {
            let n = self@;
            let es = o.entries;
            let k = (finished_in(es, scope@) - HISTORY) as nat;
            lemma_drop_finished(es, scope@, k);
            assert(n.entries == drop_finished(es, scope@, k));
            assert forall|x: EntryM| n.entries.contains(x) implies es.contains(x) by {}
            assert(registry_wf(n)) by {
                assert forall|i: int| 0 <= i < n.entries.len() implies 0 < #[trigger] n.entries[i].id <= n.next_id
                    && n.entries[i].log.len() <= LOG_LINES by {
                    assert(es.contains(n.entries[i]));
                }
                assert forall|i: int| 0 <= i < n.entries.len() && (#[trigger] n.entries[i]).state is Queued
                    implies n.entries[i].lane == Lane::Queued && n.pending.contains(n.entries[i].id) by {
                    assert(es.contains(n.entries[i]));
                }
                assert forall|i: int| 0 <= i < n.entries.len() && (#[trigger] n.entries[i]).lane == Lane::Queued
                    && n.entries[i].state is Running implies n.running_queued == Some(n.entries[i].id) by {
                    assert(es.contains(n.entries[i]));
                }
                assert forall|q: int| 0 <= q < n.pending.len() implies #[trigger] waiting(n.entries, n.pending[q]) by {
                    assert(waiting(es, o.pending[q]));
                    let j = choose|j: int| 0 <= j < es.len() && #[trigger] es[j].id == o.pending[q] && es[j].state is Queued;
                    assert(n.entries.contains(es[j]));
                    let m = choose|m: int| 0 <= m < n.entries.len() && n.entries[m] == es[j];
                    assert(n.entries[m].id == n.pending[q]);
                }
                if n.running_queued is Some {
                    let q = n.running_queued->0;
                    let j = choose|j: int| 0 <= j < es.len() && #[trigger] es[j].id == q && es[j].lane == Lane::Queued && es[j].state is Running;
                    assert(n.entries.contains(es[j]));
                    let m = choose|m: int| 0 <= m < n.entries.len() && n.entries[m] == es[j];
                    assert(n.entries[m].id == q);
                }
            }
        }
    }

    /// Records a new job and says what to do about it: its id, the jobs it superseded (to be
    /// stopped and told), and whether it starts now rather than waiting for the queued lane.
    ///
    /// A preview ([`Lane::Latest`]) cancels the previews still running in its own scope, before it
    /// is even recorded; a conversion ([`Lane::Queued`]) waits while another conversion, from any
    /// scope, holds the lane.
    pub fn submit(&mut self, label: String, lane: Lane, scope: String) -> (r: (JobId, Vec<JobId>, bool))
        requires
            old(self).wf(),
            old(self)@.next_id < u32::MAX,
        ensures
            final(self).wf(),
            final(self)@ == submitted(old(self)@, label@, lane, scope@),
            r.0 == old(self)@.next_id + 1,
            r.1@ == superseded_ids(old(self)@.entries, lane, scope@),
            r.2 == !(lane == Lane::Queued && old(self)@.running_queued is Some),
    {
        let ghost o = self@;
        let mut cancelled: Vec<JobId> = Vec::new();
        let mut i: usize = 0;
        while i < self.entries.len()
            invariant
                i <= self.entries.len(),
                self.entries.len() == o.entries.len(),
                self@.next_id == o.next_id,
                self@.pending == o.pending,
                self@.running_queued == o.running_queued,
                forall|j: int| 0 <= j < self@.entries.len() ==> #[trigger] self@.entries[j]
                    == (if j < i { superseded(o.entries[j], lane, scope@) } else { o.entries[j] }),
                cancelled@ == superseded_ids(o.entries.take(i as int), lane, scope@),
            decreases self.entries.len() - i,
        {
            proof {
                assert(o.entries.take(i as int + 1).drop_last() =~= o.entries.take(i as int));
                assert(o.entries.take(i as int + 1).last() == o.entries[i as int]);
                assert(self@.entries[i as int] == self.entries@[i as int]@);
            }
            let ghost before = self.entries@;
            if lane == Lane::Latest && self.entries[i].lane == Lane::Latest
                && same_text(self.entries[i].scope.as_str(), scope.as_str()) && self.entries[i].state.is_active() {
                let id = self.entries[i].id;
                cancelled.push(id);
                let mut e = self.entries.remove(i);
                e.state = JobState::Cancelled;
                self.entries.insert(i, e);
                proof {
                    assert forall|j: int| 0 <= j < self@.entries.len() && j != i implies
                        #[trigger] self@.entries[j] == entries_model(before)[j] by {
                        assert(self@.entries[j] == self.entries@[j]@);
                        assert(self.entries@[j] == before[j]);
                    }
                    assert(self@.entries[i as int] == self.entries@[i as int]@);
                }
            } else {
                proof {
                    assert(superseded(o.entries[i as int], lane, scope@) == o.entries[i as int]);
                }
            }
            i = i + 1;
        }
        proof {
            assert(o.entries.take(i as int) =~= o.entries);
        }
        let ghost stage = self@;
        proof {
            let es = o.entries;
            let n = stage;
            assert(n.entries =~= es.map_values(|e: EntryM| superseded(e, lane, scope@)));
            // Superseding touches only running previews, which neither wait nor hold the queued lane.
            assert(registry_wf(n)) by {
                assert forall|j: int| 0 <= j < n.entries.len() && (#[trigger] n.entries[j]).state is Queued
                    implies n.entries[j].lane == Lane::Queued && n.pending.contains(n.entries[j].id) by {
                    assert(n.entries[j] == es[j]);
                }
                assert forall|q: int| 0 <= q < n.pending.len() implies #[trigger] waiting(n.entries, n.pending[q]) by {
                    assert(waiting(es, o.pending[q]));
                    let j = choose|j: int| 0 <= j < es.len() && #[trigger] es[j].id == o.pending[q] && es[j].state is Queued;
                    assert(n.entries[j] == es[j]);
                    assert(n.entries[j].id == n.pending[q]);
                }
                assert forall|j: int| 0 <= j < n.entries.len() && (#[trigger] n.entries[j]).lane == Lane::Queued
                    && n.entries[j].state is Running implies n.running_queued == Some(n.entries[j].id) by {
                    assert(n.entries[j] == es[j]);
                }
                if n.running_queued is Some {
                    let q = n.running_queued->0;
                    let j = choose|j: int| 0 <= j < es.len() && #[trigger] es[j].id == q && es[j].lane == Lane::Queued && es[j].state is Running;
                    assert(n.entries[j] == es[j]);
                }
                assert forall|a: int, b: int| 0 <= a < b < n.entries.len() implies n.entries[a].id < n.entries[b].id by {
                    assert(n.entries[a].id == es[a].id && n.entries[b].id == es[b].id);
                }
                assert forall|a: int| 0 <= a < n.entries.len() implies 0 < #[trigger] n.entries[a].id <= n.next_id
                    && n.entries[a].log.len() <= LOG_LINES by {
                    assert(n.entries[a].id == es[a].id && n.entries[a].log == es[a].log);
                }
            }
        }
        self.next_id = self.next_id + 1;
        let id = self.next_id;
        let waits = lane == Lane::Queued && self.running_queued.is_some();
        let entry = Entry {
            id,
            label,
            lane,
            state: if waits { JobState::Queued } else { JobState::Running },
            scope: scope.clone(),
            done: None,
            total: None,
            message: String::new(),
            log: Vec::new(),
        };
        proof {
            assert(texts(entry.log@) =~= Seq::<Seq<char>>::empty());
            assert(entry@ == fresh(id, label@, lane, scope@, waits));
        }
        self.entries.push(entry);
        if waits {
            self.pending.push(id);
        } else if lane == Lane::Queued {
            self.running_queued = Some(id);
        }
        proof {
            let es = stage.entries;
            let n = self@;
            assert(n.entries =~= es.push(fresh(id, label@, lane, scope@, waits)));
            assert(!stage.pending.contains(id)) by {
                if stage.pending.contains(id) {
                    let q = choose|q: int| 0 <= q < stage.pending.len() && stage.pending[q] == id;
                    assert(waiting(es, stage.pending[q]));
                    let j = choose|j: int| 0 <= j < es.len() && #[trigger] es[j].id == stage.pending[q] && es[j].state is Queued;
                }
            }
            assert(registry_wf(n)) by {
                let last = es.len() as int;
                assert forall|a: int, b: int| 0 <= a < b < n.entries.len() implies n.entries[a].id < n.entries[b].id by {
                    if b == last {
                        assert(n.entries[a] == es[a]);
                    } else {
                        assert(n.entries[a] == es[a] && n.entries[b] == es[b]);
                    }
                }
                assert forall|a: int| 0 <= a < n.entries.len() implies 0 < #[trigger] n.entries[a].id <= n.next_id
                    && n.entries[a].log.len() <= LOG_LINES by {
                    if a < last {
                        assert(n.entries[a] == es[a]);
                    }
                }
                assert forall|j: int| 0 <= j < n.entries.len() && (#[trigger] n.entries[j]).state is Queued
                    implies n.entries[j].lane == Lane::Queued && n.pending.contains(n.entries[j].id) by {
                    if j < last {
                        assert(n.entries[j] == es[j]);
                        assert(stage.pending.contains(es[j].id));
                        let q = choose|q: int| 0 <= q < stage.pending.len() && stage.pending[q] == es[j].id;
                        assert(n.pending[q] == es[j].id);
                    } else {
                        assert(n.pending[n.pending.len() - 1] == id);
                    }
                }
                assert forall|k: int, l: int| 0 <= k < l < n.pending.len() implies n.pending[k] != n.pending[l] by {
                    if waits && l == n.pending.len() - 1 {
                        assert(stage.pending.contains(n.pending[k]));
                    }
                }
                assert forall|q: int| 0 <= q < n.pending.len() implies #[trigger] waiting(n.entries, n.pending[q]) by {
                    if q < stage.pending.len() {
                        assert(n.pending[q] == stage.pending[q]);
                        assert(waiting(es, stage.pending[q]));
                        let j = choose|j: int| 0 <= j < es.len() && #[trigger] es[j].id == stage.pending[q] && es[j].state is Queued;
                        assert(n.entries[j] == es[j]);
                        assert(n.entries[j].id == n.pending[q]);
                    } else {
                        assert(n.entries[last].id == n.pending[q]);
                    }
                }
                assert forall|j: int| 0 <= j < n.entries.len() && (#[trigger] n.entries[j]).lane == Lane::Queued
                    && n.entries[j].state is Running implies n.running_queued == Some(n.entries[j].id) by {
                    if j < last {
                        assert(n.entries[j] == es[j]);
                    }
                }
                if n.running_queued is Some {
                    let q = n.running_queued->0;
                    if lane == Lane::Queued && !waits {
                        assert(n.entries[last].id == q);
                    } else {
                        let j = choose|j: int| 0 <= j < es.len() && #[trigger] es[j].id == q && es[j].lane == Lane::Queued && es[j].state is Running;
                        assert(n.entries[j] == es[j]);
                    }
                }
            }
        }
        self.prune(scope.as_str());
        (id, cancelled, !waits)
    }

    /// The jobs of one scope, oldest first: a window is shown its own project's work.
    pub fn list(&self, scope: &str) -> (r: Vec<&Entry>)
        requires
            self.wf(),
        ensures
            r@.map_values(|e: &Entry| e@) == in_scope(self@.entries, scope@),
    {
        let mut out: Vec<&Entry> = Vec::new();
        let mut i: usize = 0;
        while i < self.entries.len()
            invariant
                i <= self.entries.len(),
                out@.map_values(|e: &Entry| e@) == in_scope(self@.entries.take(i as int), scope@),
            decreases self.entries.len() - i,
        {
            proof {
                assert(self@.entries.take(i as int + 1).drop_last() =~= self@.entries.take(i as int));
                assert(self@.entries.take(i as int + 1).last() == self.entries@[i as int]@);
            }
            let ghost before = out@;
            if same_text(self.entries[i].scope.as_str(), scope) {
                out.push(&self.entries[i]);
                proof {
                    assert(out@.map_values(|e: &Entry| e@) =~= before.map_values(|e: &Entry| e@).push(self.entries@[i as int]@));
                }
            }
            i = i + 1;
        }
        proof {
            assert(self@.entries.take(i as int) =~= self@.entries);
        }
        out
    }

    /// One job, or `None` once it has aged out.
    pub fn job(&self, id: JobId) -> (r: Option<&Entry>)
        requires
            self.wf(),
        ensures
            match r {
                Some(e) => has_id(self@.entries, id) && e@.id == id && self@.entries.contains(e@),
                None => !has_id(self@.entries, id),
            },
    {
        match self.position(id) {
            Some(i) => {
                proof {
                    assert(self@.entries[i as int] == self.entries@[i as int]@);
                }
                Some(&self.entries[i])
            },
            None => None,
        }
    }
}

} // verus!
