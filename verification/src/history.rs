//! One undo stack for the whole project.
//!
//! Undo belongs to the *document*, not to any one view of it. The text editor, the parameter forms
//! and the graph all change the same pipeline, so a stack per view would mean ⌘Z doing something
//! different depending on where the focus happened to be.
//!
//! **Snapshots, not inverse edits.** A pipeline is a few hundred bytes, so a hundred of them costs
//! less than a single map tile. Storing the text is exact by construction.
//!
//! Times are milliseconds on a clock the caller reads; only their differences matter.

use vstd::prelude::*;
use crate::graphs::GraphId;
use crate::text::same_text;

verus! {

/// How long a run of typing keeps merging into one undo step, in milliseconds.
///
/// Long enough that a burst of keystrokes is one step, short enough that a pause between thoughts
/// makes a boundary.
pub const COALESCE_MS: u64 = 600;

/// Beyond this the oldest entries are dropped. Deep enough to cover a session's worth of edits.
pub const LIMIT: usize = 200;

/// Where an edit came from. Only the origin matters, not the detail.
#[derive(Debug, Clone, Copy, PartialEq, Eq, Structural)]
pub enum EditKind {
    /// A keystroke in the VPL editor. Consecutive ones merge.
    Typing,
    /// A parameter form or the graph - a deliberate, discrete change.
    Structured,
    /// The document was replaced wholesale, e.g. by opening a file.
    Replaced,
}

impl Default for EditKind {
    /// The conservative one: a caller that says nothing gets its own undo step.
    fn default() -> (k: EditKind)
        ensures
            k == EditKind::Structured,
    {
        EditKind::Structured
    }
}

/// What a state belongs to: one graph's VPL, or the project's style recipe.
#[derive(Debug, Clone, Copy, PartialEq, Eq, Structural)]
pub enum Target {
    /// One graph's VPL, by id.
    Graph(GraphId),
    /// The project's style recipe. There is one, so it needs no id.
    Style,
}

#[derive(Debug)]
struct Entry {
    /// Which document this state belongs to.
    target: Target,
    text: String,
    kind: EditKind,
    at: u64,
}

/// What an undo or redo asks the caller to restore.
#[derive(Debug, PartialEq, Eq)]
pub struct Step {
    pub target: Target,
    pub text: String,
}

pub ghost struct EntryM {
    pub target: Target,
    pub text: Seq<char>,
    pub kind: EditKind,
    pub at: u64,
}

pub ghost struct StepM {
    pub target: Target,
    pub text: Seq<char>,
}

/// The history as a list of states and the index of the current one.
pub ghost struct HistoryM {
    pub entries: Seq<EntryM>,
    pub cursor: int,
}

impl View for Entry {
    type V = EntryM;

    closed spec fn view(&self) -> EntryM {
        EntryM { target: self.target, text: self.text@, kind: self.kind, at: self.at }
    }
}

impl View for Step {
    type V = StepM;

    open spec fn view(&self) -> StepM {
        StepM { target: self.target, text: self.text@ }
    }
}

/// The most recent text for `target` among the first `upto` entries.
pub open spec fn latest(es: Seq<EntryM>, target: Target, upto: int) -> Option<Seq<char>>
    decreases upto,
{
    let n = if upto < es.len() { upto } else { es.len() as int };
    if n <= 0 {
        None
    } else if es[n - 1].target == target {
        Some(es[n - 1].text)
    } else {
        latest(es, target, n - 1)
    }
}

/// The text of `target` as it stands.
pub open spec fn current_of_m(h: HistoryM, target: Target) -> Option<Seq<char>> {
    latest(h.entries, target, h.cursor + 1)
}

/// Whether an edit continues a run of typing in the same document.
pub open spec fn merges(es: Seq<EntryM>, target: Target, kind: EditKind, at: u64) -> bool {
    &&& kind == EditKind::Typing
    &&& es.len() > 0
    &&& es.last().target == target
    &&& es.last().kind == EditKind::Typing
    &&& (if at >= es.last().at { at - es.last().at } else { 0 }) < COALESCE_MS
}

/// The history after recording `text` for `target`.
///
/// Nothing happens when the text is already current; otherwise the redo tail is dropped, and the
/// text either merges into the run of typing it continues or becomes a new state, the oldest state
/// going once there are more than [`LIMIT`].
pub open spec fn pushed(h: HistoryM, target: Target, text: Seq<char>, kind: EditKind, at: u64) -> HistoryM {
    if current_of_m(h, target) == Some(text) {
        h
    } else {
        let es = h.entries.take(if h.cursor + 1 < h.entries.len() { h.cursor + 1 } else { h.entries.len() as int });
        if merges(es, target, kind, at) {
            HistoryM { entries: es.update(es.len() - 1, EntryM { text, at, ..es.last() }), cursor: h.cursor }
        } else {
            let grown = es.push(EntryM { target, text, kind, at });
            let kept = if grown.len() > LIMIT { grown.drop_first() } else { grown };
            HistoryM { entries: kept, cursor: kept.len() - 1 }
        }
    }
}

/// What undoing would restore: the previous state of the document the current entry belongs to.
pub open spec fn undo_step_m(h: HistoryM) -> Option<StepM> {
    if h.cursor <= 0 || h.cursor >= h.entries.len() {
        None
    } else {
        let target = h.entries[h.cursor].target;
        match latest(h.entries, target, h.cursor) {
            Some(text) => Some(StepM { target, text }),
            None => None,
        }
    }
}

pub open spec fn undone(h: HistoryM) -> HistoryM {
    if undo_step_m(h) is Some {
        HistoryM { cursor: h.cursor - 1, ..h }
    } else {
        h
    }
}

pub open spec fn can_redo_m(h: HistoryM) -> bool {
    h.cursor + 1 < h.entries.len()
}

pub open spec fn redo_step_m(h: HistoryM) -> Option<StepM> {
    if can_redo_m(h) {
        Some(StepM { target: h.entries[h.cursor + 1].target, text: h.entries[h.cursor + 1].text })
    } else {
        None
    }
}

pub open spec fn redone(h: HistoryM) -> HistoryM {
    if can_redo_m(h) {
        HistoryM { cursor: h.cursor + 1, ..h }
    } else {
        h
    }
}

/// The project's edit history - **one stack across every graph**.
///
/// An entry records only the document that changed, so undoing it means restoring **that
/// document's previous entry**, not the entry before it in the stack - which may belong to another
/// document entirely and must be left alone.
pub struct History {
    entries: Vec<Entry>,
    /// Index of the current state. Everything after it is redoable.
    cursor: usize,
}

impl View for History {
    type V = HistoryM;

    closed spec fn view(&self) -> HistoryM {
        HistoryM { entries: self.entries@.map_values(|e: Entry| e@), cursor: self.cursor as int }
    }
}

/// At most [`LIMIT`] states, and the cursor on one of them when there are any.
pub open spec fn history_wf(h: HistoryM) -> bool {
    &&& h.entries.len() <= LIMIT
    &&& h.entries.len() == 0 ==> h.cursor == 0
    &&& h.entries.len() > 0 ==> 0 <= h.cursor < h.entries.len()
}

impl History {
    pub closed spec fn wf(&self) -> bool {
        &&& history_wf(self@)
        &&& self.entries@.len() == self@.entries.len()
        &&& self.cursor == self@.cursor
    }

    /// A well-formed history's model keeps [`history_wf`], which is what the laws below ask of it.
    pub proof fn lemma_model_wf(&self)
        requires
            self.wf(),
        ensures
            history_wf(self@),
    {
    }

    pub fn new() -> (h: History)
        ensures
            h.wf(),
            h@.entries.len() == 0,
            h@.cursor == 0,
    {
        let h = History { entries: Vec::new(), cursor: 0 };
        proof {
            assert(h@.entries =~= Seq::<EntryM>::empty());
        }
        h
    }

    /// How many states are held.
    pub fn len(&self) -> (n: usize)
        requires
            self.wf(),
        ensures
            n == self@.entries.len(),
    {
        self.entries.len()
    }

    /// The most recent text for `target` among the first `upto` entries.
    fn latest(&self, target: Target, upto: usize) -> (r: Option<&str>)
        requires
            self.wf(),
        ensures
            match latest(self@.entries, target, upto as int) {
                None => r is None,
                Some(t) => r matches Some(s) && s@ == t,
            },
    {
        let ghost es = self@.entries;
        let mut n: usize = if upto < self.entries.len() {
            upto
        } else {
            self.entries.len()
        };
        proof {
            assert(latest(es, target, upto as int) == latest(es, target, n as int)) by {
                reveal_with_fuel(latest, 2);
            }
        }
        while n > 0
            invariant
                n <= es.len(),
                es == self@.entries,
                self.wf(),
                latest(es, target, upto as int) == latest(es, target, n as int),
            decreases n,
        {
            let e = &self.entries[n - 1];
            proof {
                assert(es[n - 1] == e@);
            }
            if e.target == target {
                return Some(e.text.as_str());
            }
            n = n - 1;
        }
        None
    }

    /// The text of `target` as it stands, or `None` if it has nothing recorded up to the cursor.
    pub fn current_of(&self, target: Target) -> (r: Option<&str>)
        requires
            self.wf(),
        ensures
            match current_of_m(self@, target) {
                None => r is None,
                Some(t) => r matches Some(s) && s@ == t,
            },
    {
        self.latest(target, self.cursor + 1)
    }

    /// Records a new state at time `at`, discarding anything that was redoable.
    ///
    /// Editing after undoing abandons the branch that was undone: there is one past, and stepping
    /// off it forgets the future you stepped away from. A run of typing in one document merges into
    /// one step; a text that is already current is not an edit at all.
    pub fn push_at(&mut self, target: Target, text: String, kind: EditKind, at: u64)
        requires
            old(self).wf(),
        ensures
            final(self).wf(),
            final(self)@ == pushed(old(self)@, target, text@, kind, at),
    {
        let ghost h = self@;
        let same = match self.current_of(target) {
            Some(current) => same_text(current, text.as_str()),
            None => false,
        };
        if same {
            return;
        }
        self.entries.truncate(self.cursor + 1);
        let ghost es = self@.entries;
        proof {
            assert(es =~= h.entries.take(if h.cursor + 1 < h.entries.len() { h.cursor + 1 } else { h.entries.len() as int }));
        }
        let n = self.entries.len();
        let merge = kind == EditKind::Typing && n > 0 && self.entries[n - 1].target == target
            && self.entries[n - 1].kind == EditKind::Typing && {
            let last_at = self.entries[n - 1].at;
            let gap = if at >= last_at {
                at - last_at
            } else {
                0
            };
            gap < COALESCE_MS
        };
        proof {
            if n > 0 {
                assert(es.last() == self.entries@[n - 1]@);
            }
        }
        if merge {
            let mut last = self.entries.remove(n - 1);
            last.text = text;
            last.at = at;
            self.entries.push(last);
            proof {
                assert(self@.entries =~= es.update(es.len() - 1, EntryM { text: text@, at, ..es.last() }));
            }
            return;
        }
        self.entries.push(Entry { target, text, kind, at });
        if self.entries.len() > LIMIT {
            self.entries.remove(0);
        }
        self.cursor = self.entries.len() - 1;
        proof {
            let grown = es.push(EntryM { target, text: text@, kind, at });
            let kept = if grown.len() > LIMIT { grown.drop_first() } else { grown };
            assert(self@.entries =~= kept);
        }
    }

    pub fn can_undo(&self) -> (b: bool)
        requires
            self.wf(),
        ensures
            b == undo_step_m(self@) is Some,
    {
        self.undo_step().is_some()
    }

    pub fn can_redo(&self) -> (b: bool)
        requires
            self.wf(),
        ensures
            b == can_redo_m(self@),
    {
        self.cursor + 1 < self.entries.len()
    }

    /// What undoing would restore, without doing it.
    fn undo_step(&self) -> (r: Option<Step>)
        requires
            self.wf(),
        ensures
            match undo_step_m(self@) {
                None => r is None,
                Some(s) => r matches Some(x) && x@ == s,
            },
    {
        if self.cursor == 0 || self.cursor >= self.entries.len() {
            return None;
        }
        let target = self.entries[self.cursor].target;
        proof {
            assert(self@.entries[self.cursor as int] == self.entries@[self.cursor as int]@);
        }
        // The state to go back to is this document's *previous* entry - not the stack's, which may
        // belong to another document and must be left where it is.
        match self.latest(target, self.cursor) {
            Some(text) => Some(Step { target, text: crate::text::owned(text) }),
            None => None,
        }
    }

    /// Steps back, returning the document to restore and the text to restore it to.
    pub fn undo(&mut self) -> (r: Option<Step>)
        requires
            old(self).wf(),
        ensures
            final(self).wf(),
            final(self)@ == undone(old(self)@),
            match undo_step_m(old(self)@) {
                None => r is None,
                Some(s) => r matches Some(x) && x@ == s,
            },
    {
        let step = match self.undo_step() {
            None => return None,
            Some(step) => step,
        };
        self.cursor = self.cursor - 1;
        Some(step)
    }

    /// Steps forward again.
    pub fn redo(&mut self) -> (r: Option<Step>)
        requires
            old(self).wf(),
        ensures
            final(self).wf(),
            final(self)@ == redone(old(self)@),
            match redo_step_m(old(self)@) {
                None => r is None,
                Some(s) => r matches Some(x) && x@ == s,
            },
    {
        if !self.can_redo() {
            return None;
        }
        self.cursor = self.cursor + 1;
        let entry = &self.entries[self.cursor];
        proof {
            assert(self@.entries[self.cursor as int] == entry@);
        }
        Some(Step { target: entry.target, text: entry.text.clone() })
    }

    /// Forgets everything. For a document that is no longer the same document.
    pub fn clear(&mut self)
        ensures
            final(self).wf(),
            final(self)@.entries.len() == 0,
            final(self)@.cursor == 0,
    {
        self.entries.clear();
        self.cursor = 0;
        proof {
            assert(self@.entries =~= Seq::<EntryM>::empty());
        }
    }
}

// ---------------------------------------------------------------------------------------------
// What the operations promise together
// ---------------------------------------------------------------------------------------------

proof fn lemma_latest_at_top(es: Seq<EntryM>, target: Target, n: int)
    requires
        0 < n <= es.len(),
        es[n - 1].target == target,
    ensures
        latest(es, target, n) == Some(es[n - 1].text),
{
}

proof fn lemma_latest_skips(es: Seq<EntryM>, target: Target, n: int)
    requires
        0 < n <= es.len(),
        es[n - 1].target != target,
    ensures
        latest(es, target, n) == latest(es, target, n - 1),
{
}

/// A push that changes a document leaves, as the current state and the last entry, exactly what
/// was pushed: that document, that text, that kind of edit and that time. So when typing merges
/// into the run before it, the run's time moves on to the newest keystroke.
pub proof fn lemma_push_records_its_time(h: HistoryM, target: Target, text: Seq<char>, kind: EditKind, at: u64)
    requires
        history_wf(h),
        current_of_m(h, target) != Some(text),
    ensures
        pushed(h, target, text, kind, at).entries.len() > 0,
        pushed(h, target, text, kind, at).cursor == pushed(h, target, text, kind, at).entries.len() - 1,
        pushed(h, target, text, kind, at).entries.last() == (EntryM { target, text, kind, at }),
{
    let es = h.entries.take(if h.cursor + 1 < h.entries.len() { h.cursor + 1 } else { h.entries.len() as int });
    if merges(es, target, kind, at) {
        assert(es.len() == h.cursor + 1);
    }
}

/// A run of typing is one step however long it goes on, so long as no pause between two
/// keystrokes reaches [`COALESCE_MS`]: typing on into the document the last keystroke changed,
/// under that pause, adds no entry.
pub proof fn lemma_typing_runs_merge(h: HistoryM, target: Target, first: Seq<char>, second: Seq<char>, t1: u64, t2: u64)
    requires
        history_wf(h),
        current_of_m(h, target) != Some(first),
        first != second,
        t1 <= t2,
        t2 - t1 < COALESCE_MS,
    ensures
        pushed(pushed(h, target, first, EditKind::Typing, t1), target, second, EditKind::Typing, t2).entries.len()
            == pushed(h, target, first, EditKind::Typing, t1).entries.len(),
{
    let p = pushed(h, target, first, EditKind::Typing, t1);
    lemma_push_records_its_time(h, target, first, EditKind::Typing, t1);
    lemma_push_makes_current(h, target, first, EditKind::Typing, t1);
    let es = p.entries.take(if p.cursor + 1 < p.entries.len() { p.cursor + 1 } else { p.entries.len() as int });
    assert(es =~= p.entries);
    assert(merges(es, target, EditKind::Typing, t2));
}

/// A pause of [`COALESCE_MS`] or more ends a run of typing: the next keystroke starts a step of its
/// own, and the run before it stays behind as the previous step, as it was.
pub proof fn lemma_pauses_split_runs(h: HistoryM, target: Target, first: Seq<char>, second: Seq<char>, t1: u64, t2: u64)
    requires
        history_wf(h),
        current_of_m(h, target) != Some(first),
        first != second,
        t1 <= t2,
        t2 - t1 >= COALESCE_MS,
    ensures
        ({
            let p = pushed(pushed(h, target, first, EditKind::Typing, t1), target, second, EditKind::Typing, t2);
            &&& p.entries.len() >= 2
            &&& p.entries[p.entries.len() - 2] == (EntryM { target, text: first, kind: EditKind::Typing, at: t1 })
            &&& p.entries.last() == (EntryM { target, text: second, kind: EditKind::Typing, at: t2 })
        }),
{
    let p = pushed(h, target, first, EditKind::Typing, t1);
    lemma_push_records_its_time(h, target, first, EditKind::Typing, t1);
    lemma_push_makes_current(h, target, first, EditKind::Typing, t1);
    lemma_push_records_its_time(p, target, second, EditKind::Typing, t2);
    let es = p.entries.take(if p.cursor + 1 < p.entries.len() { p.cursor + 1 } else { p.entries.len() as int });
    assert(es =~= p.entries);
    assert(!merges(es, target, EditKind::Typing, t2));
    let grown = es.push(EntryM { target, text: second, kind: EditKind::Typing, at: t2 });
    assert(grown[grown.len() - 2] == p.entries.last());
    if grown.len() > LIMIT {
        assert(grown.drop_first()[grown.drop_first().len() - 2] == grown[grown.len() - 2]);
    }
}

/// Whatever was recorded for a document is, straight afterwards, what that document holds.
pub proof fn lemma_push_makes_current(h: HistoryM, target: Target, text: Seq<char>, kind: EditKind, at: u64)
    requires
        history_wf(h),
    ensures
        history_wf(pushed(h, target, text, kind, at)),
        current_of_m(pushed(h, target, text, kind, at), target) == Some(text),
{
    if current_of_m(h, target) != Some(text) {
        let es = h.entries.take(if h.cursor + 1 < h.entries.len() { h.cursor + 1 } else { h.entries.len() as int });
        let p = pushed(h, target, text, kind, at);
        if merges(es, target, kind, at) {
            lemma_latest_at_top(p.entries, target, p.cursor + 1);
        } else {
            lemma_latest_at_top(p.entries, target, p.entries.len() as int);
        }
    }
}

/// Undoing and then redoing is no change at all, and the redo hands back the state the undo left.
pub proof fn lemma_undo_then_redo(h: HistoryM)
    requires
        history_wf(h),
        undo_step_m(h) is Some,
    ensures
        redone(undone(h)) == h,
        redo_step_m(undone(h)) == Some(StepM { target: h.entries[h.cursor].target, text: h.entries[h.cursor].text }),
{
}

/// Redoing and then undoing is no change at all, where the redone state's document has an earlier
/// state of its own to go back to.
pub proof fn lemma_redo_then_undo(h: HistoryM)
    requires
        history_wf(h),
        can_redo_m(h),
        latest(h.entries, h.entries[h.cursor + 1].target, h.cursor + 1) is Some,
    ensures
        undone(redone(h)) == h,
{
}

/// An undo moves one document back to its previous state and leaves every other document as it
/// stood.
pub proof fn lemma_undo_restores_one_document(h: HistoryM, other: Target)
    requires
        history_wf(h),
        undo_step_m(h) is Some,
    ensures
        current_of_m(undone(h), undo_step_m(h)->0.target) == Some(undo_step_m(h)->0.text),
        other != undo_step_m(h)->0.target ==> current_of_m(undone(h), other) == current_of_m(h, other),
{
    let t = h.entries[h.cursor].target;
    if other != t {
        lemma_latest_skips(h.entries, other, h.cursor + 1);
    }
}

} // verus!
