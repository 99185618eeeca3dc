//! What went wrong this session, kept where the user can copy it out.
//!
//! **Repeats are folded rather than listed.** A container of `bin` tiles produces one decode error
//! per tile; without folding, five hundred identical lines push out the one entry that explains
//! them. An entry therefore carries a `count`, and a repeat moves its timestamp rather than adding
//! a row.

use vstd::prelude::*;
use crate::text::same_text;

verus! {

/// How many distinct entries are kept.
///
/// The **oldest** go first: a session explains itself from the first thing that went wrong, but an
/// unbounded list in a process that runs for days is a leak with a nicer name.
pub const HISTORY: usize = 500;

/// Identifies a problem for the lifetime of the process.
pub type ProblemId = u32;

/// How much attention an entry deserves.
#[derive(Debug, Clone, Copy, PartialEq, Eq, Structural)]
pub enum Level {
    /// Something was given up on, and the application carried on without it.
    Warn,
    /// Something the user asked for did not happen.
    Error,
}

/// Which half of the application an entry came from.
#[derive(Debug, Clone, Copy, PartialEq, Eq, Structural)]
pub enum Origin {
    Core,
    Webview,
    /// MapLibre, reporting about tiles and styles: nobody's code, and so the easiest to
    /// misattribute.
    MapLibre,
}

/// One problem, as the panel lists it and the report prints it.
#[derive(Debug)]
pub struct Problem {
    pub id: ProblemId,
    /// Whole seconds since the Unix epoch.
    pub at: u32,
    pub level: Level,
    pub origin: Origin,
    /// One line, and the thing repeats are matched on.
    pub message: String,
    /// The rest of it - a stack, an error chain, a panic's location.
    pub detail: Option<String>,
    /// How many times this happened. `1` for a problem that happened once.
    pub count: u32,
}

/// A problem on its way in, before the log gives it an id, a time and a count.
#[derive(Debug)]
pub struct NewProblem {
    pub level: Level,
    pub origin: Origin,
    pub message: String,
    pub detail: Option<String>,
}

pub ghost struct ProblemM {
    pub id: ProblemId,
    pub at: u32,
    pub level: Level,
    pub origin: Origin,
    pub message: Seq<char>,
    pub detail: Option<Seq<char>>,
    pub count: u32,
}

pub ghost struct NewProblemM {
    pub level: Level,
    pub origin: Origin,
    pub message: Seq<char>,
    pub detail: Option<Seq<char>>,
}

pub open spec fn opt_view(o: Option<String>) -> Option<Seq<char>> {
    match o {
        Some(s) => Some(s@),
        None => None,
    }
}

impl View for Problem {
    type V = ProblemM;

    open spec fn view(&self) -> ProblemM {
        ProblemM {
            id: self.id,
            at: self.at,
            level: self.level,
            origin: self.origin,
            message: self.message@,
            detail: opt_view(self.detail),
            count: self.count,
        }
    }
}

impl View for NewProblem {
    type V = NewProblemM;

    open spec fn view(&self) -> NewProblemM {
        NewProblemM { level: self.level, origin: self.origin, message: self.message@, detail: opt_view(self.detail) }
    }
}

/// Whether a report is another occurrence of an entry: the same in everything but time and count.
pub open spec fn repeats(p: ProblemM, r: NewProblemM) -> bool {
    p.level == r.level && p.origin == r.origin && p.message == r.message && p.detail == r.detail
}

/// Whether two entries would be taken for one another.
pub open spec fn same_problem(a: ProblemM, b: ProblemM) -> bool {
    a.level == b.level && a.origin == b.origin && a.message == b.message && a.detail == b.detail
}

/// The first entry a report repeats.
pub open spec fn first_repeat(es: Seq<ProblemM>, r: NewProblemM, i: int) -> Option<int>
    decreases es.len() - i,
{
    if i < 0 || i >= es.len() {
        None
    } else if repeats(es[i], r) {
        Some(i)
    } else {
        first_repeat(es, r, i + 1)
    }
}

/// The session's problems, oldest first.
pub struct Problems {
    entries: Vec<Problem>,
    next: ProblemId,
}

/// The entries after recording `r` at time `at` with the next id `id`.
pub open spec fn recorded(es: Seq<ProblemM>, r: NewProblemM, at: u32, id: ProblemId) -> Seq<ProblemM> {
    match first_repeat(es, r, 0) {
        Some(i) => es.update(
            i,
            ProblemM { count: if es[i].count == u32::MAX { u32::MAX } else { (es[i].count + 1) as u32 }, at, ..es[i] },
        ),
        None => {
            let grown = es.push(
                ProblemM {
                    id,
                    at,
                    level: r.level,
                    origin: r.origin,
                    message: r.message,
                    detail: r.detail,
                    count: 1,
                },
            );
            if grown.len() > HISTORY {
                grown.drop_first()
            } else {
                grown
            }
        },
    }
}

impl Problems {
    pub closed spec fn entries(&self) -> Seq<ProblemM> {
        self.entries@.map_values(|p: Problem| p@)
    }

    pub closed spec fn next_id(&self) -> ProblemId {
        self.next
    }

    /// At most [`HISTORY`] entries, no two of which would be taken for one another.
    pub open spec fn wf(&self) -> bool {
        &&& self.entries().len() <= HISTORY
        &&& forall|i: int, j: int|
            0 <= i < j < self.entries().len() ==> !same_problem(self.entries()[i], self.entries()[j])
    }

    pub fn new() -> (p: Problems)
        ensures
            p.wf(),
            p.entries().len() == 0,
            p.next_id() == 0,
    {
        let p = Problems { entries: Vec::new(), next: 0 };
        proof {
            assert(p.entries() =~= Seq::<ProblemM>::empty());
        }
        p
    }

    /// Records a problem that happened at `at`, folding it into an identical one if this has
    /// happened before. Returns how many distinct entries are now held.
    ///
    /// Matched on everything but the time and the count, and searched across the whole log rather
    /// than only against the last entry: problems arrive interleaved with whatever else is failing.
    pub fn record_at(&mut self, report: NewProblem, at: u32) -> (n: u32)
        requires
            old(self).wf(),
        ensures
            final(self).wf(),
            final(self).entries() == recorded(old(self).entries(), report@, at, old(self).next_id()),
            final(self).next_id() == if first_repeat(old(self).entries(), report@, 0) is Some {
                old(self).next_id()
            } else {
                old(self).next_id().wrapping_add(1)
            },
            n == final(self).entries().len(),
    {
        let ghost es = self.entries();
        let ghost r = report@;
        if let Some(i) = self.find_repeat(&report) {
            let e = &self.entries[i];
            let count = if e.count == u32::MAX {
                u32::MAX
            } else {
                e.count + 1
            };
            let mut entry = self.entries.remove(i);
            entry.count = count;
            entry.at = at;
            self.entries.insert(i, entry);
            proof {
                assert(self.entries() =~= recorded(es, r, at, self.next));
                assert forall|a: int, b: int| 0 <= a < b < self.entries().len() implies !same_problem(self.entries()[a], self.entries()[b]) by {
                    assert(same_problem(self.entries()[a], self.entries()[b]) == same_problem(es[a], es[b]));
                }
            }
            return self.entries.len() as u32;
        }
        let id = self.next;
        self.next = self.next.wrapping_add(1);
        self.entries.push(
            Problem {
                id,
                at,
                level: report.level,
                origin: report.origin,
                message: report.message,
                detail: report.detail,
                count: 1,
            },
        );
        let ghost grown = self.entries();
        proof {
            assert(grown =~= es.push(grown.last()));
            assert forall|a: int| 0 <= a < es.len() implies !same_problem(#[trigger] grown[a], grown.last()) by {
                lemma_no_repeat(es, r, a);
            }
        }
        if self.entries.len() > HISTORY {
            self.entries.remove(0);
            proof {
                assert(self.entries() =~= grown.drop_first());
            }
        }
        proof {
            assert(self.entries() =~= recorded(es, r, at, id));
        }
        self.entries.len() as u32
    }

    /// Where the first entry `report` repeats is.
    fn find_repeat(&self, report: &NewProblem) -> (r: Option<usize>)
        ensures
            match first_repeat(self.entries(), report@, 0) {
                None => r is None,
                Some(i) => r matches Some(j) && j == i && j < self.entries@.len(),
            },
    {
        let ghost es = self.entries();
        let mut i: usize = 0;
        while i < self.entries.len()
            invariant
                i <= self.entries@.len(),
                es == self.entries(),
                es.len() == self.entries@.len(),
                first_repeat(es, report@, 0) == first_repeat(es, report@, i as int),
            decreases self.entries@.len() - i,
        {
            let e = &self.entries[i];
            proof {
                assert(es[i as int] == e@);
            }
            if e.level == report.level && e.origin == report.origin && same_text(e.message.as_str(), report.message.as_str())
                && same_detail(&e.detail, &report.detail) {
                return Some(i);
            }
            i = i + 1;
        }
        None
    }

    /// Everything held, oldest first.
    pub fn list(&self) -> (r: Vec<Problem>)
        ensures
            r@.map_values(|p: Problem| p@) == self.entries(),
    {
        let mut out: Vec<Problem> = Vec::new();
        let mut i: usize = 0;
        while i < self.entries.len()
            invariant
                i <= self.entries@.len(),
                out@.map_values(|p: Problem| p@) == self.entries().take(i as int),
            decreases self.entries@.len() - i,
        {
            let c = copy_problem(&self.entries[i]);
            let ghost prior = out@;
            out.push(c);
            proof {
                assert(self.entries()[i as int] == c@);
                assert(out@.map_values(|p: Problem| p@) =~= prior.map_values(|p: Problem| p@).push(c@));
                assert(self.entries().take(i + 1) =~= self.entries().take(i as int).push(c@));
            }
            i = i + 1;
        }
        proof {
            assert(self.entries().take(i as int) =~= self.entries());
        }
        out
    }

    /// How many distinct entries are held.
    pub fn count(&self) -> (n: u32)
        requires
            self.wf(),
        ensures
            n == self.entries().len(),
    {
        self.entries.len() as u32
    }

    /// Forgets everything - for reproducing a problem cleanly before copying the report.
    pub fn clear(&mut self)
        ensures
            final(self).wf(),
            final(self).entries().len() == 0,
            final(self).next_id() == old(self).next_id(),
    {
        self.entries.clear();
        proof {
            assert(self.entries() =~= Seq::<ProblemM>::empty());
        }
    }
}

proof fn lemma_no_repeat(es: Seq<ProblemM>, r: NewProblemM, a: int)
    requires
        first_repeat(es, r, 0) is None,
        0 <= a < es.len(),
    ensures
        !repeats(es[a], r),
{
    lemma_first_repeat_none(es, r, 0, a);
}

proof fn lemma_first_repeat_none(es: Seq<ProblemM>, r: NewProblemM, i: int, a: int)
    requires
        first_repeat(es, r, i) is None,
        0 <= i <= a < es.len(),
    ensures
        !repeats(es[a], r),
    decreases a - i,
{
    if i < a {
        lemma_first_repeat_none(es, r, i + 1, a);
    }
}

/// Whether two details say the same.
fn same_detail(a: &Option<String>, b: &Option<String>) -> (r: bool)
    ensures
        r == (opt_view(*a) == opt_view(*b)),
{
    match (a, b) {
        (Some(x), Some(y)) => same_text(x.as_str(), y.as_str()),
        (None, None) => true,
        _ => false,
    }
}

/// A copy of an entry.
pub fn copy_problem(p: &Problem) -> (c: Problem)
    ensures
        c@ == p@,
{
    Problem {
        id: p.id,
        at: p.at,
        level: p.level,
        origin: p.origin,
        message: p.message.clone(),
        detail: match &p.detail {
            Some(d) => Some(d.clone()),
            None => None,
        },
        count: p.count,
    }
}

} // verus!
