//! What the application remembers between runs: recently opened sources and which panes sit where.

use vstd::prelude::*;
use crate::text::{owned, same_text};

verus! {

/// How many recent sources are remembered.
pub const RECENTS_CAPACITY: usize = 12;

// ---------------------------------------------------------------------------------------------
// Recents
// ---------------------------------------------------------------------------------------------

#[derive(Debug, PartialEq, Eq)]
pub struct RecentEntry {
    /// The path or URL exactly as the user gave it.
    pub source: String,
    /// Seconds since the Unix epoch.
    pub opened_at: u64,
}

pub ghost struct RecentM {
    pub source: Seq<char>,
    pub opened_at: u64,
}

impl View for RecentEntry {
    type V = RecentM;

    open spec fn view(&self) -> RecentM {
        RecentM { source: self.source@, opened_at: self.opened_at }
    }
}

/// `es` without the entries for `source`, in order.
pub open spec fn without(es: Seq<RecentM>, source: Seq<char>) -> Seq<RecentM>
    decreases es.len(),
{
    if es.len() == 0 {
        seq![]
    } else {
        without(es.drop_last(), source) + if es.last().source == source {
            seq![]
        } else {
            seq![es.last()]
        }
    }
}

/// The list after opening `source` at `at`: first, and nowhere else, and the oldest dropped past
/// the capacity.
pub open spec fn recorded(es: Seq<RecentM>, source: Seq<char>, at: u64) -> Seq<RecentM> {
    let all = seq![RecentM { source, opened_at: at }] + without(es, source);
    if all.len() > RECENTS_CAPACITY {
        all.take(RECENTS_CAPACITY as int)
    } else {
        all
    }
}

/// Whether no source is listed twice.
pub open spec fn distinct_sources(es: Seq<RecentM>) -> bool {
    forall|i: int, j: int| 0 <= i < j < es.len() ==> es[i].source != es[j].source
}

/// What a list read back from storage keeps of its first `i` entries: each in turn, unless its
/// source is already kept or the list is full.
pub open spec fn cleaned(es: Seq<RecentM>, i: int) -> Seq<RecentM>
    decreases i,
{
    if i <= 0 {
        seq![]
    } else {
        let c = cleaned(es, i - 1);
        if c.len() < RECENTS_CAPACITY && !(exists|k: int| 0 <= k < c.len() && #[trigger] c[k].source == es[i - 1].source) {
            c.push(es[i - 1])
        } else {
            c
        }
    }
}

/// Most-recently-opened sources, newest first.
#[derive(Debug)]
pub struct Recents(Vec<RecentEntry>);

impl Recents {
    pub closed spec fn entries_m(&self) -> Seq<RecentM> {
        self.0@.map_values(|e: RecentEntry| e@)
    }

    /// At most [`RECENTS_CAPACITY`] entries, no source twice.
    pub open spec fn wf(&self) -> bool {
        &&& self.entries_m().len() <= RECENTS_CAPACITY
        &&& distinct_sources(self.entries_m())
    }

    pub fn new() -> (r: Recents)
        ensures
            r.wf(),
            r.entries_m().len() == 0,
    {
        let r = Recents(Vec::new());
        proof {
            assert(r.entries_m() =~= Seq::<RecentM>::empty());
        }
        r
    }

    /// A list read back from storage, cleaned of what this list never holds: a repeated source
    /// keeps its first, newest place, and entries past the capacity are dropped.
    pub fn from_entries(entries: Vec<RecentEntry>) -> (r: Recents)
        ensures
            r.wf(),
            r.entries_m() == cleaned(entries@.map_values(|e: RecentEntry| e@), entries@.len() as int),
    {
        let ghost es = entries@.map_values(|e: RecentEntry| e@);
        let mut kept = Recents::new();
        let mut i: usize = 0;
        while i < entries.len()
            invariant
                kept.wf(),
                i <= entries@.len(),
                es == entries@.map_values(|e: RecentEntry| e@),
                kept.entries_m() == cleaned(es, i as int),
            decreases entries@.len() - i,
        {
            proof {
                assert(es[i as int] == entries@[i as int]@);
            }
            if kept.0.len() < RECENTS_CAPACITY && !kept.contains(entries[i].source.as_str()) {
                let e = RecentEntry { source: entries[i].source.clone(), opened_at: entries[i].opened_at };
                let ghost before = kept.entries_m();
                kept.0.push(e);
                proof {
                    assert(kept.entries_m() =~= before.push(e@));
                }
            }
            i = i + 1;
        }
        kept
    }

    /// Whether `source` is listed.
    fn contains(&self, source: &str) -> (b: bool)
        ensures
            b == exists|i: int| 0 <= i < self.entries_m().len() && #[trigger] self.entries_m()[i].source == source@,
    {
        let mut i: usize = 0;
        while i < self.0.len()
            invariant
                i <= self.0@.len(),
                forall|j: int| 0 <= j < i ==> #[trigger] self.entries_m()[j].source != source@,
            decreases self.0@.len() - i,
        {
            proof {
                assert(self.entries_m()[i as int] == self.0@[i as int]@);
            }
            if same_text(self.0[i].source.as_str(), source) {
                proof {
                    assert(self.entries_m()[i as int].source == source@);
                }
                return true;
            }
            i = i + 1;
        }
        false
    }

    /// Records a source as most recent at `at`, moving it up if already present.
    pub fn record_at(&mut self, source: &str, at: u64)
        requires
            old(self).wf(),
        ensures
            final(self).wf(),
            final(self).entries_m() == recorded(old(self).entries_m(), source@, at),
    {
        let ghost es = self.entries_m();
        self.forget(source);
        let ghost rest = self.entries_m();
        self.0.insert(0, RecentEntry { source: owned(source), opened_at: at });
        proof {
            assert(self.entries_m() =~= seq![RecentM { source: source@, opened_at: at }] + rest);
        }
        self.0.truncate(RECENTS_CAPACITY);
        proof {
            let all = seq![RecentM { source: source@, opened_at: at }] + rest;
            if all.len() > RECENTS_CAPACITY {
                assert(self.entries_m() =~= all.take(RECENTS_CAPACITY as int));
            } else {
                assert(self.entries_m() =~= all);
            }
            lemma_without_lacks(es, source@);
            assert forall|i: int, j: int| 0 <= i < j < self.entries_m().len() implies self.entries_m()[i].source != self.entries_m()[j].source by {
                if i == 0 {
                    assert(self.entries_m()[j] == rest[j - 1]);
                } else {
                    assert(self.entries_m()[i] == rest[i - 1]);
                    assert(self.entries_m()[j] == rest[j - 1]);
                }
            }
        }
    }

    pub fn entries(&self) -> (r: &[RecentEntry])
        ensures
            r@.map_values(|e: RecentEntry| e@) == self.entries_m(),
    {
        self.0.as_slice()
    }

    /// Removes `source` from the list.
    pub fn forget(&mut self, source: &str)
        requires
            old(self).wf(),
        ensures
            final(self).wf(),
            final(self).entries_m() == without(old(self).entries_m(), source@),
    {
        let ghost es = self.entries_m();
        let mut kept: Vec<RecentEntry> = Vec::new();
        let mut all = Vec::new();
        std::mem::swap(&mut all, &mut self.0);
        let mut i: usize = 0;
        while i < all.len()
            invariant
                i <= all@.len(),
                es == all@.map_values(|e: RecentEntry| e@),
                kept@.map_values(|e: RecentEntry| e@) == without(es.take(i as int), source@),
            decreases all@.len() - i,
        {
            proof {
                assert(es.take(i + 1).drop_last() =~= es.take(i as int));
                assert(es.take(i + 1).last() == all@[i as int]@);
            }
            let ghost before = kept@.map_values(|e: RecentEntry| e@);
            if !same_text(all[i].source.as_str(), source) {
                let e = RecentEntry { source: all[i].source.clone(), opened_at: all[i].opened_at };
                kept.push(e);
                proof {
                    assert(kept@.map_values(|e: RecentEntry| e@) =~= before + seq![e@]);
                }
            } else {
                proof {
                    assert(kept@.map_values(|e: RecentEntry| e@) =~= before + Seq::<RecentM>::empty());
                }
            }
            i = i + 1;
        }
        proof {
            assert(es.take(i as int) =~= es);
        }
        self.0 = kept;
        proof {
            lemma_without_sub(es, source@);
        }
    }
}

/// What [`without`] leaves is a sub-list: each kept entry is one of the originals, in order, and
/// none of them is for `source`.
proof fn lemma_without_sub(es: Seq<RecentM>, source: Seq<char>)
    requires
        distinct_sources(es),
    ensures
        without(es, source).len() <= es.len(),
        distinct_sources(without(es, source)),
        forall|i: int| 0 <= i < without(es, source).len() ==> #[trigger] without(es, source)[i].source != source,
        forall|i: int| 0 <= i < without(es, source).len() ==> exists|j: int| 0 <= j < es.len() && es[j] == #[trigger] without(es, source)[i],
    decreases es.len(),
{
    if es.len() > 0 {
        let init = es.drop_last();
        assert forall|i: int, j: int| 0 <= i < j < init.len() implies init[i].source != init[j].source by {
            assert(init[i] == es[i] && init[j] == es[j]);
        }
        lemma_without_sub(init, source);
        let w = without(init, source);
        let r = without(es, source);
        assert forall|i: int| 0 <= i < w.len() implies exists|j: int| 0 <= j < es.len() && es[j] == #[trigger] w[i] by {
            let j = choose|j: int| 0 <= j < init.len() && init[j] == w[i];
            assert(es[j] == init[j]);
        }
        if es.last().source != source {
            assert(r == w + seq![es.last()]);
            assert forall|i: int| 0 <= i < w.len() implies #[trigger] w[i].source != es.last().source by {
                let j = choose|j: int| 0 <= j < es.len() && es[j] == w[i];
                if j == es.len() - 1 {
                } else {
                    assert(es[j].source != es[es.len() - 1].source);
                }
            }
            assert forall|i: int| 0 <= i < r.len() implies exists|j: int| 0 <= j < es.len() && es[j] == #[trigger] r[i] by {
                if i == w.len() {
                    assert(es[es.len() - 1] == r[i]);
                } else {
                    assert(r[i] == w[i]);
                }
            }
            assert forall|a: int, b: int| 0 <= a < b < r.len() implies r[a].source != r[b].source by {
                if b == w.len() {
                    assert(r[a] == w[a]);
                } else {
                    assert(r[a] == w[a] && r[b] == w[b]);
                }
            }
        } else {
            assert(r =~= w);
        }
    }
}

proof fn lemma_without_lacks(es: Seq<RecentM>, source: Seq<char>)
    requires
        distinct_sources(es),
    ensures
        forall|i: int| 0 <= i < without(es, source).len() ==> #[trigger] without(es, source)[i].source != source,
        distinct_sources(without(es, source)),
{
    lemma_without_sub(es, source);
}

proof fn lemma_without_absent(es: Seq<RecentM>, source: Seq<char>)
    requires
        forall|i: int| 0 <= i < es.len() ==> (#[trigger] es[i]).source != source,
    ensures
        without(es, source) == es,
    decreases es.len(),
{
    if es.len() > 0 {
        lemma_without_absent(es.drop_last(), source);
        assert(es.drop_last().push(es.last()) =~= es);
    }
}

proof fn lemma_without_present(es: Seq<RecentM>, source: Seq<char>, k: int)
    requires
        distinct_sources(es),
        0 <= k < es.len(),
        es[k].source == source,
    ensures
        without(es, source) == es.remove(k),
    decreases es.len(),
{
    let init = es.drop_last();
    if k == es.len() - 1 {
        assert forall|i: int| 0 <= i < init.len() implies (#[trigger] init[i]).source != source by {
            assert(init[i] == es[i]);
        }
        lemma_without_absent(init, source);
        assert(init =~= es.remove(k));
    } else {
        assert(distinct_sources(init)) by {
            assert forall|i: int, j: int| 0 <= i < j < init.len() implies init[i].source != init[j].source by {
                assert(init[i] == es[i] && init[j] == es[j]);
            }
        }
        assert(init[k] == es[k]);
        lemma_without_present(init, source, k);
        assert(es.last().source != source);
        assert(init.remove(k).push(es.last()) =~= es.remove(k));
    }
}

/// Opening a source puts it first, opened when it was opened, and keeps every other source in the
/// order it had:
/// - a source not yet listed is added in front, and when the list is full only the oldest entry, the
///   last, makes room;
/// - a source already listed moves to the front, and nothing else is dropped.
pub proof fn lemma_recording_keeps_the_rest(es: Seq<RecentM>, source: Seq<char>, at: u64)
    requires
        es.len() <= RECENTS_CAPACITY,
        distinct_sources(es),
    ensures
        recorded(es, source, at).len() > 0,
        recorded(es, source, at)[0] == (RecentM { source, opened_at: at }),
        (forall|i: int| 0 <= i < es.len() ==> (#[trigger] es[i]).source != source) ==> {
            &&& recorded(es, source, at).len() == if es.len() < RECENTS_CAPACITY { es.len() + 1 } else { es.len() as nat }
            &&& forall|i: int| 0 < i < recorded(es, source, at).len() ==> #[trigger] recorded(es, source, at)[i] == es[i - 1]
        },
        forall|k: int| 0 <= k < es.len() && (#[trigger] es[k]).source == source ==> {
            &&& recorded(es, source, at).len() == es.len()
            &&& forall|i: int| 0 < i <= k ==> #[trigger] recorded(es, source, at)[i] == es[i - 1]
            &&& forall|i: int| k < i < es.len() ==> #[trigger] recorded(es, source, at)[i] == es[i]
        },
{
    let r = recorded(es, source, at);
    let new = RecentM { source, opened_at: at };
    if forall|i: int| 0 <= i < es.len() ==> (#[trigger] es[i]).source != source {
        lemma_without_absent(es, source);
        assert forall|i: int| 0 < i < r.len() implies #[trigger] r[i] == es[i - 1] by {
            assert((seq![new] + es)[i] == es[i - 1]);
        }
    }
    assert forall|k: int| 0 <= k < es.len() && (#[trigger] es[k]).source == source implies {
        &&& r.len() == es.len()
        &&& forall|i: int| 0 < i <= k ==> #[trigger] r[i] == es[i - 1]
        &&& forall|i: int| k < i < es.len() ==> #[trigger] r[i] == es[i]
    } by {
        lemma_without_present(es, source, k);
        let all = seq![new] + es.remove(k);
        assert(all.len() == es.len());
        assert(r == all);
        assert forall|i: int| 0 < i <= k implies #[trigger] r[i] == es[i - 1] by {
            assert(all[i] == es.remove(k)[i - 1]);
        }
        assert forall|i: int| k < i < es.len() implies #[trigger] r[i] == es[i] by {
            assert(all[i] == es.remove(k)[i - 1]);
        }
    }
}

// ---------------------------------------------------------------------------------------------
// Panes// ---------------------------------------------------------------------------------------------
// Panes
// ---------------------------------------------------------------------------------------------

/// Which sidebar a pane sits in.
#[derive(Debug, Clone, Copy, PartialEq, Eq, Structural)]
pub enum Side {
    Left,
    Right,
}

/// One pane's place in the layout.
///
/// The id is the whole contract with the webview: the core decides where a pane sits and whether it
/// is open, the webview decides what it contains and what it is called.
#[derive(Debug, PartialEq)]
pub struct PaneState {
    pub id: String,
    pub side: Side,
    pub open: bool,
}

pub ghost struct PaneM {
    pub id: Seq<char>,
    pub side: Side,
    pub open: bool,
}

impl View for PaneState {
    type V = PaneM;

    open spec fn view(&self) -> PaneM {
        PaneM { id: self.id@, side: self.side, open: self.open }
    }
}

pub open spec fn panes_model(ps: Seq<PaneState>) -> Seq<PaneM> {
    ps.map_values(|p: PaneState| p@)
}

/// The panes this build has, in the order a fresh install shows them.
pub open spec fn catalogue_panes() -> Seq<PaneM> {
    seq![
        PaneM { id: "pipeline"@, side: Side::Left, open: true },
        PaneM { id: "output"@, side: Side::Right, open: true },
        PaneM { id: "inspector"@, side: Side::Right, open: true },
    ]
}

pub fn catalogue() -> (r: Vec<PaneState>)
    ensures
        panes_model(r@) == catalogue_panes(),
{
    let r = vec![
        PaneState { id: owned("pipeline"), side: Side::Left, open: true },
        PaneState { id: owned("output"), side: Side::Right, open: true },
        PaneState { id: owned("inspector"), side: Side::Right, open: true },
    ];
    proof {
        assert(panes_model(r@) =~= catalogue_panes());
    }
    r
}

pub open spec fn has_id(ps: Seq<PaneM>, id: Seq<char>) -> bool {
    exists|i: int| 0 <= i < ps.len() && #[trigger] ps[i].id == id
}

/// The stored panes that this build has, each at its first appearance, in stored order.
pub open spec fn kept_panes(stored: Seq<PaneM>) -> Seq<PaneM>
    decreases stored.len(),
{
    if stored.len() == 0 {
        seq![]
    } else {
        let k = kept_panes(stored.drop_last());
        let p = stored.last();
        if has_id(catalogue_panes(), p.id) && !has_id(k, p.id) {
            k.push(p)
        } else {
            k
        }
    }
}

/// `kept`, then each pane of `cat` it lacks, in catalogue order.
pub open spec fn completed(kept: Seq<PaneM>, cat: Seq<PaneM>) -> Seq<PaneM>
    decreases cat.len(),
{
    if cat.len() == 0 {
        kept
    } else {
        let k = completed(kept, cat.drop_last());
        if has_id(k, cat.last().id) {
            k
        } else {
            k.push(cat.last())
        }
    }
}

/// Whether no id appears twice.
pub open spec fn distinct_ids(ps: Seq<PaneM>) -> bool {
    forall|i: int, j: int| 0 <= i < j < ps.len() ==> ps[i].id != ps[j].id
}

fn find_id(ps: &Vec<PaneState>, id: &str) -> (b: bool)
    ensures
        b == has_id(panes_model(ps@), id@),
{
    let mut i: usize = 0;
    while i < ps.len()
        invariant
            i <= ps@.len(),
            forall|j: int| 0 <= j < i ==> #[trigger] panes_model(ps@)[j].id != id@,
        decreases ps@.len() - i,
    {
        proof {
            assert(panes_model(ps@)[i as int] == ps@[i as int]@);
        }
        if same_text(ps[i].id.as_str(), id) {
            proof {
                assert(panes_model(ps@)[i as int].id == id@);
            }
            return true;
        }
        i = i + 1;
    }
    false
}

/// Brings a stored pane list back in line with the panes this build has.
///
/// * **A pane this build does not have** is dropped: rendering is by id, so an unknown one would
///   be an empty box with a heading.
/// * **A pane the file has never heard of** is appended, last, because a remembered order is the
///   user's and a new arrival has not earned a place in the middle of it.
/// * **A duplicate** keeps its first appearance.
pub fn reconcile_panes(stored: Vec<PaneState>) -> (panes: Vec<PaneState>)
    ensures
        panes_model(panes@) == completed(kept_panes(panes_model(stored@)), catalogue_panes()),
        distinct_ids(panes_model(panes@)),
        forall|i: int| 0 <= i < panes@.len() ==> has_id(catalogue_panes(), #[trigger] panes_model(panes@)[i].id),
        forall|i: int| 0 <= i < catalogue_panes().len() ==> has_id(panes_model(panes@), #[trigger] catalogue_panes()[i].id),
{
    let cat = catalogue();
    let ghost sm = panes_model(stored@);
    let mut panes: Vec<PaneState> = Vec::new();
    let mut i: usize = 0;
    while i < stored.len()
        invariant
            i <= stored@.len(),
            sm == panes_model(stored@),
            panes_model(cat@) == catalogue_panes(),
            panes_model(panes@) == kept_panes(sm.take(i as int)),
            distinct_ids(panes_model(panes@)),
            forall|k: int| 0 <= k < panes@.len() ==> has_id(catalogue_panes(), #[trigger] panes_model(panes@)[k].id),
        decreases stored@.len() - i,
    {
        let p = &stored[i];
        proof {
            assert(sm.take(i + 1).drop_last() =~= sm.take(i as int));
            assert(sm.take(i + 1).last() == p@);
        }
        if find_id(&cat, p.id.as_str()) && !find_id(&panes, p.id.as_str()) {
            let copy = PaneState { id: p.id.clone(), side: p.side, open: p.open };
            let ghost before = panes_model(panes@);
            panes.push(copy);
            proof {
                assert(panes_model(panes@) =~= before.push(copy@));
                assert forall|a: int, b: int| 0 <= a < b < panes_model(panes@).len() implies panes_model(panes@)[a].id != panes_model(panes@)[b].id by {
                    if b == before.len() {
                        assert(panes_model(panes@)[a] == before[a]);
                    } else {
                        assert(panes_model(panes@)[a] == before[a] && panes_model(panes@)[b] == before[b]);
                    }
                }
            }
        }
        i = i + 1;
    }
    proof {
        assert(sm.take(i as int) =~= sm);
    }
    let ghost kept = panes_model(panes@);
    let mut k: usize = 0;
    while k < cat.len()
        invariant
            k <= cat@.len(),
            panes_model(cat@) == catalogue_panes(),
            panes_model(panes@) == completed(kept, catalogue_panes().take(k as int)),
            distinct_ids(panes_model(panes@)),
            forall|m: int| 0 <= m < panes@.len() ==> has_id(catalogue_panes(), #[trigger] panes_model(panes@)[m].id),
            forall|m: int| 0 <= m < k ==> has_id(panes_model(panes@), #[trigger] catalogue_panes()[m].id),
        decreases cat@.len() - k,
    {
        let c = &cat[k];
        proof {
            assert(catalogue_panes().take(k + 1).drop_last() =~= catalogue_panes().take(k as int));
            assert(catalogue_panes().take(k + 1).last() == c@);
            assert(catalogue_panes()[k as int] == c@);
        }
        let ghost before = panes_model(panes@);
        if !find_id(&panes, c.id.as_str()) {
            let copy = PaneState { id: c.id.clone(), side: c.side, open: c.open };
            panes.push(copy);
            proof {
                assert(panes_model(panes@) =~= before.push(copy@));
                assert(panes_model(panes@)[before.len() as int] == copy@);
                assert forall|a: int, b: int| 0 <= a < b < panes_model(panes@).len() implies panes_model(panes@)[a].id != panes_model(panes@)[b].id by {
                    if b == before.len() {
                        assert(panes_model(panes@)[a] == before[a]);
                    } else {
                        assert(panes_model(panes@)[a] == before[a] && panes_model(panes@)[b] == before[b]);
                    }
                }
                assert forall|m: int| 0 <= m < panes@.len() implies has_id(catalogue_panes(), #[trigger] panes_model(panes@)[m].id) by {
                    if m == before.len() {
                        assert(catalogue_panes()[k as int].id == panes_model(panes@)[m].id);
                    } else {
                        assert(panes_model(panes@)[m] == before[m]);
                    }
                }
                assert forall|m: int| 0 <= m <= k implies has_id(panes_model(panes@), #[trigger] catalogue_panes()[m].id) by {
                    if m == k {
                        assert(panes_model(panes@)[before.len() as int].id == catalogue_panes()[m].id);
                    } else {
                        let w = choose|w: int| 0 <= w < before.len() && #[trigger] before[w].id == catalogue_panes()[m].id;
                        assert(panes_model(panes@)[w] == before[w]);
                    }
                }
            }
        }
        k = k + 1;
    }
    proof {
        assert(catalogue_panes().take(k as int) =~= catalogue_panes());
    }
    panes
}

} // verus!
