//! Names for the VPL graphs a project holds.
//!
//! **A graph is a named VPL document producing one named tile source.** The name is the identity in
//! three places at once - the server mount, the source name in `style.json`, and the `.vpl`
//! filename - which is what makes renaming one a real operation rather than a label change.

use vstd::prelude::*;
use crate::text::{
    ascii_alnum, ascii_lower, chars_of, is_ascii_alnum, is_white, owned, push_char, string_between, to_ascii_lower,
    white,
};
use crate::paths::{file_name, file_name_bounds, find_last_dot, stem};
use crate::server::{decimal, digit, push_decimal};
use crate::vpl::document::Document;
use vstd::set_lib::{lemma_int_range, lemma_len_subset, lemma_map_size, set_int_range};

verus! {

/// Identifies a graph for as long as the project is open.
pub type GraphId = u32;

/// How long a graph's name may be.
///
/// It becomes a filename and a URL path segment, so this is about the shortest limit either of
/// those imposes rather than about anything Studio cares about.
pub const MAX_NAME: usize = 64;

/// Which characters trimming takes off the ends.
#[derive(Debug, Clone, Copy, PartialEq, Eq, Structural)]
pub enum Edge {
    White,
    Dash,
}

pub open spec fn is_edge(c: char, e: Edge) -> bool {
    match e {
        Edge::White => is_white(c),
        Edge::Dash => c == '-',
    }
}

pub open spec fn strip_front(s: Seq<char>, e: Edge) -> Seq<char>
    decreases s.len(),
{
    if s.len() > 0 && is_edge(s[0], e) {
        strip_front(s.drop_first(), e)
    } else {
        s
    }
}

pub open spec fn strip_back(s: Seq<char>, e: Edge) -> Seq<char>
    decreases s.len(),
{
    if s.len() > 0 && is_edge(s.last(), e) {
        strip_back(s.drop_last(), e)
    } else {
        s
    }
}

proof fn lemma_strip_back_ends(s: Seq<char>, e: Edge)
    ensures
        strip_back(s, e).len() > 0 ==> !is_edge(strip_back(s, e).last(), e),
    decreases s.len(),
{
    if s.len() > 0 && is_edge(s.last(), e) {
        lemma_strip_back_ends(s.drop_last(), e);
    }
}

/// `s` without the characters of kind `e` at either end.
pub open spec fn trimmed(s: Seq<char>, e: Edge) -> Seq<char> {
    strip_back(strip_front(s, e), e)
}

/// Letters and digits lower-cased, every run of anything else one `-`.
pub open spec fn collapse(s: Seq<char>) -> Seq<char>
    decreases s.len(),
{
    if s.len() == 0 {
        seq![]
    } else {
        let r = collapse(s.drop_last());
        let c = s.last();
        if is_ascii_alnum(c) {
            r.push(ascii_lower(c))
        } else if r.len() > 0 && r.last() == '-' {
            r
        } else {
            r.push('-')
        }
    }
}

/// What [`sanitise`] makes of `name`.
pub open spec fn sanitised(name: Seq<char>) -> Seq<char> {
    let t = trimmed(collapse(trimmed(name, Edge::White)), Edge::Dash);
    if t.len() > MAX_NAME {
        t.take(MAX_NAME as int)
    } else {
        t
    }
}

/// The characters a graph's name is made of.
pub open spec fn name_char(c: char) -> bool {
    ('a' <= c && c <= 'z') || ('0' <= c && c <= '9') || c == '-'
}

fn edge_test(c: char, e: Edge) -> (b: bool)
    ensures
        b == is_edge(c, e),
{
    match e {
        Edge::White => white(c),
        Edge::Dash => c == '-',
    }
}

proof fn lemma_strip_front_skip(s: Seq<char>, a: int, e: Edge)
    requires
        0 <= a < s.len(),
        is_edge(s[a], e),
    ensures
        strip_front(s.skip(a), e) == strip_front(s.skip(a + 1), e),
{
    assert(s.skip(a).drop_first() =~= s.skip(a + 1));
}

proof fn lemma_strip_back_cut(s: Seq<char>, a: int, b: int, e: Edge)
    requires
        0 <= a < b <= s.len(),
        is_edge(s[b - 1], e),
    ensures
        strip_back(s.subrange(a, b), e) == strip_back(s.subrange(a, b - 1), e),
{
    assert(s.subrange(a, b).drop_last() =~= s.subrange(a, b - 1));
}

/// Where `trimmed(chars, e)` starts and ends.
pub fn trim_bounds(chars: &Vec<char>, e: Edge) -> (r: (usize, usize))
    ensures
        r.0 <= r.1 <= chars@.len(),
        trimmed(chars@, e) == chars@.subrange(r.0 as int, r.1 as int),
        r.0 < r.1 ==> !is_edge(chars@[r.0 as int], e),
{
    let ghost s = chars@;
    let mut a: usize = 0;
    proof {
        assert(s.skip(0) =~= s);
    }
    while a < chars.len() && edge_test(chars[a], e)
        invariant
            s == chars@,
            a <= s.len(),
            strip_front(s, e) == strip_front(s.skip(a as int), e),
        decreases s.len() - a,
    {
        proof {
            lemma_strip_front_skip(s, a as int, e);
        }
        a = a + 1;
    }
    proof {
        assert(s.skip(a as int) =~= s.subrange(a as int, s.len() as int));
    }
    let mut b: usize = chars.len();
    while b > a && edge_test(chars[b - 1], e)
        invariant
            s == chars@,
            a <= b <= s.len(),
            strip_front(s, e) == s.subrange(a as int, s.len() as int),
            trimmed(s, e) == strip_back(s.subrange(a as int, b as int), e),
        decreases b - a,
    {
        proof {
            lemma_strip_back_cut(s, a as int, b as int, e);
        }
        b = b - 1;
    }
    (a, b)
}

/// Reduces a name to what is safe as a URL path segment and a filename at once.
///
/// Lowercase ASCII, digits and `-`. That is stricter than either constraint alone, deliberately: a
/// name has to survive a mount URL, a `.vpl` filename on three filesystems and a JSON key in
/// `style.json`, and the intersection is small enough that guessing at it per platform is not worth
/// the bugs.
pub fn sanitise(name: &str) -> (out: String)
    ensures
        out@ == sanitised(name@),
        out@.len() <= MAX_NAME,
        forall|i: int| 0 <= i < out@.len() ==> name_char(#[trigger] out@[i]),
        out@.len() > 0 ==> out@[0] != '-',
        forall|i: int| 0 < i < out@.len() ==> !(out@[i - 1] == '-' && #[trigger] out@[i] == '-'),
        0 < out@.len() < MAX_NAME ==> out@.last() != '-',
{
    proof {
        lemma_strip_back_ends(strip_front(collapse(trimmed(name@, Edge::White)), Edge::Dash), Edge::Dash);
    }
    let chars = chars_of(name);
    let (a, b) = trim_bounds(&chars, Edge::White);
    let ghost t = chars@.subrange(a as int, b as int);
    let mut raw: Vec<char> = Vec::new();
    let mut i: usize = a;
    while i < b
        invariant
            a <= i <= b <= chars@.len(),
            t == chars@.subrange(a as int, b as int),
            raw@ == collapse(t.take(i - a)),
            forall|j: int| 0 <= j < raw@.len() ==> name_char(#[trigger] raw@[j]),
            forall|j: int| 0 < j < raw@.len() ==> !(raw@[j - 1] == '-' && #[trigger] raw@[j] == '-'),
        decreases b - i,
    {
        let c = chars[i];
        proof {
            assert(t.take(i + 1 - a).drop_last() =~= t.take(i - a));
            assert(t.take(i + 1 - a).last() == c);
        }
        if ascii_alnum(c) {
            raw.push(to_ascii_lower(c));
            proof {
                let lc = crate::text::ascii_lower(c);
                assert(name_char(lc)) by {
                    if 'A' <= c && c <= 'Z' {
                        assert((c as u8) + 32 <= 'z' as u8);
                    }
                }
            }
        } else if raw.len() == 0 || raw[raw.len() - 1] != '-' {
            raw.push('-');
        }
        i = i + 1;
    }
    proof {
        assert(t.take(b - a) =~= t);
    }
    let (c0, c1) = trim_bounds(&raw, Edge::Dash);
    let ghost d = raw@.subrange(c0 as int, c1 as int);
    let end = if c1 - c0 > MAX_NAME {
        c0 + MAX_NAME
    } else {
        c1
    };
    let mut out = String::new();
    let mut k: usize = c0;
    while k < end
        invariant
            c0 <= k <= end <= c1 <= raw@.len(),
            out@ == raw@.subrange(c0 as int, k as int),
        decreases end - k,
    {
        push_char(&mut out, raw[k]);
        k = k + 1;
        proof {
            assert(out@ =~= raw@.subrange(c0 as int, k as int));
        }
    }
    proof {
        if c1 - c0 > MAX_NAME {
            assert(out@ =~= d.take(MAX_NAME as int));
        } else {
            assert(out@ =~= d);
        }
    }
    out
}

// ---------------------------------------------------------------------------------------------
// The name a source suggests
// ---------------------------------------------------------------------------------------------

/// What [`name_for_source`] suggests for `source`.
pub open spec fn source_name(source: Seq<char>) -> Seq<char> {
    match file_name(source) {
        Some(n) => if sanitised(stem(n)).len() > 0 {
            stem(n)
        } else {
            "graph"@
        },
        None => "graph"@,
    }
}

/// The name a source suggests: its filename, without directories or extension.
///
/// One rule for both ways a graph is created - opening a `.vpl`, and importing anything else - so
/// that `berlin.mbtiles` and `berlin.vpl` cannot disagree about what the graph is called.
///
/// Falls back to `graph` when there is no usable stem - a bare directory, or a name that sanitises
/// away to nothing.
pub fn name_for_source(source: &str) -> (name: String)
    ensures
        name@ == source_name(source@),
{
    let chars = chars_of(source);
    let ghost s = chars@;
    let found = file_name_bounds(&chars);
    proof {
        reveal_strlit("graph");
    }
    match found {
        None => owned("graph"),
        Some((start, end)) => {
            let stop = match find_last_dot(&chars, start, end) {
                Some(d) if d > 0 => start + d,
                _ => end,
            };
            let st = string_between(&chars, start, stop);
            proof {
                let n = s.subrange(start as int, end as int);
                if stop < end {
                    assert(st@ =~= n.take(stop - start));
                }
            }
            let cleaned = sanitise(st.as_str());
            if cleaned.as_str().is_empty() {
                owned("graph")
            } else {
                st
            }
        },
    }
}


// ---------------------------------------------------------------------------------------------
// The set of graphs
// ---------------------------------------------------------------------------------------------

/// `base` followed by `-n`.
pub open spec fn suffixed(base: Seq<char>, n: nat) -> Seq<char> {
    base + seq!['-'] + decimal(n)
}

/// The first of `base-n`, `base-(n+1)` … `base-last` that `names` does not hold; `base` itself when
/// every one of them is taken (which [`lemma_unique_is_free`] shows cannot happen for the range
/// [`unique_name`] searches).
pub open spec fn free_from(names: Seq<Seq<char>>, base: Seq<char>, n: nat, last: nat) -> Seq<char>
    decreases last - n + 1,
{
    if n > last {
        base
    } else if !names.contains(suffixed(base, n)) {
        suffixed(base, n)
    } else {
        free_from(names, base, n + 1, last)
    }
}

/// What a graph wanting the name `wanted` is called among `names`: `graph` for a name that is
/// empty, the name itself while it is free, and otherwise the first free one of `-2`, `-3` … after
/// it.
pub open spec fn unique_name(names: Seq<Seq<char>>, wanted: Seq<char>) -> Seq<char> {
    let base = if wanted.len() == 0 { seq!['g', 'r', 'a', 'p', 'h'] } else { wanted };
    if !names.contains(base) {
        base
    } else {
        free_from(names, base, 2, names.len() + 2)
    }
}

proof fn lemma_digit_injective(a: nat, b: nat)
    requires
        a < 10,
        b < 10,
        digit(a) == digit(b),
    ensures
        a == b,
{
}

proof fn lemma_decimal_len(n: nat)
    ensures
        decimal(n).len() >= 1,
        n < 10 <==> decimal(n).len() == 1,
    decreases n,
{
    if n >= 10 {
        lemma_decimal_len(n / 10);
    }
}

/// Two numbers are written alike only when they are one number.
proof fn lemma_decimal_injective(a: nat, b: nat)
    requires
        decimal(a) == decimal(b),
    ensures
        a == b,
    decreases a + b,
{
    lemma_decimal_len(a);
    lemma_decimal_len(b);
    if a < 10 && b < 10 {
        assert(decimal(a)[0] == digit(a));
        assert(decimal(b)[0] == digit(b));
        lemma_digit_injective(a, b);
    } else if a >= 10 && b >= 10 {
        assert(decimal(a).last() == digit(a % 10));
        assert(decimal(b).last() == digit(b % 10));
        lemma_digit_injective(a % 10, b % 10);
        assert(decimal(a).drop_last() =~= decimal(a / 10));
        assert(decimal(b).drop_last() =~= decimal(b / 10));
        lemma_decimal_injective(a / 10, b / 10);
    }
}

proof fn lemma_suffixed_injective(base: Seq<char>, a: nat, b: nat)
    requires
        suffixed(base, a) == suffixed(base, b),
    ensures
        a == b,
{
    let k = base.len() as int + 1;
    assert(suffixed(base, a).skip(k) =~= decimal(a));
    assert(suffixed(base, b).skip(k) =~= decimal(b));
    lemma_decimal_injective(a, b);
}

/// When [`free_from`] falls back, every name it tried was taken.
proof fn lemma_free_from_fallback(names: Seq<Seq<char>>, base: Seq<char>, n: nat, last: nat, m: nat)
    requires
        free_from(names, base, n, last) == base,
        n <= m <= last,
    ensures
        names.contains(suffixed(base, m)),
    decreases last - n + 1,
{
    lemma_suffix_is_not_base(base, n);
    if n < m {
        lemma_free_from_fallback(names, base, n + 1, last, m);
    }
}

proof fn lemma_suffix_is_not_base(base: Seq<char>, n: nat)
    ensures
        suffixed(base, n) != base,
{
    lemma_decimal_len(n);
    assert(suffixed(base, n).len() > base.len());
}

/// The name [`unique_name`] picks is never one of `names`: among `names.len() + 1` distinct
/// candidates at least one is free.
pub proof fn lemma_unique_is_free(names: Seq<Seq<char>>, wanted: Seq<char>)
    ensures
        !names.contains(unique_name(names, wanted)),
{
    let base = if wanted.len() == 0 { seq!['g', 'r', 'a', 'p', 'h'] } else { wanted };
    if names.contains(base) {
        let last = (names.len() + 2) as nat;
        let found = free_from(names, base, 2, last);
        lemma_free_from_in(names, base, 2, last);
        if found == base {
            let f = |i: int| suffixed(base, i as nat);
            let range = set_int_range(2, last as int + 1);
            lemma_int_range(2, last as int + 1);
            assert(vstd::relations::injective_on(f, range)) by {
                assert forall|x: int, y: int| range.contains(x) && range.contains(y) && #[trigger] f(x) == #[trigger] f(y)
                    implies x == y by {
                    lemma_suffixed_injective(base, x as nat, y as nat);
                }
            }
            let image = range.map(f);
            lemma_map_size(range, image, f);
            assert(image.subset_of(names.to_set())) by {
                assert forall|s: Seq<char>| image.contains(s) implies names.to_set().contains(s) by {
                    let i = choose|i: int| range.contains(i) && f(i) == s;
                    lemma_free_from_fallback(names, base, 2, last, i as nat);
                }
            }
            names.lemma_cardinality_of_set();
            lemma_len_subset(image, names.to_set());
            assert(false);
        }
    }
}

/// What [`free_from`] returns is `base` or a name `names` lacks.
proof fn lemma_free_from_in(names: Seq<Seq<char>>, base: Seq<char>, n: nat, last: nat)
    ensures
        free_from(names, base, n, last) == base || !names.contains(free_from(names, base, n, last)),
    decreases last - n + 1,
{
    if n <= last && names.contains(suffixed(base, n)) {
        lemma_free_from_in(names, base, n + 1, last);
    }
}

proof fn lemma_name_chars_are_bytes(s: Seq<char>)
    requires
        forall|i: int| 0 <= i < s.len() ==> name_char(#[trigger] s[i]),
    ensures
        crate::text::utf8_len(s) == s.len(),
    decreases s.len(),
{
    if s.len() > 0 {
        assert(name_char(s[s.len() - 1]));
        lemma_name_chars_are_bytes(s.drop_last());
    }
}

/// One graph: a VPL document, what it is called, and where it came from.
#[derive(Debug)]
pub struct Graph {
    pub id: GraphId,
    pub name: String,
    pub document: Document,
    /// The path of the `.vpl` it was last saved to and the text saved there, so "is there anything
    /// to save" is answered by comparison rather than by a flag someone has to remember to set.
    pub file: Option<(String, String)>,
}

/// What the webview is told about a graph.
#[derive(Debug, Clone)]
pub struct GraphInfo {
    pub id: GraphId,
    pub name: String,
    /// The `.vpl` this came from, if any, so Save has somewhere to write without asking.
    pub path: Option<String>,
    /// Whether the document differs from what was last saved.
    pub dirty: bool,
}

pub ghost struct GraphInfoM {
    pub id: GraphId,
    pub name: Seq<char>,
    pub path: Option<Seq<char>>,
    pub dirty: bool,
}

impl View for GraphInfo {
    type V = GraphInfoM;

    open spec fn view(&self) -> GraphInfoM {
        GraphInfoM {
            id: self.id,
            name: self.name@,
            path: match self.path {
                Some(p) => Some(p@),
                None => None,
            },
            dirty: self.dirty,
        }
    }
}

/// What [`Graph::info`] says of `g`: dirty when nothing was saved, or the text differs from what was.
pub open spec fn info_of(g: Graph) -> GraphInfoM {
    GraphInfoM {
        id: g.id,
        name: g.name@,
        path: match g.file {
            Some((path, _)) => Some(path@),
            None => None,
        },
        dirty: match g.file {
            Some((_, saved)) => saved@ != g.document@.text,
            None => true,
        },
    }
}

impl Graph {
    pub fn info(&self) -> (r: GraphInfo)
        ensures
            r@ == info_of(*self),
    {
        let (path, dirty) = match &self.file {
            Some((path, saved)) => (Some(path.clone()), !crate::text::same_text(saved.as_str(), self.document.text())),
            None => (None, true),
        };
        GraphInfo { id: self.id, name: self.name.clone(), path, dirty }
    }
}

/// The names of `gs`, in order.
pub open spec fn names_of(gs: Seq<Graph>) -> Seq<Seq<char>> {
    gs.map_values(|g: Graph| g.name@)
}

/// Whether `g` is not the graph `except` names.
pub open spec fn other_than(g: Graph, except: Option<GraphId>) -> bool {
    match except {
        Some(e) => g.id != e,
        None => true,
    }
}

/// Whether a graph of `gs` other than `except` is called `name`.
pub open spec fn held_by_other(gs: Seq<Graph>, name: Seq<char>, except: Option<GraphId>) -> bool {
    exists|i: int| 0 <= i < gs.len() && #[trigger] other_than(gs[i], except) && gs[i].name@ == name
}

proof fn lemma_names_of_contains(gs: Seq<Graph>, n: Seq<char>)
    ensures
        names_of(gs).contains(n) == held_by_other(gs, n, None),
{
    if names_of(gs).contains(n) {
        let i = choose|i: int| 0 <= i < names_of(gs).len() && names_of(gs)[i] == n;
        assert(other_than(gs[i], None));
    }
    if held_by_other(gs, n, None) {
        let i = choose|i: int| 0 <= i < gs.len() && #[trigger] other_than(gs[i], None) && gs[i].name@ == n;
        assert(names_of(gs)[i] == n);
    }
}

/// The index of the first graph of `gs` with id `id`.
pub open spec fn find_id(gs: Seq<Graph>, id: GraphId) -> Option<int> {
    if exists|i: int| 0 <= i < gs.len() && (#[trigger] gs[i]).id == id {
        Some(choose|i: int| 0 <= i < gs.len() && (#[trigger] gs[i]).id == id && forall|j: int| 0 <= j < i ==> gs[j].id != id)
    } else {
        None
    }
}

/// The index of the first graph of `gs` called `name`.
pub open spec fn find_name(gs: Seq<Graph>, name: Seq<char>) -> Option<int> {
    if exists|i: int| 0 <= i < gs.len() && (#[trigger] gs[i]).name@ == name {
        Some(choose|i: int| 0 <= i < gs.len() && (#[trigger] gs[i]).name@ == name && forall|j: int| 0 <= j < i ==> gs[j].name@ != name)
    } else {
        None
    }
}

/// Why a rename was refused.
#[derive(Debug, Clone, PartialEq, Eq)]
pub enum GraphError {
    /// The name sanitises to nothing.
    Unnamed,
    /// The name is longer than [`MAX_NAME`].
    TooLong,
    /// Another graph already has this name.
    Taken(String),
    /// No graph has this id.
    Missing,
}

/// What to tell the person whose rename was refused for `e`.
pub open spec fn error_text(e: GraphError) -> Seq<char> {
    match e {
        GraphError::Unnamed => "a graph needs a name"@,
        GraphError::TooLong => "a graph name may be at most 64 characters"@,
        GraphError::Taken(name) => "another graph is already called '"@ + name@ + "'"@,
        GraphError::Missing => "no such graph"@,
    }
}

impl GraphError {
    /// What to tell the person who asked; see [`error_text`].
    pub fn message(&self) -> (m: String)
        ensures
            m@ == error_text(*self),
    {
        match self {
            GraphError::Unnamed => owned("a graph needs a name"),
            GraphError::TooLong => owned("a graph name may be at most 64 characters"),
            GraphError::Taken(name) => {
                let mut m = owned("another graph is already called '");
                crate::text::push_str(&mut m, name.as_str());
                crate::text::push_str(&mut m, "'");
                m
            },
            GraphError::Missing => owned("no such graph"),
        }
    }
}

/// Every graph in the project, in the order they are shown.
#[derive(Debug)]
pub struct Graphs {
    graphs: Vec<Graph>,
    next_id: GraphId,
}

impl Graphs {
    /// The graphs, in order.
    pub closed spec fn all(&self) -> Seq<Graph> {
        self.graphs@
    }

    /// The last id handed out; the next is one more.
    pub closed spec fn last_id(&self) -> GraphId {
        self.next_id
    }

    /// Ids ascend and none is above the last handed out; no two graphs share a name.
    pub closed spec fn wf(&self) -> bool {
        &&& forall|i: int, j: int| 0 <= i < j < self.graphs@.len() ==> self.graphs@[i].id < self.graphs@[j].id
        &&& forall|i: int| 0 <= i < self.graphs@.len() ==> (#[trigger] self.graphs@[i]).id <= self.next_id
        &&& forall|i: int| 0 <= i < self.graphs@.len() ==> (#[trigger] self.graphs@[i]).id > i
        &&& forall|i: int, j: int| 0 <= i < j < self.graphs@.len() ==> self.graphs@[i].name@ != self.graphs@[j].name@
    }

    pub fn new() -> (r: Graphs)
        ensures
            r.wf(),
            r.all().len() == 0,
            r.last_id() == 0,
    {
        Graphs { graphs: Vec::new(), next_id: 0 }
    }

    pub fn is_empty(&self) -> (b: bool)
        ensures
            b == (self.all().len() == 0),
    {
        self.graphs.len() == 0
    }

    /// What the webview is told about each graph, in order.
    pub fn list(&self) -> (r: Vec<GraphInfo>)
        ensures
            r@.len() == self.all().len(),
            forall|i: int| 0 <= i < r@.len() ==> (#[trigger] r@[i])@ == info_of(self.all()[i]),
    {
        let mut out: Vec<GraphInfo> = Vec::new();
        let mut i: usize = 0;
        while i < self.graphs.len()
            invariant
                i <= self.graphs@.len(),
                out@.len() == i,
                forall|k: int| 0 <= k < i ==> (#[trigger] out@[k])@ == info_of(self.graphs@[k]),
            decreases self.graphs@.len() - i,
        {
            out.push(self.graphs[i].info());
            i = i + 1;
        }
        out
    }

    fn position(&self, id: GraphId) -> (r: Option<usize>)
        ensures
            match find_id(self.all(), id) {
                None => r is None,
                Some(i) => r matches Some(x) && x == i,
            },
            r matches Some(x) ==> x < self.all().len(),
    {
        let mut i: usize = 0;
        while i < self.graphs.len()
            invariant
                i <= self.graphs@.len(),
                forall|j: int| 0 <= j < i ==> self.graphs@[j].id != id,
            decreases self.graphs@.len() - i,
        {
            if self.graphs[i].id == id {
                proof {
                    assert(self.graphs@[i as int].id == id);
                    let k = choose|k: int| 0 <= k < self.graphs@.len() && (#[trigger] self.graphs@[k]).id == id
                        && forall|j: int| 0 <= j < k ==> self.graphs@[j].id != id;
                    assert(k == i);
                }
                return Some(i);
            }
            i = i + 1;
        }
        None
    }

    /// The graph with id `id`.
    pub fn get(&self, id: GraphId) -> (r: Option<&Graph>)
        ensures
            match find_id(self.all(), id) {
                None => r is None,
                Some(i) => r matches Some(g) && *g == self.all()[i],
            },
    {
        match self.position(id) {
            None => None,
            Some(i) => Some(&self.graphs[i]),
        }
    }

    /// The graph called `name`.
    pub fn by_name(&self, name: &str) -> (r: Option<&Graph>)
        ensures
            match find_name(self.all(), name@) {
                None => r is None,
                Some(i) => r matches Some(g) && *g == self.all()[i],
            },
    {
        let mut i: usize = 0;
        while i < self.graphs.len()
            invariant
                i <= self.graphs@.len(),
                forall|j: int| 0 <= j < i ==> self.graphs@[j].name@ != name@,
            decreases self.graphs@.len() - i,
        {
            if crate::text::same_text(self.graphs[i].name.as_str(), name) {
                proof {
                    assert(self.graphs@[i as int].name@ == name@);
                    let k = choose|k: int| 0 <= k < self.graphs@.len() && (#[trigger] self.graphs@[k]).name@ == name@
                        && forall|j: int| 0 <= j < k ==> self.graphs@[j].name@ != name@;
                    assert(k == i);
                }
                return Some(&self.graphs[i]);
            }
            i = i + 1;
        }
        None
    }

    /// Whether a graph other than `except` is called `name`.
    fn taken(&self, name: &str, except: Option<GraphId>) -> (b: bool)
        ensures
            b == held_by_other(self.all(), name@, except),
    {
        let mut i: usize = 0;
        while i < self.graphs.len()
            invariant
                i <= self.graphs@.len(),
                forall|j: int| 0 <= j < i ==> !(#[trigger] other_than(self.graphs@[j], except) && self.graphs@[j].name@ == name@),
            decreases self.graphs@.len() - i,
        {
            let other = match except {
                Some(e) => self.graphs[i].id != e,
                None => true,
            };
            if other && crate::text::same_text(self.graphs[i].name.as_str(), name) {
                proof {
                    assert(other_than(self.graphs@[i as int], except) && self.graphs@[i as int].name@ == name@);
                }
                return true;
            }
            i = i + 1;
        }
        false
    }

    /// The name [`unique_name`] picks against every graph here.
    fn unique(&self, wanted: &str) -> (r: String)
        requires
            self.all().len() <= u32::MAX,
        ensures
            r@ == unique_name(names_of(self.all()), wanted@),
    {
        let ghost names = names_of(self.all());
        proof {
            reveal_strlit("graph");
        }
        let base = if wanted.is_empty() { owned("graph") } else { owned(wanted) };
        proof {
            assert(base@ == (if wanted@.len() == 0 { seq!['g', 'r', 'a', 'p', 'h'] } else { wanted@ }));
            lemma_names_of_contains(self.all(), base@);
        }
        if !self.taken(base.as_str(), None) {
            return base;
        }
        let last: u64 = self.graphs.len() as u64 + 2;
        let mut n: u64 = 2;
        while n <= last
            invariant
                2 <= n <= last + 1,
                last == names.len() + 2,
                last <= u32::MAX + 2,
                names == names_of(self.all()),
                base@ == (if wanted@.len() == 0 { seq!['g', 'r', 'a', 'p', 'h'] } else { wanted@ }),
                names.contains(base@),
                free_from(names, base@, 2, last as nat) == free_from(names, base@, n as nat, last as nat),
            decreases last + 1 - n,
        {
            let mut candidate = owned(base.as_str());
            crate::text::push_str(&mut candidate, "-");
            crate::server::push_decimal_wide(&mut candidate, n);
            proof {
                reveal_strlit("-");
                assert(candidate@ =~= suffixed(base@, n as nat));
                lemma_names_of_contains(self.all(), candidate@);
            }
            if !self.taken(candidate.as_str(), None) {
                return candidate;
            }
            n = n + 1;
        }
        base
    }

    /// Adds a graph, its name made unique against the ones already here; returns its id.
    ///
    /// The suggested name is a suggestion: two GeoJSONs called `places.geojson` in different folders
    /// both want to be `places`, and the second becoming `places-2` is better than a refusal or a
    /// silent overwrite of the first.
    pub fn add(&mut self, suggested: &str, document: Document, file: Option<(String, String)>) -> (id: GraphId)
        requires
            old(self).wf(),
            old(self).last_id() < GraphId::MAX,
        ensures
            final(self).wf(),
            id == old(self).last_id() + 1,
            final(self).last_id() == id,
            final(self).all().len() == old(self).all().len() + 1,
            final(self).all().drop_last() == old(self).all(),
            final(self).all().last().id == id,
            final(self).all().last().name@ == unique_name(names_of(old(self).all()), sanitised(suggested@)),
            final(self).all().last().document == document,
            final(self).all().last().file == file,
    {
        let id = self.next_id + 1;
        let cleaned = sanitise(suggested);
        proof {
            if self.graphs@.len() > 0 {
                assert(self.graphs@[self.graphs@.len() - 1].id > self.graphs@.len() - 1);
            }
        }
        let name = self.unique(cleaned.as_str());
        proof {
            if self.graphs@.len() > 0 {
                assert(self.graphs@[self.graphs@.len() - 1].id > self.graphs@.len() - 1);
            }
            lemma_unique_is_free(names_of(self.all()), cleaned@);
            assert forall|i: int| 0 <= i < self.graphs@.len() implies (#[trigger] self.graphs@[i]).name@ != name@ by {
                assert(names_of(self.all())[i] == self.graphs@[i].name@);
            }
        }
        self.next_id = id;
        self.graphs.push(Graph { id, name, document, file });
        proof {
            assert(self.all().drop_last() =~= old(self).all());
        }
        id
    }

    /// Removes the graph with id `id`; whether there was one. Its id is never handed out again.
    pub fn remove(&mut self, id: GraphId) -> (removed: bool)
        requires
            old(self).wf(),
        ensures
            final(self).wf(),
            final(self).last_id() == old(self).last_id(),
            match find_id(old(self).all(), id) {
                None => !removed && final(self).all() == old(self).all(),
                Some(i) => removed && final(self).all() == old(self).all().remove(i),
            },
    {
        match self.position(id) {
            None => false,
            Some(i) => {
                let _gone = self.graphs.remove(i);
                true
            },
        }
    }

    /// Replaces the document of the graph with id `id`; whether there was one.
    pub fn set_document(&mut self, id: GraphId, document: Document) -> (found: bool)
        requires
            old(self).wf(),
        ensures
            final(self).wf(),
            final(self).last_id() == old(self).last_id(),
            match find_id(old(self).all(), id) {
                None => !found && final(self).all() == old(self).all(),
                Some(i) => found && final(self).all().len() == old(self).all().len()
                    && (forall|j: int| 0 <= j < old(self).all().len() && j != i ==> final(self).all()[j] == old(self).all()[j])
                    && final(self).all()[i].id == old(self).all()[i].id
                    && final(self).all()[i].name == old(self).all()[i].name
                    && final(self).all()[i].file == old(self).all()[i].file
                    && final(self).all()[i].document == document,
            },
    {
        match self.position(id) {
            None => false,
            Some(i) => {
                let mut g = self.graphs.remove(i);
                g.document = document;
                self.graphs.insert(i, g);
                proof {
                    assert forall|j: int| 0 <= j < self.graphs@.len() && j != i implies self.graphs@[j] == old(self).graphs@[j] by {}
                }
                true
            },
        }
    }

    /// Renames a graph, and reports the name it actually took: `name` as [`sanitise`] cleans it.
    ///
    /// **Refused rather than adjusted.** Unlike [`add`](Self::add), where a suggestion comes from a
    /// filename nobody chose, a rename is something a person typed: silently turning `basemap` into
    /// `basemap-2` because the name is taken is a worse answer than saying so.
    pub fn rename(&mut self, id: GraphId, name: &str) -> (r: Result<String, GraphError>)
        requires
            old(self).wf(),
        ensures
            final(self).wf(),
            final(self).last_id() == old(self).last_id(),
            ({
                let cleaned = sanitised(name@);
                if cleaned.len() == 0 {
                    r == Err::<String, GraphError>(GraphError::Unnamed) && final(self).all() == old(self).all()
                } else if held_by_other(old(self).all(), cleaned, Some(id)) {
                    r matches Err(GraphError::Taken(t)) && t@ == cleaned && final(self).all() == old(self).all()
                } else {
                    match find_id(old(self).all(), id) {
                        None => r == Err::<String, GraphError>(GraphError::Missing) && final(self).all() == old(self).all(),
                        Some(i) => r matches Ok(t) && t@ == cleaned
                            && final(self).all().len() == old(self).all().len()
                            && (forall|j: int| 0 <= j < old(self).all().len() && j != i ==> final(self).all()[j] == old(self).all()[j])
                            && final(self).all()[i].id == old(self).all()[i].id
                            && final(self).all()[i].name@ == cleaned
                            && final(self).all()[i].document == old(self).all()[i].document
                            && final(self).all()[i].file == old(self).all()[i].file,
                    }
                }
            }),
    {
        let cleaned = sanitise(name);
        if cleaned.as_str().is_empty() {
            return Err(GraphError::Unnamed);
        }
        proof {
            lemma_name_chars_are_bytes(cleaned@);
        }
        if crate::text::utf8_length(cleaned.as_str()) > MAX_NAME {
            return Err(GraphError::TooLong);
        }
        if self.taken(cleaned.as_str(), Some(id)) {
            return Err(GraphError::Taken(cleaned));
        }
        match self.position(id) {
            None => Err(GraphError::Missing),
            Some(i) => {
                let mut g = self.graphs.remove(i);
                g.name = owned(cleaned.as_str());
                self.graphs.insert(i, g);
                proof {
                    assert forall|j: int| 0 <= j < self.graphs@.len() && j != i implies self.graphs@[j] == old(self).graphs@[j] by {}
                    assert forall|j: int| 0 <= j < self.graphs@.len() && j != i implies self.graphs@[j].name@ != cleaned@ by {
                        if self.graphs@[j].name@ == cleaned@ {
                            assert(other_than(old(self).graphs@[j], Some(id)));
                        }
                    }
                }
                Ok(cleaned)
            },
        }
    }
}


/// Ids are never handed out twice: the id the next [`Graphs::add`] hands out is above every id a
/// graph here has, and, since removing keeps the last id, above every id a removed graph had.
pub proof fn lemma_the_next_id_is_fresh(g: Graphs)
    requires
        g.wf(),
    ensures
        forall|i: int| 0 <= i < g.all().len() ==> (#[trigger] g.all()[i]).id < g.last_id() + 1,
{
}

/// No two graphs share a name, whatever has been added, renamed or removed.
pub proof fn lemma_names_are_distinct(g: Graphs)
    requires
        g.wf(),
    ensures
        forall|i: int, j: int| 0 <= i < j < g.all().len() ==> g.all()[i].name@ != g.all()[j].name@,
{
}

} // verus!
