//! The syntax tree: every part of it knows where it came from.
//!
//! Each type has a model beside it (`…M`), the same shape with `Seq<char>` where the tree holds a
//! `String` and `Seq` where it holds a `Vec`. Contracts speak of the models; `@` gives a value's model.

use vstd::prelude::*;
use crate::text::same_text;

verus! {

/// A byte range in the document, `start..end`.
///
/// Byte offsets rather than character indices because that is what text editors, `str` slicing and
/// LSP-shaped protocols all speak.
#[derive(Debug, Clone, Copy, PartialEq, Eq, Structural)]
pub struct Span {
    pub start: usize,
    pub end: usize,
}

impl Span {
    pub fn new(start: usize, end: usize) -> (s: Span)
        ensures
            s == (Span { start, end }),
    {
        Span { start, end }
    }

    /// The number of bytes covered.
    pub fn len(&self) -> (n: usize)
        requires
            self.start <= self.end,
        ensures
            n == self.end - self.start,
    {
        self.end - self.start
    }

    pub fn is_empty(&self) -> (b: bool)
        ensures
            b == (self.start == self.end),
    {
        self.start == self.end
    }

    /// Whether `offset` falls inside the span, counting the end as inside.
    ///
    /// Inclusive at the end because a caret sitting just after a token is still "in" it as far as a
    /// user is concerned.
    pub fn contains(&self, offset: usize) -> (b: bool)
        ensures
            b == (self.start <= offset && offset <= self.end),
    {
        self.start <= offset && offset <= self.end
    }
}

/// How a string was written. Preserved so a round trip does not silently re-quote the author.
#[derive(Debug, Clone, Copy, PartialEq, Eq, Structural)]
pub enum Quote {
    /// Bare, e.g. `mvt` or `13.4`.
    Bare,
    /// `'…'` - no escape processing.
    Single,
    /// `"…"` - `\\`, `\"`, `\n` and `\t` are unescaped.
    Double,
}

/// One string literal: what it means, how it was written, and where it sits.
#[derive(Debug)]
pub struct Str {
    /// The decoded value - escapes resolved, quotes removed.
    pub value: String,
    pub quote: Quote,
    /// Covers the quotes, where there are any.
    pub span: Span,
}

/// A parameter value: one string, or a bracketed list of them.
#[derive(Debug)]
pub enum Value {
    Single(Str),
    Array { items: Vec<Str>, span: Span },
}

/// One `key=value` pair.
#[derive(Debug)]
pub struct Property {
    pub key: String,
    pub key_span: Span,
    pub value: Value,
    /// `key` through the end of the value.
    pub span: Span,
}

/// One operation, its parameters, and any nested pipelines feeding it.
#[derive(Debug)]
pub struct Node {
    pub name: String,
    pub name_span: Span,
    /// In source order, with duplicates kept.
    pub properties: Vec<Property>,
    /// Nested pipelines from the `[…]` block, if there is one.
    pub sources: Vec<Pipeline>,
    /// The `[…]` block itself, brackets included.
    pub sources_span: Option<Span>,
    /// Name through the end of the sources block.
    pub span: Span,
}

/// A chain of nodes, `a | b | c`.
#[derive(Debug)]
pub struct Pipeline {
    pub nodes: Vec<Node>,
    pub span: Span,
}

/// A `# …` comment: discarded by the pipeline runner, kept here.
#[derive(Debug)]
pub struct Comment {
    /// The text after `#`, up to but not including the newline.
    pub text: String,
    /// Covers the `#`.
    pub span: Span,
}

/// A position a human can act on.
#[derive(Debug, Clone, Copy, PartialEq, Eq, Structural)]
pub struct LineCol {
    /// 1-based, as every editor counts them.
    pub line: usize,
    /// 1-based, counted in characters rather than bytes.
    pub column: usize,
}

// ---------------------------------------------------------------------------------------------
// Models
// ---------------------------------------------------------------------------------------------

pub ghost struct StrM {
    pub value: Seq<char>,
    pub quote: Quote,
    pub span: Span,
}

pub ghost enum ValueM {
    Single(StrM),
    Array { items: Seq<StrM>, span: Span },
}

pub ghost struct PropertyM {
    pub key: Seq<char>,
    pub key_span: Span,
    pub value: ValueM,
    pub span: Span,
}

pub ghost struct NodeM {
    pub name: Seq<char>,
    pub name_span: Span,
    pub properties: Seq<PropertyM>,
    pub sources: Seq<PipelineM>,
    pub sources_span: Option<Span>,
    pub span: Span,
}

pub ghost struct PipelineM {
    pub nodes: Seq<NodeM>,
    pub span: Span,
}

pub ghost struct CommentM {
    pub text: Seq<char>,
    pub span: Span,
}

impl View for Str {
    type V = StrM;

    open spec fn view(&self) -> StrM {
        StrM { value: self.value@, quote: self.quote, span: self.span }
    }
}

pub open spec fn strs_model(items: Seq<Str>) -> Seq<StrM> {
    items.map_values(|s: Str| s@)
}

impl View for Value {
    type V = ValueM;

    open spec fn view(&self) -> ValueM {
        match self {
            Value::Single(s) => ValueM::Single(s@),
            Value::Array { items, span } => ValueM::Array { items: strs_model(items@), span: *span },
        }
    }
}

impl View for Property {
    type V = PropertyM;

    open spec fn view(&self) -> PropertyM {
        PropertyM { key: self.key@, key_span: self.key_span, value: self.value@, span: self.span }
    }
}

pub open spec fn properties_model(props: Seq<Property>) -> Seq<PropertyM> {
    props.map_values(|p: Property| p@)
}

impl View for Comment {
    type V = CommentM;

    open spec fn view(&self) -> CommentM {
        CommentM { text: self.text@, span: self.span }
    }
}

pub open spec fn comments_model(cs: Seq<Comment>) -> Seq<CommentM> {
    cs.map_values(|c: Comment| c@)
}

pub open spec fn node_model(n: Node) -> NodeM
    decreases n,
{
    NodeM {
        name: n.name@,
        name_span: n.name_span,
        properties: properties_model(n.properties@),
        sources: Seq::new(
            n.sources@.len(),
            |i: int|
                if 0 <= i < n.sources@.len() {
                    pipeline_model(n.sources@[i])
                } else {
                    arbitrary()
                },
        ),
        sources_span: n.sources_span,
        span: n.span,
    }
}

pub open spec fn pipeline_model(p: Pipeline) -> PipelineM
    decreases p,
{
    PipelineM {
        nodes: Seq::new(
            p.nodes@.len(),
            |i: int|
                if 0 <= i < p.nodes@.len() {
                    node_model(p.nodes@[i])
                } else {
                    arbitrary()
                },
        ),
        span: p.span,
    }
}

/// The models of a list of pipelines, as a node's model holds them.
pub open spec fn pipes_model(ps: Seq<Pipeline>) -> Seq<PipelineM> {
    Seq::new(ps.len(), |i: int| if 0 <= i < ps.len() { pipeline_model(ps[i]) } else { arbitrary() })
}

/// The models of a list of nodes, as a pipeline's model holds them.
pub open spec fn nodes_model(ns: Seq<Node>) -> Seq<NodeM> {
    Seq::new(ns.len(), |i: int| if 0 <= i < ns.len() { node_model(ns[i]) } else { arbitrary() })
}

pub proof fn lemma_node_model(n: Node)
    ensures
        n@.sources == pipes_model(n.sources@),
        n@.properties == properties_model(n.properties@),
        n@.name == n.name@,
        n@.name_span == n.name_span,
        n@.sources_span == n.sources_span,
        n@.span == n.span,
{
    assert(n@.sources =~= pipes_model(n.sources@));
}

pub proof fn lemma_pipeline_model(p: Pipeline)
    ensures
        p@.nodes == nodes_model(p.nodes@),
        p@.span == p.span,
{
    assert(p@.nodes =~= nodes_model(p.nodes@));
}

impl View for Node {
    type V = NodeM;

    open spec fn view(&self) -> NodeM {
        node_model(*self)
    }
}

impl View for Pipeline {
    type V = PipelineM;

    open spec fn view(&self) -> PipelineM {
        pipeline_model(*self)
    }
}

// ---------------------------------------------------------------------------------------------
// Reading the tree
// ---------------------------------------------------------------------------------------------

impl ValueM {
    /// The whole value, brackets included for an array.
    pub open spec fn span(self) -> Span {
        match self {
            ValueM::Single(s) => s.span,
            ValueM::Array { span, .. } => span,
        }
    }

    /// The strings it holds, in order.
    pub open spec fn strings(self) -> Seq<Seq<char>> {
        match self {
            ValueM::Single(s) => seq![s.value],
            ValueM::Array { items, .. } => items.map_values(|s: StrM| s.value),
        }
    }
}

/// What a list of strings says.
pub open spec fn texts(v: Seq<String>) -> Seq<Seq<char>> {
    v.map_values(|s: String| s@)
}

/// Every value recorded for `key` among `props`, in source order, repeats concatenated.
pub open spec fn values_for(props: Seq<PropertyM>, key: Seq<char>) -> Seq<Seq<char>>
    decreases props.len(),
{
    if props.len() == 0 {
        seq![]
    } else {
        values_for(props.drop_last(), key) + if props.last().key == key {
            props.last().value.strings()
        } else {
            seq![]
        }
    }
}

impl Value {
    pub fn span(&self) -> (s: Span)
        ensures
            s == self@.span(),
    {
        match self {
            Value::Single(s) => s.span,
            Value::Array { span, .. } => *span,
        }
    }

    /// The values, flattened: the shape the pipeline runner wants.
    pub fn strings(&self) -> (r: Vec<String>)
        ensures
            texts(r@) == self@.strings(),
    {
        match self {
            Value::Single(s) => {
                let mut out: Vec<String> = Vec::new();
                out.push(s.value.clone());
                proof {
                    assert(texts(out@) =~= seq![s.value@]);
                }
                out
            },
            Value::Array { items, .. } => {
                let mut out: Vec<String> = Vec::new();
                let mut i: usize = 0;
                while i < items.len()
                    invariant
                        i <= items@.len(),
                        texts(out@) == strs_model(items@).take(i as int).map_values(|s: StrM| s.value),
                    decreases items@.len() - i,
                {
                    let v = items[i].value.clone();
                    let ghost prior = out@;
                    out.push(v);
                    proof {
                        assert(strs_model(items@)[i as int].value == v@);
                        assert(texts(out@) =~= texts(prior).push(v@));
                    }
                    i = i + 1;
                    proof {
                        assert(texts(out@) =~= strs_model(items@).take(i as int).map_values(|s: StrM| s.value));
                    }
                }
                proof {
                    assert(strs_model(items@).take(i as int) =~= strs_model(items@));
                }
                out
            },
        }
    }
}

impl Node {
    /// Every value recorded for `key`, in source order.
    ///
    /// Repeats are concatenated rather than overriding, as the pipeline runner does when it folds
    /// the parameter list into its map: `a=1 a=2` means `[1, 2]`, not `2`.
    pub fn property(&self, key: &str) -> (r: Vec<String>)
        ensures
            texts(r@) == values_for(self@.properties, key@),
    {
        let ghost props = properties_model(self.properties@);
        let mut out: Vec<String> = Vec::new();
        let mut i: usize = 0;
        while i < self.properties.len()
            invariant
                i <= self.properties@.len(),
                props == properties_model(self.properties@),
                texts(out@) == values_for(props.take(i as int), key@),
            decreases self.properties@.len() - i,
        {
            let p = &self.properties[i];
            let ghost before = out@;
            if same_text(p.key.as_str(), key) {
                let vs = p.value.strings();
                let mut j: usize = 0;
                while j < vs.len()
                    invariant
                        j <= vs@.len(),
                        texts(out@) == texts(before) + texts(vs@).take(j as int),
                    decreases vs@.len() - j,
                {
                    let v = vs[j].clone();
                    let ghost prior = out@;
                    out.push(v);
                    proof {
                        assert(texts(vs@)[j as int] == v@);
                        assert(texts(out@) =~= texts(prior).push(v@));
                        assert(texts(vs@).take(j + 1) =~= texts(vs@).take(j as int).push(v@));
                    }
                    j = j + 1;
                    proof {
                        assert(texts(out@) =~= texts(before) + texts(vs@).take(j as int));
                    }
                }
                proof {
                    assert(texts(vs@).take(j as int) =~= texts(vs@));
                }
            } else {
                proof {
                    assert(texts(out@) =~= texts(before) + Seq::<Seq<char>>::empty());
                }
            }
            proof {
                assert(props.take(i + 1).drop_last() =~= props.take(i as int));
            }
            i = i + 1;
        }
        proof {
            assert(props.take(i as int) =~= props);
        }
        out
    }
}

// ---------------------------------------------------------------------------------------------
// Finding a node by offset, and again by path
// ---------------------------------------------------------------------------------------------

/// The innermost node of `n` whose span holds `off`, with the path that reaches it: nested
/// pipelines win over their parent.
pub open spec fn node_at_m(n: NodeM, off: int) -> Option<(Seq<int>, NodeM)>
    decreases n, 2int, 0int,
{
    if !(n.span.start <= off <= n.span.end) {
        None
    } else {
        match sources_at_m(n, 0, off) {
            Some(found) => Some(found),
            None => Some((seq![], n)),
        }
    }
}

/// The first of `n`'s source pipelines, from the `i`-th on, that holds `off`.
pub open spec fn sources_at_m(n: NodeM, i: int, off: int) -> Option<(Seq<int>, NodeM)>
    decreases n, 1int, n.sources.len() - i,
{
    if 0 <= i < n.sources.len() {
        match nodes_at_m(n.sources[i], 0, off) {
            Some((path, found)) => Some((seq![i] + path, found)),
            None => sources_at_m(n, i + 1, off),
        }
    } else {
        None
    }
}

/// The first node of `p`, from the `j`-th on, that holds `off`.
pub open spec fn nodes_at_m(p: PipelineM, j: int, off: int) -> Option<(Seq<int>, NodeM)>
    decreases p, 0int, p.nodes.len() - j,
{
    if 0 <= j < p.nodes.len() {
        match node_at_m(p.nodes[j], off) {
            Some((path, found)) => Some((seq![j] + path, found)),
            None => nodes_at_m(p, j + 1, off),
        }
    } else {
        None
    }
}

/// A path as the integers it holds.
pub open spec fn ints(v: Seq<usize>) -> Seq<int> {
    v.map_values(|x: usize| x as int)
}

/// Where a path leads from node `n`: each pair is a source pipeline and a node in it.
pub open spec fn follow_m(n: NodeM, rest: Seq<int>) -> Option<NodeM>
    decreases rest.len(),
{
    if rest.len() == 0 {
        Some(n)
    } else if rest.len() == 1 {
        None
    } else if 0 <= rest[0] < n.sources.len() && 0 <= rest[1] < n.sources[rest[0]].nodes.len() {
        follow_m(n.sources[rest[0]].nodes[rest[1]], rest.skip(2))
    } else {
        None
    }
}

/// Where a path leads in `p`: the first index picks a node, the rest go on from there.
pub open spec fn path_m(p: PipelineM, path: Seq<int>) -> Option<NodeM> {
    if path.len() == 0 || !(0 <= path[0] < p.nodes.len()) {
        None
    } else {
        follow_m(p.nodes[path[0]], path.skip(1))
    }
}

impl Node {
    /// The innermost node containing `offset`, and the path taken to reach it.
    ///
    /// The path is the index at each level of nesting, so a caller can address the node again after
    /// an edit. A caret inside a source block belongs to the node it is written inside, not the one
    /// it feeds.
    pub fn node_at(&self, offset: usize) -> (r: Option<(Vec<usize>, &Node)>)
        ensures
            match node_at_m(self@, offset as int) {
                None => r is None,
                Some((path, found)) => r matches Some((p, x)) && ints(p@) == path && x@ == found,
            },
        decreases self,
    {
        proof {
            lemma_node_model(*self);
        }
        if !self.span.contains(offset) {
            return None;
        }
        let mut i: usize = 0;
        while i < self.sources.len()
            invariant
                i <= self.sources@.len(),
                self@.sources == pipes_model(self.sources@),
                self@.span == self.span,
                self.span.start <= offset <= self.span.end,
                sources_at_m(self@, 0, offset as int) == sources_at_m(self@, i as int, offset as int),
            decreases self.sources@.len() - i,
        {
            proof {
                assert(decreases_to!(self => self.sources));
                assert(decreases_to!(self.sources => self.sources@));
                assert(decreases_to!(self.sources@ => self.sources@[i as int]));
            }
            match self.sources[i].node_at(offset) {
                Some((path, found)) => {
                    let mut full: Vec<usize> = Vec::new();
                    full.push(i);
                    let mut rest = path;
                    full.append(&mut rest);
                    proof {
                        assert(self@.sources[i as int] == self.sources@[i as int]@);
                        assert(ints(full@) =~= seq![i as int] + ints(path@));
                        assert(sources_at_m(self@, i as int, offset as int) == Some((ints(full@), found@)));
                    }
                    return Some((full, found));
                },
                None => {},
            }
            i = i + 1;
        }
        Some((Vec::new(), self))
    }
}

impl Pipeline {
    /// The innermost node containing `offset`, with the path of indices that reaches it.
    ///
    /// This is what makes a graph selection and a text caret the same thing.
    pub fn node_at(&self, offset: usize) -> (r: Option<(Vec<usize>, &Node)>)
        ensures
            match nodes_at_m(self@, 0, offset as int) {
                None => r is None,
                Some((path, found)) => r matches Some((p, x)) && ints(p@) == path && x@ == found,
            },
        decreases self,
    {
        proof {
            lemma_pipeline_model(*self);
        }
        let mut j: usize = 0;
        while j < self.nodes.len()
            invariant
                j <= self.nodes@.len(),
                self@.nodes == nodes_model(self.nodes@),
                nodes_at_m(self@, 0, offset as int) == nodes_at_m(self@, j as int, offset as int),
            decreases self.nodes@.len() - j,
        {
            proof {
                assert(decreases_to!(self => self.nodes));
                assert(decreases_to!(self.nodes => self.nodes@));
                assert(decreases_to!(self.nodes@ => self.nodes@[j as int]));
            }
            match self.nodes[j].node_at(offset) {
                Some((path, found)) => {
                    let mut full: Vec<usize> = Vec::new();
                    full.push(j);
                    let mut rest = path;
                    full.append(&mut rest);
                    proof {
                        assert(ints(full@) =~= seq![j as int] + ints(path@));
                    }
                    return Some((full, found));
                },
                None => {},
            }
            j = j + 1;
        }
        None
    }

    /// Follows a path produced by [`Pipeline::node_at`].
    pub fn node_at_path(&self, path: &[usize]) -> (r: Option<&Node>)
        ensures
            match path_m(self@, ints(path@)) {
                None => r is None,
                Some(found) => r matches Some(x) && x@ == found,
            },
    {
        proof {
            lemma_pipeline_model(*self);
        }
        if path.len() == 0 || path[0] >= self.nodes.len() {
            return None;
        }
        let mut node = &self.nodes[path[0]];
        let mut k: usize = 1;
        while k < path.len()
            invariant
                1 <= k <= path@.len(),
                path_m(self@, ints(path@)) == follow_m(node@, ints(path@).skip(k as int)),
            decreases path@.len() - k,
        {
            proof {
                lemma_node_model(*node);
            }
            if k + 1 >= path.len() {
                return None;
            }
            let source = path[k];
            let index = path[k + 1];
            if source >= node.sources.len() {
                return None;
            }
            let pipe = &node.sources[source];
            proof {
                lemma_pipeline_model(*pipe);
            }
            if index >= pipe.nodes.len() {
                return None;
            }
            proof {
                assert(ints(path@).skip(k as int).skip(2) =~= ints(path@).skip(k + 2));
            }
            node = &pipe.nodes[index];
            k = k + 2;
        }
        proof {
            assert(ints(path@).skip(k as int).len() == 0);
        }
        Some(node)
    }
}

// ---------------------------------------------------------------------------------------------
// A path found by offset leads back to the node found
// ---------------------------------------------------------------------------------------------

proof fn lemma_node_at_follows(n: NodeM, off: int)
    ensures
        node_at_m(n, off) matches Some((path, found)) ==> follow_m(n, path) == Some(found),
    decreases n, 2int, 0int,
{
    if n.span.start <= off <= n.span.end {
        lemma_sources_at_follows(n, 0, off);
    }
}

proof fn lemma_sources_at_follows(n: NodeM, i: int, off: int)
    ensures
        sources_at_m(n, i, off) matches Some((path, found)) ==> follow_m(n, path) == Some(found),
    decreases n, 1int, n.sources.len() - i,
{
    if 0 <= i < n.sources.len() {
        let p = n.sources[i];
        lemma_nodes_at_follows(p, 0, off);
        match nodes_at_m(p, 0, off) {
            Some((q, found)) => {
                let path = seq![i] + q;
                assert(path.skip(2) =~= q.skip(1));
                assert(path[1] == q[0]);
            },
            None => {
                lemma_sources_at_follows(n, i + 1, off);
            },
        }
    }
}

proof fn lemma_nodes_at_follows(p: PipelineM, j: int, off: int)
    ensures
        nodes_at_m(p, j, off) matches Some((path, found)) ==> path.len() > 0 && 0 <= path[0] < p.nodes.len()
            && follow_m(p.nodes[path[0]], path.skip(1)) == Some(found),
    decreases p, 0int, p.nodes.len() - j,
{
    if 0 <= j < p.nodes.len() {
        lemma_node_at_follows(p.nodes[j], off);
        match node_at_m(p.nodes[j], off) {
            Some((q, found)) => {
                assert((seq![j] + q).skip(1) =~= q);
            },
            None => {
                lemma_nodes_at_follows(p, j + 1, off);
            },
        }
    }
}

/// A path that [`Pipeline::node_at`] produces is one [`Pipeline::node_at_path`] follows, back to
/// the same node.
pub proof fn lemma_node_at_path_follows(p: PipelineM, off: int)
    ensures
        nodes_at_m(p, 0, off) matches Some((path, found)) ==> path_m(p, path) == Some(found),
{
    lemma_nodes_at_follows(p, 0, off);
}

} // verus!
