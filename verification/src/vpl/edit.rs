//! Reading a document back by position, and the structural edits a graph view makes: each one a
//! splice of the text at a place the tree names, so whatever lies outside the splice - comments,
//! the author's spacing - is never touched.

use vstd::prelude::*;
use crate::text::{chars_of, index_at_byte, index_of_byte, owned, push_str, utf8_len, utf8_length};
use super::ast::{ints, lemma_node_model, lemma_pipeline_model, nodes_at_m, LineCol, NodeM, Pipeline, PipelineM, Span};
use super::document::{parsed, spliced, Document, DocumentM};
use super::grammar::ParseErrorM;
use super::parse::ParseError;

verus! {

// ---------------------------------------------------------------------------------------------
// Reading by position
// ---------------------------------------------------------------------------------------------

/// The text `span` covers, when both ends fall on character boundaries and it runs forwards.
pub open spec fn slice_of(t: Seq<char>, span: Span) -> Option<Seq<char>> {
    match (index_at_byte(t, span.start as int), index_at_byte(t, span.end as int)) {
        (Some(a), Some(b)) => if a <= b { Some(t.subrange(a, b)) } else { None },
        _ => None,
    }
}

/// How many line breaks `s` holds.
pub open spec fn newlines(s: Seq<char>) -> nat
    decreases s.len(),
{
    if s.len() == 0 {
        0
    } else {
        newlines(s.drop_last()) + if s.last() == '\n' { 1nat } else { 0nat }
    }
}

/// How many characters of `s` follow its last line break (all of them when it has none).
pub open spec fn since_newline(s: Seq<char>) -> nat
    decreases s.len(),
{
    if s.len() == 0 {
        0
    } else if s.last() == '\n' {
        0
    } else {
        since_newline(s.drop_last()) + 1
    }
}

/// `offset`, moved back to the end of `t` when it lies beyond it.
pub open spec fn clamped(t: Seq<char>, offset: int) -> int {
    if offset <= utf8_len(t) { offset } else { utf8_len(t) as int }
}

/// The line and column of the character at index `k` of `t`, both counted from one.
pub open spec fn position(t: Seq<char>, k: int) -> (nat, nat) {
    (newlines(t.take(k)) + 1, since_newline(t.take(k)) + 1)
}

proof fn lemma_counts_bounded(s: Seq<char>)
    ensures
        newlines(s) <= s.len(),
        since_newline(s) <= s.len(),
    decreases s.len(),
{
    if s.len() > 0 {
        lemma_counts_bounded(s.drop_last());
    }
}

proof fn lemma_chars_within_bytes(s: Seq<char>)
    ensures
        s.len() <= utf8_len(s),
    decreases s.len(),
{
    if s.len() > 0 {
        lemma_chars_within_bytes(s.drop_last());
    }
}

// ---------------------------------------------------------------------------------------------
// Structural edits
// ---------------------------------------------------------------------------------------------

/// What an edit that splices `replacement` over `span` leaves behind: the reparsed document, or -
/// when a span end is no character boundary or the result does not parse - the document as it
/// was, with an error (the parser's own, for text that does not parse).
pub open spec fn applied(
    before: DocumentM,
    after: DocumentM,
    r: Result<(), ParseError>,
    span: Span,
    replacement: Seq<char>,
) -> bool {
    match spliced(before.text, span, replacement) {
        None => r is Err && after == before,
        Some(candidate) => match parsed(candidate) {
            Ok(d) => r is Ok && after == d,
            Err(e) => r matches Err(x) && x@ == e && after == before,
        },
    }
}

/// An edit that was refused before any text changed.
pub open spec fn refused(before: DocumentM, after: DocumentM, r: Result<(), ParseError>) -> bool {
    r is Err && after == before
}

/// The chain that holds the node `path` leads to, and the node's index in it.
pub open spec fn parent_m(p: PipelineM, path: Seq<int>) -> Option<(PipelineM, int)>
    decreases path.len(),
{
    if path.len() == 1 && 0 <= path[0] < p.nodes.len() {
        Some((p, path[0]))
    } else if path.len() >= 3 && 0 <= path[0] < p.nodes.len() && 0 <= path[1] < p.nodes[path[0]].sources.len() {
        parent_m(p.nodes[path[0]].sources[path[1]], path.skip(2))
    } else {
        None
    }
}

/// The text removing the `index`-th node of `chain` takes away: from the end of the node before
/// it, so a comment written above the node goes with it - or, for the first node, up to the start
/// of the next.
pub open spec fn node_cut(chain: PipelineM, index: int) -> Span {
    if index > 0 {
        Span { start: chain.nodes[index - 1].span.end, end: chain.nodes[index].span.end }
    } else {
        Span { start: chain.nodes[0].span.start, end: chain.nodes[1].span.start }
    }
}

/// The text removing the `index`-th parameter of `n` takes away: the parameter and the whitespace
/// that separated it from what comes before it.
pub open spec fn property_cut(n: NodeM, index: int) -> Span {
    Span {
        start: if index > 0 { n.properties[index - 1].span.end } else { n.name_span.end },
        end: n.properties[index].span.end,
    }
}

/// The first node, in writing order and nested chains before the next node of their own chain,
/// one of whose parameters occupies exactly `span`; with the parameter's index.
pub open spec fn property_at_nodes(p: PipelineM, j: int, span: Span) -> Option<(NodeM, int)>
    decreases p, 0int, p.nodes.len() - j,
{
    if 0 <= j < p.nodes.len() {
        match property_at_node(p.nodes[j], span) {
            Some(found) => Some(found),
            None => property_at_nodes(p, j + 1, span),
        }
    } else {
        None
    }
}

pub open spec fn property_at_node(n: NodeM, span: Span) -> Option<(NodeM, int)>
    decreases n, 2int, 0int,
{
    match first_property_spanning(n.properties, span, 0) {
        Some(i) => Some((n, i)),
        None => property_at_sources(n, 0, span),
    }
}

pub open spec fn property_at_sources(n: NodeM, i: int, span: Span) -> Option<(NodeM, int)>
    decreases n, 1int, n.sources.len() - i,
{
    if 0 <= i < n.sources.len() {
        match property_at_nodes(n.sources[i], 0, span) {
            Some(found) => Some(found),
            None => property_at_sources(n, i + 1, span),
        }
    } else {
        None
    }
}

/// The first index, from `i` on, of a parameter occupying exactly `span`.
pub open spec fn first_property_spanning(props: Seq<super::ast::PropertyM>, span: Span, i: int) -> Option<int>
    decreases props.len() - i,
{
    if 0 <= i < props.len() {
        if props[i].span == span { Some(i) } else { first_property_spanning(props, span, i + 1) }
    } else {
        None
    }
}


/// The first node, in writing order and nested chains before the next node of their own chain,
/// whose name occupies exactly `span`.
pub open spec fn named_at_nodes(p: PipelineM, j: int, span: Span) -> Option<NodeM>
    decreases p, 0int, p.nodes.len() - j,
{
    if 0 <= j < p.nodes.len() {
        match named_at_node(p.nodes[j], span) {
            Some(found) => Some(found),
            None => named_at_nodes(p, j + 1, span),
        }
    } else {
        None
    }
}

pub open spec fn named_at_node(n: NodeM, span: Span) -> Option<NodeM>
    decreases n, 2int, 0int,
{
    if n.name_span == span { Some(n) } else { named_at_sources(n, 0, span) }
}

pub open spec fn named_at_sources(n: NodeM, i: int, span: Span) -> Option<NodeM>
    decreases n, 1int, n.sources.len() - i,
{
    if 0 <= i < n.sources.len() {
        match named_at_nodes(n.sources[i], 0, span) {
            Some(found) => Some(found),
            None => named_at_sources(n, i + 1, span),
        }
    } else {
        None
    }
}

/// The index of the first of `props`, from `i` on, whose key is `key`.
pub open spec fn first_key_from(props: Seq<super::ast::PropertyM>, key: Seq<char>, i: int) -> Option<int>
    decreases props.len() - i,
{
    if 0 <= i < props.len() {
        if props[i].key == key { Some(i) } else { first_key_from(props, key, i + 1) }
    } else {
        None
    }
}

/// Where the parameter list of `n` ends: after its last parameter, or after its name.
pub open spec fn props_end(n: NodeM) -> int {
    if n.properties.len() > 0 { n.properties.last().span.end as int } else { n.name_span.end as int }
}

/// The text of the first `i` parameters of `n` that are not called `key`, each with the
/// whitespace before it, as `t` writes them; `None` when a span does not slice `t`.
pub open spec fn kept_props(t: Seq<char>, n: NodeM, key: Seq<char>, i: int) -> Option<Seq<char>>
    decreases i,
{
    if i <= 0 {
        Some(seq![])
    } else {
        match kept_props(t, n, key, i - 1) {
            None => None,
            Some(acc) => if n.properties[i - 1].key == key {
                Some(acc)
            } else {
                match slice_of(t, property_cut(n, i - 1)) {
                    None => None,
                    Some(piece) => Some(acc + piece),
                }
            },
        }
    }
}

/// `qs` joined by `, ` from index `i` on.
pub open spec fn joined(qs: Seq<Seq<char>>) -> Seq<char>
    decreases qs.len(),
{
    if qs.len() == 0 {
        seq![]
    } else if qs.len() == 1 {
        qs[0]
    } else {
        joined(qs.drop_last()) + seq![',', ' '] + qs.last()
    }
}

/// The spellings of `values`, each as [`quoted`](super::print::quoted) writes it; `None` when one
/// has none.
pub open spec fn all_quoted(values: Seq<Seq<char>>) -> Option<Seq<Seq<char>>>
    decreases values.len(),
{
    if values.len() == 0 {
        Some(seq![])
    } else {
        match (all_quoted(values.drop_last()), super::print::quoted(values.last())) {
            (Some(qs), Some(q)) => Some(qs.push(q)),
            _ => None,
        }
    }
}

impl Document {
    /// The text `span` covers; `None` for a span that runs past the end, backwards, or into the
    /// middle of a character, so a stale span cannot panic the caller.
    pub fn slice(&self, span: Span) -> (r: Option<&str>)
        ensures
            match slice_of(self@.text, span) {
                None => r is None,
                Some(s) => r matches Some(x) && x@ == s,
            },
    {
        let text = self.text();
        let _bytes = utf8_length(text);
        let chars = chars_of(text);
        let a = match index_of_byte(&chars, span.start) {
            Some(a) => a,
            None => return None,
        };
        let b = match index_of_byte(&chars, span.end) {
            Some(b) => b,
            None => return None,
        };
        if a > b {
            return None;
        }
        Some(text.substring_char(a, b))
    }

    /// The line and column of a byte offset, both counted from one and the column in characters;
    /// an offset past the end counts as the end.
    pub fn line_col(&self, offset: usize) -> (r: LineCol)
        requires
            index_at_byte(self@.text, clamped(self@.text, offset as int)) is Some,
            utf8_len(self@.text) < usize::MAX,
        ensures
            (r.line as nat, r.column as nat) == position(self@.text,
                index_at_byte(self@.text, clamped(self@.text, offset as int))->0),
    {
        let text = self.text();
        let n = utf8_length(text);
        let chars = chars_of(text);
        let at = if offset <= n { offset } else { n };
        let k = match index_of_byte(&chars, at) {
            Some(k) => k,
            None => return LineCol { line: 1, column: 1 },
        };
        proof {
            lemma_chars_within_bytes(chars@);
        }
        let mut lines: usize = 0;
        let mut column: usize = 0;
        let mut i: usize = 0;
        while i < k
            invariant
                k <= chars@.len(),
                chars@.len() <= utf8_len(chars@),
                utf8_len(chars@) <= usize::MAX,
                i <= k,
                lines == newlines(chars@.take(i as int)),
                column == since_newline(chars@.take(i as int)),
            decreases k - i,
        {
            proof {
                assert(chars@.take(i as int + 1).drop_last() =~= chars@.take(i as int));
                lemma_counts_bounded(chars@.take(i as int));
            }
            if chars[i] == '\n' {
                lines = lines + 1;
                column = 0;
            } else {
                column = column + 1;
            }
            i = i + 1;
        }
        proof {
            lemma_counts_bounded(chars@.take(k as int));
            lemma_chars_within_bytes(chars@);
        }
        if lines >= usize::MAX || column >= usize::MAX {
            return LineCol { line: 1, column: 1 };
        }
        LineCol { line: lines + 1, column: column + 1 }
    }

    /// Inserts the operation `operation` into the chain right after the node whose span holds
    /// `span.start` (the innermost such node), written ` | operation` with no parameters.
    ///
    /// A span inside no node is refused; an insertion whose result does not parse changes nothing.
    pub fn insert_after(&mut self, span: Span, operation: &str) -> (r: Result<(), ParseError>)
        requires
            parsed(old(self)@.text) == Ok::<DocumentM, ParseErrorM>(old(self)@),
        ensures
            parsed(final(self)@.text) == Ok::<DocumentM, ParseErrorM>(final(self)@),
            match nodes_at_m(old(self)@.pipeline, 0, span.start as int) {
                None => refused(old(self)@, final(self)@, r),
                Some((_, n)) => applied(old(self)@, final(self)@, r, Span { start: n.span.end, end: n.span.end },
                    seq![' ', '|', ' '] + operation@),
            },
    {
        let at = match self.pipeline().node_at(span.start) {
            None => return Err(ParseError { message: owned("no operation at that position"), span }),
            Some((_, node)) => {
                proof {
                    lemma_node_model(*node);
                }
                node.span.end
            },
        };
        let mut text = owned(" | ");
        push_str(&mut text, operation);
        proof {
            reveal_strlit(" | ");
            assert(text@ =~= seq![' ', '|', ' '] + operation@);
        }
        self.replace(Span { start: at, end: at }, text.as_str())
    }

    /// Removes the node whose span holds `span.start` (the innermost such node) from its chain,
    /// with the text [`node_cut`] names.
    ///
    /// Refused when the position is in no node, and when the node is the only one in its chain: an
    /// empty chain does not parse.
    pub fn remove_node(&mut self, span: Span) -> (r: Result<(), ParseError>)
        requires
            parsed(old(self)@.text) == Ok::<DocumentM, ParseErrorM>(old(self)@),
        ensures
            parsed(final(self)@.text) == Ok::<DocumentM, ParseErrorM>(final(self)@),
            match nodes_at_m(old(self)@.pipeline, 0, span.start as int) {
                None => refused(old(self)@, final(self)@, r),
                Some((path, _)) => match parent_m(old(self)@.pipeline, path) {
                    None => refused(old(self)@, final(self)@, r),
                    Some((chain, index)) => if chain.nodes.len() < 2 {
                        refused(old(self)@, final(self)@, r)
                    } else {
                        applied(old(self)@, final(self)@, r, node_cut(chain, index), seq![])
                    },
                },
            },
    {
        let cut = {
            let pipeline = self.pipeline();
            let path = match pipeline.node_at(span.start) {
                None => return Err(ParseError { message: owned("no operation at that position"), span }),
                Some((path, _)) => path,
            };
            let (chain, index) = match parent_of(pipeline, path.as_slice()) {
                None => return Err(ParseError { message: owned("no operation at that position"), span }),
                Some(found) => found,
            };
            proof {
                lemma_pipeline_model(*chain);
            }
            if chain.nodes.len() < 2 {
                return Err(ParseError { message: owned("a pipeline needs at least one operation"), span });
            }
            proof {
                assert(chain@.nodes[index as int] == chain.nodes@[index as int]@);
                assert(chain@.nodes[0] == chain.nodes@[0]@);
                assert(chain@.nodes[1] == chain.nodes@[1]@);
                if index > 0 {
                    assert(chain@.nodes[index - 1] == chain.nodes@[index - 1]@);
                }
            }
            if index > 0 {
                Span { start: chain.nodes[index - 1].span.end, end: chain.nodes[index].span.end }
            } else {
                Span { start: chain.nodes[0].span.start, end: chain.nodes[1].span.start }
            }
        };
        proof {
            assert(seq![] =~= ""@) by {
                reveal_strlit("");
            }
        }
        self.replace(cut, "")
    }

    /// Sets the parameter `key` on the node whose name occupies exactly `span` (the first such,
    /// nested chains searched before the nodes after them), adding it when the node lacks it; the
    /// splice is the one [`property_plan`] names.
    ///
    /// Refused when no node is named at `span`, and when a value has no spelling, which since `''` spells the empty string none lacks.
    pub fn set_property(&mut self, span: Span, key: &str, values: &[String]) -> (r: Result<(), ParseError>)
        requires
            parsed(old(self)@.text) == Ok::<DocumentM, ParseErrorM>(old(self)@),
        ensures
            parsed(final(self)@.text) == Ok::<DocumentM, ParseErrorM>(final(self)@),
            match property_plan(old(self)@, span, key@, super::ast::texts(values@)) {
                None => refused(old(self)@, final(self)@, r),
                Some((at, text)) => applied(old(self)@, final(self)@, r, at, text),
            },
    {
        match plan_property(self, span, key, values) {
            None => Err(ParseError { message: owned("no operation at that position, or a value with no spelling"), span }),
            Some((at, text)) => self.replace(at, text.as_str()),
        }
    }

    /// Removes the parameter that occupies exactly `span` - the first such, nested chains searched
    /// before the nodes after them - with the text [`property_cut`] names.
    ///
    /// Refused when no parameter occupies `span`.
    pub fn remove_property(&mut self, span: Span) -> (r: Result<(), ParseError>)
        requires
            parsed(old(self)@.text) == Ok::<DocumentM, ParseErrorM>(old(self)@),
        ensures
            parsed(final(self)@.text) == Ok::<DocumentM, ParseErrorM>(final(self)@),
            match property_at_nodes(old(self)@.pipeline, 0, span) {
                None => refused(old(self)@, final(self)@, r),
                Some((n, index)) => applied(old(self)@, final(self)@, r, property_cut(n, index), seq![]),
            },
    {
        let cut = match property_in_nodes(self.pipeline(), span) {
            None => return Err(ParseError { message: owned("no parameter at that position"), span }),
            Some(cut) => cut,
        };
        proof {
            assert(seq![] =~= ""@) by {
                reveal_strlit("");
            }
        }
        self.replace(cut, "")
    }
}

/// The splice that sets `key` to `values` on the node named at `span`: one value replaces the value
/// of the first parameter called `key`, or is appended after the node's parameters as
/// ` key=value`; any other number removes every parameter called `key`, each with the whitespace
/// before it, and appends ` key=[a, b, …]` after the rest. Values are spelled as
/// [`quoted`](super::print::quoted) spells them. `None` when no node is named at `span` or a value
/// has no spelling.
pub open spec fn property_plan(d: DocumentM, span: Span, key: Seq<char>, values: Seq<Seq<char>>) -> Option<(Span, Seq<char>)> {
    match named_at_nodes(d.pipeline, 0, span) {
        None => None,
        Some(n) => match all_quoted(values) {
            None => None,
            Some(qs) => if values.len() == 1 {
                match first_key_from(n.properties, key, 0) {
                    Some(i) => Some((n.properties[i].value.span(), qs[0])),
                    None => Some((Span { start: props_end(n) as usize, end: props_end(n) as usize },
                        seq![' '] + key + seq!['='] + qs[0])),
                }
            } else {
                match kept_props(d.text, n, key, n.properties.len() as int) {
                    None => None,
                    Some(kept) => Some((Span { start: n.name_span.end, end: props_end(n) as usize },
                        kept + seq![' '] + key + seq!['=', '['] + joined(qs) + seq![']'])),
                }
            },
        },
    }
}

proof fn lemma_kept_none(t: Seq<char>, n: NodeM, key: Seq<char>, i: int, m: int)
    requires
        0 < i <= m,
        kept_props(t, n, key, i) is None,
    ensures
        kept_props(t, n, key, m) is None,
    decreases m - i,
{
    if i < m {
        lemma_kept_none(t, n, key, i, m - 1);
    }
}

proof fn lemma_all_quoted_len(vs: Seq<Seq<char>>)
    ensures
        all_quoted(vs) matches Some(qs) ==> qs.len() == vs.len(),
    decreases vs.len(),
{
    if vs.len() > 0 {
        lemma_all_quoted_len(vs.drop_last());
    }
}

/// The splice [`property_plan`] names.
fn plan_property(doc: &Document, span: Span, key: &str, values: &[String]) -> (r: Option<(Span, String)>)
    ensures
        match property_plan(doc@, span, key@, super::ast::texts(values@)) {
            None => r is None,
            Some((at, text)) => r matches Some((x, y)) && x == at && y@ == text,
        },
{
    let node = match named_in_nodes(doc.pipeline(), span) {
        None => return None,
        Some(node) => node,
    };
    proof {
        lemma_node_model(*node);
    }
    let ghost n = node@;
    let ghost vs = super::ast::texts(values@);
    // Every value spelled first, so that one with no spelling refuses the whole edit.
    let mut qs: Vec<String> = Vec::new();
    let mut k: usize = 0;
    while k < values.len()
        invariant
            k <= values@.len(),
            vs == super::ast::texts(values@),
            qs@.len() == k,
            all_quoted(vs.take(k as int)) == Some(super::ast::texts(qs@)),
        decreases values@.len() - k,
    {
        proof {
            assert(vs.take(k as int + 1).drop_last() =~= vs.take(k as int));
            assert(vs.take(k as int + 1).last() == values@[k as int]@);
        }
        match super::print::quote_value(values[k].as_str()) {
            None => {
                proof {
                    assert(vs[k as int] == values@[k as int]@);
                    lemma_all_quoted_prefix(vs, k as int + 1);
                }
                return None;
            },
            Some(q) => {
                let ghost before = qs@;
                qs.push(q);
                proof {
                    assert(super::ast::texts(qs@) =~= super::ast::texts(before).push(q@));
                }
            },
        }
        k = k + 1;
    }
    proof {
        assert(vs.take(k as int) =~= vs);
    }
    let ghost qv = super::ast::texts(qs@);
    let end = if node.properties.len() > 0 { node.properties[node.properties.len() - 1].span.end } else { node.name_span.end };
    proof {
        if node.properties@.len() > 0 {
            assert(n.properties.last() == node.properties@[node.properties@.len() - 1]@);
        }
        assert(end == props_end(n));
    }
    if values.len() == 1 {
        proof {
            assert(qv[0] == qs@[0]@);
        }
        let mut i: usize = 0;
        while i < node.properties.len()
            invariant
                i <= node.properties@.len(),
                n == node@,
                n.properties == super::ast::properties_model(node.properties@),
                first_key_from(n.properties, key@, 0) == first_key_from(n.properties, key@, i as int),
                qs@.len() == 1,
                qv == super::ast::texts(qs@),
                values@.len() == 1,
                named_at_nodes(doc@.pipeline, 0, span) == Some(n),
                all_quoted(super::ast::texts(values@)) == Some(qv),
            decreases node.properties@.len() - i,
        {
            proof {
                assert(n.properties[i as int] == node.properties@[i as int]@);
            }
            if crate::text::same_text(node.properties[i].key.as_str(), key) {
                let at = node.properties[i].value.span();
                proof {
                    assert(qv[0] == qs@[0]@);
                }
                return Some((at, owned(qs[0].as_str())));
            }
            i = i + 1;
        }
        let mut text = owned(" ");
        push_str(&mut text, key);
        push_str(&mut text, "=");
        push_str(&mut text, qs[0].as_str());
        proof {
            reveal_strlit(" ");
            reveal_strlit("=");
            assert(text@ =~= seq![' '] + key@ + seq!['='] + qv[0]);
        }
        return Some((Span { start: end, end }, text));
    }
    // Several values, or none: the parameters that stay, then the list.
    let mut text = String::new();
    let mut i: usize = 0;
    while i < node.properties.len()
        invariant
            i <= node.properties@.len(),
            n == node@,
            n.properties == super::ast::properties_model(node.properties@),
            kept_props(doc@.text, n, key@, i as int) == Some(text@),
            named_at_nodes(doc@.pipeline, 0, span) == Some(n),
            all_quoted(super::ast::texts(values@)) == Some(qv),
            values@.len() != 1,
        decreases node.properties@.len() - i,
    {
        proof {
            assert(n.properties[i as int] == node.properties@[i as int]@);
        }
        if !crate::text::same_text(node.properties[i].key.as_str(), key) {
            let start = if i > 0 { node.properties[i - 1].span.end } else { node.name_span.end };
            proof {
                if i > 0 {
                    assert(n.properties[i - 1] == node.properties@[i - 1]@);
                }
                assert(Span { start, end: node.properties[i as int].span.end } == property_cut(n, i as int));
            }
            match doc.slice(Span { start, end: node.properties[i].span.end }) {
                None => {
                    proof {
                        lemma_kept_none(doc@.text, n, key@, i as int + 1, n.properties.len() as int);
                    }
                    return None;
                },
                Some(piece) => push_str(&mut text, piece),
            }
        }
        i = i + 1;
    }
    let ghost kept = text@;
    push_str(&mut text, " ");
    push_str(&mut text, key);
    push_str(&mut text, "=[");
    proof {
        reveal_strlit(" ");
        reveal_strlit("=[");
        assert(qv.take(0) =~= Seq::<Seq<char>>::empty());
        assert(text@ =~= kept + seq![' '] + key@ + seq!['=', '['] + joined(qv.take(0)));
    }
    let mut j: usize = 0;
    while j < qs.len()
        invariant
            j <= qs@.len(),
            qv == super::ast::texts(qs@),
            text@ == kept + seq![' '] + key@ + seq!['=', '['] + joined(qv.take(j as int)),
        decreases qs@.len() - j,
    {
        let ghost before = text@;
        if j > 0 {
            push_str(&mut text, ", ");
        }
        push_str(&mut text, qs[j].as_str());
        proof {
            reveal_strlit(", ");
            assert(qv.take(j as int + 1).drop_last() =~= qv.take(j as int));
            assert(qv[j as int] == qs@[j as int]@);
            if j > 0 {
                assert(text@ =~= before + seq![',', ' '] + qv[j as int]);
            } else {
                assert(text@ =~= before + qv[j as int]);
                assert(joined(qv.take(1)) == qv.take(1)[0]);
            }
        }
        j = j + 1;
    }
    push_str(&mut text, "]");
    proof {
        reveal_strlit("]");
        assert(qv.take(j as int) =~= qv);
        lemma_all_quoted_len(vs);
    }
    Some((Span { start: node.name_span.end, end }, text))
}

proof fn lemma_all_quoted_prefix(vs: Seq<Seq<char>>, k: int)
    requires
        0 < k <= vs.len(),
        super::print::quoted(vs[k - 1]) is None,
    ensures
        all_quoted(vs) is None,
    decreases vs.len(),
{
    if vs.len() > k {
        assert(vs.drop_last()[k - 1] == vs[k - 1]);
        lemma_all_quoted_prefix(vs.drop_last(), k);
    }
}

/// The node [`named_at_nodes`] finds.
fn named_in_nodes(p: &Pipeline, span: Span) -> (r: Option<&super::ast::Node>)
    ensures
        match named_at_nodes(p@, 0, span) {
            None => r is None,
            Some(n) => r matches Some(x) && x@ == n,
        },
    decreases p,
{
    proof {
        lemma_pipeline_model(*p);
    }
    let mut j: usize = 0;
    while j < p.nodes.len()
        invariant
            j <= p.nodes@.len(),
            p@.nodes == super::ast::nodes_model(p.nodes@),
            named_at_nodes(p@, 0, span) == named_at_nodes(p@, j as int, span),
        decreases p.nodes@.len() - j,
    {
        proof {
            assert(decreases_to!(p => p.nodes));
            assert(decreases_to!(p.nodes => p.nodes@));
            assert(decreases_to!(p.nodes@ => p.nodes@[j as int]));
        }
        match named_in_node(&p.nodes[j], span) {
            Some(found) => return Some(found),
            None => {},
        }
        j = j + 1;
    }
    None
}

fn named_in_node(n: &super::ast::Node, span: Span) -> (r: Option<&super::ast::Node>)
    ensures
        match named_at_node(n@, span) {
            None => r is None,
            Some(m) => r matches Some(x) && x@ == m,
        },
    decreases n,
{
    proof {
        lemma_node_model(*n);
    }
    if n.name_span == span {
        return Some(n);
    }
    let mut s: usize = 0;
    while s < n.sources.len()
        invariant
            s <= n.sources@.len(),
            n@.sources == super::ast::pipes_model(n.sources@),
            n@.name_span != span,
            named_at_node(n@, span) == named_at_sources(n@, s as int, span),
        decreases n.sources@.len() - s,
    {
        proof {
            assert(decreases_to!(n => n.sources));
            assert(decreases_to!(n.sources => n.sources@));
            assert(decreases_to!(n.sources@ => n.sources@[s as int]));
            assert(n@.sources[s as int] == n.sources@[s as int]@);
        }
        match named_in_nodes(&n.sources[s], span) {
            Some(found) => return Some(found),
            None => {},
        }
        s = s + 1;
    }
    None
}

/// The chain holding the node `path` leads to, and the node's index in it; see [`parent_m`].
pub fn parent_of<'a>(pipeline: &'a Pipeline, path: &[usize]) -> (r: Option<(&'a Pipeline, usize)>)
    ensures
        match parent_m(pipeline@, ints(path@)) {
            None => r is None,
            Some((chain, index)) => r matches Some((c, i)) && c@ == chain && i == index,
        },
        r matches Some((c, i)) ==> i < c.nodes@.len(),
{
    let mut chain = pipeline;
    let mut at: usize = 0;
    proof {
        assert(ints(path@).skip(0) =~= ints(path@));
    }
    while path.len() - at >= 3
        invariant
            at <= path@.len(),
            parent_m(pipeline@, ints(path@)) == parent_m(chain@, ints(path@).skip(at as int)),
        decreases path@.len() - at,
    {
        proof {
            lemma_pipeline_model(*chain);
        }
        let i = path[at];
        let s = path[at + 1];
        if i >= chain.nodes.len() {
            return None;
        }
        let node = &chain.nodes[i];
        proof {
            lemma_node_model(*node);
            assert(chain@.nodes[i as int] == node@);
        }
        if s >= node.sources.len() {
            return None;
        }
        proof {
            assert(node@.sources[s as int] == node.sources@[s as int]@);
            assert(ints(path@).skip(at as int).skip(2) =~= ints(path@).skip(at as int + 2));
        }
        chain = &node.sources[s];
        at = at + 2;
    }
    proof {
        lemma_pipeline_model(*chain);
    }
    if path.len() - at == 1 && path[at] < chain.nodes.len() {
        return Some((chain, path[at]));
    }
    None
}

/// The span [`property_cut`] names for the parameter occupying `span`, found the way
/// [`property_at_nodes`] finds it.
fn property_in_nodes(p: &Pipeline, span: Span) -> (r: Option<Span>)
    ensures
        match property_at_nodes(p@, 0, span) {
            None => r is None,
            Some((n, index)) => r == Some(property_cut(n, index)),
        },
    decreases p,
{
    proof {
        lemma_pipeline_model(*p);
    }
    let mut j: usize = 0;
    while j < p.nodes.len()
        invariant
            j <= p.nodes@.len(),
            p@.nodes == super::ast::nodes_model(p.nodes@),
            property_at_nodes(p@, 0, span) == property_at_nodes(p@, j as int, span),
        decreases p.nodes@.len() - j,
    {
        proof {
            assert(decreases_to!(p => p.nodes));
            assert(decreases_to!(p.nodes => p.nodes@));
            assert(decreases_to!(p.nodes@ => p.nodes@[j as int]));
        }
        match property_in_node(&p.nodes[j], span) {
            Some(cut) => return Some(cut),
            None => {},
        }
        j = j + 1;
    }
    None
}

fn property_in_node(n: &super::ast::Node, span: Span) -> (r: Option<Span>)
    ensures
        match property_at_node(n@, span) {
            None => r is None,
            Some((m, index)) => r == Some(property_cut(m, index)),
        },
    decreases n,
{
    proof {
        lemma_node_model(*n);
    }
    let mut i: usize = 0;
    while i < n.properties.len()
        invariant
            i <= n.properties@.len(),
            n@.properties == super::ast::properties_model(n.properties@),
            first_property_spanning(n@.properties, span, 0) == first_property_spanning(n@.properties, span, i as int),
        decreases n.properties@.len() - i,
    {
        proof {
            assert(n@.properties[i as int] == n.properties@[i as int]@);
        }
        if n.properties[i].span == span {
            let start = if i > 0 { n.properties[i - 1].span.end } else { n.name_span.end };
            proof {
                if i > 0 {
                    assert(n@.properties[i - 1] == n.properties@[i - 1]@);
                }
            }
            return Some(Span { start, end: n.properties[i].span.end });
        }
        i = i + 1;
    }
    let mut s: usize = 0;
    while s < n.sources.len()
        invariant
            s <= n.sources@.len(),
            n@.sources == super::ast::pipes_model(n.sources@),
            first_property_spanning(n@.properties, span, 0) is None,
            property_at_node(n@, span) == property_at_sources(n@, s as int, span),
        decreases n.sources@.len() - s,
    {
        proof {
            assert(decreases_to!(n => n.sources));
            assert(decreases_to!(n.sources => n.sources@));
            assert(decreases_to!(n.sources@ => n.sources@[s as int]));
            assert(n@.sources[s as int] == n.sources@[s as int]@);
        }
        match property_in_nodes(&n.sources[s], span) {
            Some(cut) => return Some(cut),
            None => {},
        }
        s = s + 1;
    }
    None
}

} // verus!
