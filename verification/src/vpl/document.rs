//! A VPL document: its text and the tree parsed from it, kept in step.
//!
//! **The text is the document.** Every edit is made to the text and the tree parsed again, so
//! comments and the author's layout outside the edited span survive untouched, and every span in
//! the tree matches the text it came from.

use vstd::prelude::*;
use crate::text::{chars_of, index_at_byte, index_of_byte, owned, string_of, utf8_len, utf8_length};
use super::ast::{comments_model, lemma_node_model, lemma_pipeline_model, Comment, CommentM, Node, Pipeline,
    PipelineM, NodeM, PropertyM, Span, Value, ValueM};
use super::grammar::{document, ParseErrorM};
use super::parse::{ParseError, Parser};
use super::print::{quote_value, quoted};

verus! {

/// A parsed document.
#[derive(Debug)]
pub struct Document {
    text: String,
    pipeline: Pipeline,
    comments: Vec<Comment>,
}

pub ghost struct DocumentM {
    pub text: Seq<char>,
    pub pipeline: PipelineM,
    pub comments: Seq<CommentM>,
}

impl View for Document {
    type V = DocumentM;

    closed spec fn view(&self) -> DocumentM {
        DocumentM { text: self.text@, pipeline: self.pipeline@, comments: comments_model(self.comments@) }
    }
}

/// The document `text` parses to, or where it fails.
pub open spec fn parsed(text: Seq<char>) -> Result<DocumentM, ParseErrorM> {
    match document(text) {
        Ok((pipeline, comments)) => Ok(DocumentM { text, pipeline, comments }),
        Err(e) => Err(e),
    }
}

/// `t` with the bytes of `span` replaced, when both ends fall on character boundaries.
pub open spec fn spliced(t: Seq<char>, span: Span, replacement: Seq<char>) -> Option<Seq<char>> {
    match (index_at_byte(t, span.start as int), index_at_byte(t, span.end as int)) {
        (Some(a), Some(b)) => Some(t.take(a) + replacement + t.skip(b)),
        _ => None,
    }
}

/// `chars[..a] + extra + chars[b..]`.
fn splice(chars: &Vec<char>, a: usize, extra: &Vec<char>, b: usize) -> (candidate: Vec<char>)
    requires
        a <= chars@.len(),
        b <= chars@.len(),
    ensures
        candidate@ == chars@.take(a as int) + extra@ + chars@.skip(b as int),
{
    let mut candidate: Vec<char> = Vec::new();
    let mut i: usize = 0;
    while i < a
        invariant
            a <= chars@.len(),
            i <= a,
            candidate@ == chars@.take(i as int),
        decreases a - i,
    {
        candidate.push(chars[i]);
        proof {
            assert(chars@.take(i as int + 1) =~= chars@.take(i as int).push(chars@[i as int]));
        }
        i = i + 1;
    }
    let mut k: usize = 0;
    while k < extra.len()
        invariant
            k <= extra@.len(),
            candidate@ == chars@.take(a as int) + extra@.take(k as int),
        decreases extra@.len() - k,
    {
        candidate.push(extra[k]);
        proof {
            assert(extra@.take(k as int + 1) =~= extra@.take(k as int).push(extra@[k as int]));
        }
        k = k + 1;
    }
    proof {
        assert(extra@.take(extra@.len() as int) =~= extra@);
    }
    let mut j: usize = b;
    while j < chars.len()
        invariant
            b <= j <= chars@.len(),
            candidate@ == chars@.take(a as int) + extra@ + chars@.subrange(b as int, j as int),
        decreases chars@.len() - j,
    {
        candidate.push(chars[j]);
        proof {
            assert(chars@.subrange(b as int, j as int + 1) =~= chars@.subrange(b as int, j as int).push(chars@[j as int]));
        }
        j = j + 1;
    }
    proof {
        assert(chars@.subrange(b as int, chars@.len() as int) =~= chars@.skip(b as int));
    }
    candidate
}

impl Document {
    /// Parses `text`, or reports the first thing wrong with it and where.
    pub fn parse(text: &str) -> (r: Result<Document, ParseError>)
        ensures
            match parsed(text@) {
                Ok(d) => r matches Ok(x) && x@ == d,
                Err(e) => r matches Err(x) && x@ == e,
            },
    {
        let parser = Parser::new(text);
        match parser.parse_document() {
            Ok((pipeline, comments)) => Ok(Document { text: owned(text), pipeline, comments }),
            Err(e) => Err(e),
        }
    }

    /// The document, byte for byte.
    pub fn text(&self) -> (t: &str)
        ensures
            t@ == self@.text,
    {
        self.text.as_str()
    }

    pub fn pipeline(&self) -> (p: &Pipeline)
        ensures
            p@ == self@.pipeline,
    {
        &self.pipeline
    }

    /// Every `#` comment, in source order.
    pub fn comments(&self) -> (c: &Vec<Comment>)
        ensures
            comments_model(c@) == self@.comments,
    {
        &self.comments
    }

    /// Replaces the text under `span` and parses again.
    ///
    /// **Either the whole edit lands or nothing does.** A span whose ends are not character
    /// boundaries of the text is refused, and so is an edit whose result would not parse: the error
    /// comes back and the document is exactly as it was.
    pub fn replace(&mut self, span: Span, replacement: &str) -> (r: Result<(), ParseError>)
        requires
            parsed(old(self)@.text) == Ok::<DocumentM, ParseErrorM>(old(self)@),
        ensures
            parsed(final(self)@.text) == Ok::<DocumentM, ParseErrorM>(final(self)@),
            match spliced(old(self)@.text, span, replacement@) {
                None => r is Err && final(self)@ == old(self)@,
                Some(candidate) => match parsed(candidate) {
                    Ok(d) => r is Ok && final(self)@ == d,
                    Err(e) => r matches Err(x) && x@ == e && final(self)@ == old(self)@,
                },
            },
    {
        let chars = chars_of(self.text.as_str());
        let n = utf8_length(self.text.as_str());
        let a = match index_of_byte(&chars, span.start) {
            Some(a) => a,
            None => return Err(ParseError { message: owned("the span starts outside the document"), span }),
        };
        let b = match index_of_byte(&chars, span.end) {
            Some(b) => b,
            None => return Err(ParseError { message: owned("the span ends outside the document"), span }),
        };
        let extra = chars_of(replacement);
        let candidate = splice(&chars, a, &extra, b);
        let text = string_of(candidate.as_slice());
        match Document::parse(text.as_str()) {
            Ok(d) => {
                *self = d;
                Ok(())
            },
            Err(e) => Err(e),
        }
    }

    /// Sets the value written at `span` - the span of a single-valued parameter's value - to
    /// `value`, quoted the way [`quote_value`] writes it.
    ///
    /// Refused when no single value sits exactly at `span`; then the document is unchanged. The
    /// empty string is written `''`.
    pub fn set_value(&mut self, span: Span, value: &str) -> (r: Result<(), ParseError>)
        requires
            parsed(old(self)@.text) == Ok::<DocumentM, ParseErrorM>(old(self)@),
        ensures
            parsed(final(self)@.text) == Ok::<DocumentM, ParseErrorM>(final(self)@),
            !(exists|k: int| 0 <= k < singles_nodes(old(self)@.pipeline, 0).len()
                && (#[trigger] singles_nodes(old(self)@.pipeline, 0)[k]).span == span)
                ==> r is Err && final(self)@ == old(self)@,
            quoted(value@) is None ==> r is Err && final(self)@ == old(self)@,
            (exists|k: int| 0 <= k < singles_nodes(old(self)@.pipeline, 0).len()
                && (#[trigger] singles_nodes(old(self)@.pipeline, 0)[k]).span == span)
                ==> (quoted(value@) matches Some(q) ==> match spliced(old(self)@.text, span, q) {
                    None => r is Err && final(self)@ == old(self)@,
                    Some(candidate) => match parsed(candidate) {
                        Ok(d) => r is Ok && final(self)@ == d,
                        Err(e) => r matches Err(x) && x@ == e && final(self)@ == old(self)@,
                    },
                }),
    {
        let found = self.pipeline.singles();
        let mut k: usize = 0;
        let mut at = false;
        while k < found.len()
            invariant
                k <= found@.len(),
                singles_model(found@) == singles_nodes(self@.pipeline, 0),
                at ==> exists|m: int| 0 <= m < k && (#[trigger] singles_model(found@)[m]).span == span,
                !at ==> forall|m: int| 0 <= m < k ==> (#[trigger] singles_model(found@)[m]).span != span,
            decreases found@.len() - k,
        {
            proof {
                assert(singles_model(found@)[k as int] == found@[k as int]@);
            }
            if found[k].span == span {
                at = true;
            }
            k = k + 1;
        }
        if !at {
            return Err(ParseError { message: owned("no value at that position"), span });
        }
        match quote_value(value) {
            None => Err(ParseError { message: owned("a value cannot be empty"), span }),
            Some(q) => self.replace(span, q.as_str()),
        }
    }
}

/// One single-valued parameter, with the operation it belongs to.
pub ghost struct SingleM {
    pub operation: Seq<char>,
    pub key: Seq<char>,
    pub value: Seq<char>,
    pub span: Span,
}

/// The single-valued parameters of one node's own list, in order.
pub open spec fn singles_props(operation: Seq<char>, props: Seq<PropertyM>) -> Seq<SingleM>
    decreases props.len(),
{
    if props.len() == 0 {
        seq![]
    } else {
        let rest = singles_props(operation, props.drop_last());
        match props.last().value {
            ValueM::Single(s) => rest.push(SingleM { operation, key: props.last().key, value: s.value, span: s.span }),
            ValueM::Array { .. } => rest,
        }
    }
}

/// Every single-valued parameter under `n`, in the order a walk meets them: the node's own, then
/// those of each source pipeline.
pub open spec fn singles_node(n: NodeM) -> Seq<SingleM>
    decreases n, 2int, 0int,
{
    singles_props(n.name, n.properties) + singles_sources(n, 0)
}

pub open spec fn singles_sources(n: NodeM, i: int) -> Seq<SingleM>
    decreases n, 1int, n.sources.len() - i,
{
    if 0 <= i < n.sources.len() {
        singles_nodes(n.sources[i], 0) + singles_sources(n, i + 1)
    } else {
        seq![]
    }
}

pub open spec fn singles_nodes(p: PipelineM, j: int) -> Seq<SingleM>
    decreases p, 0int, p.nodes.len() - j,
{
    if 0 <= j < p.nodes.len() {
        singles_node(p.nodes[j]) + singles_nodes(p, j + 1)
    } else {
        seq![]
    }
}

/// One single-valued parameter.
#[derive(Debug)]
pub struct Single {
    pub operation: String,
    pub key: String,
    pub value: String,
    pub span: Span,
}

impl View for Single {
    type V = SingleM;

    open spec fn view(&self) -> SingleM {
        SingleM { operation: self.operation@, key: self.key@, value: self.value@, span: self.span }
    }
}

pub open spec fn singles_model(v: Seq<Single>) -> Seq<SingleM> {
    v.map_values(|s: Single| s@)
}

impl Node {
    /// Adds every single-valued parameter under this node to `out`, in walk order.
    pub fn collect_singles(&self, out: &mut Vec<Single>)
        ensures
            singles_model(final(out)@) == singles_model(old(out)@) + singles_node(self@),
        decreases self,
    {
        proof {
            lemma_node_model(*self);
        }
        let ghost start = singles_model(out@);
        let mut k: usize = 0;
        while k < self.properties.len()
            invariant
                k <= self.properties@.len(),
                self@.properties == super::ast::properties_model(self.properties@),
                singles_model(out@) == start + singles_props(self@.name, self@.properties.take(k as int)),
                self@.name == self.name@,
            decreases self.properties@.len() - k,
        {
            let property = &self.properties[k];
            proof {
                assert(self@.properties.take(k as int + 1).drop_last() =~= self@.properties.take(k as int));
                assert(self@.properties.take(k as int + 1).last() == property@);
            }
            match &property.value {
                Value::Single(s) => {
                    let ghost before = out@;
                    out.push(Single { operation: self.name.clone(), key: property.key.clone(), value: s.value.clone(), span: s.span });
                    proof {
                        assert(singles_model(out@) =~= singles_model(before).push(out@.last()@));
                    }
                },
                Value::Array { .. } => {},
            }
            k = k + 1;
        }
        proof {
            assert(self@.properties.take(k as int) =~= self@.properties);
        }
        let mut i: usize = 0;
        while i < self.sources.len()
            invariant
                i <= self.sources@.len(),
                self@.sources == super::ast::pipes_model(self.sources@),
                singles_model(out@) == start + singles_props(self@.name, self@.properties)
                    + (singles_sources(self@, 0).take(singles_sources(self@, 0).len() - singles_sources(self@, i as int).len())),
                singles_sources(self@, 0).len() >= singles_sources(self@, i as int).len(),
                singles_sources(self@, 0) == singles_sources(self@, 0).take(singles_sources(self@, 0).len() - singles_sources(self@, i as int).len()) + singles_sources(self@, i as int),
            decreases self.sources@.len() - i,
        {
            proof {
                assert(decreases_to!(self => self.sources));
                assert(decreases_to!(self.sources => self.sources@));
                assert(decreases_to!(self.sources@ => self.sources@[i as int]));
            }
            let ghost before = singles_model(out@);
            self.sources[i].collect_singles(out);
            proof {
                let all = singles_sources(self@, 0);
                let here = singles_nodes(self@.sources[i as int], 0);
                let after = singles_sources(self@, i as int + 1);
                assert(singles_sources(self@, i as int) == here + after);
                let done = all.take(all.len() - (here + after).len());
                assert(all == done + (here + after));
                assert(all.take(all.len() - after.len()) =~= done + here);
                assert(all =~= (done + here) + after);
                assert(singles_model(out@) =~= start + singles_props(self@.name, self@.properties) + (done + here));
            }
            i = i + 1;
        }
        proof {
            let all = singles_sources(self@, 0);
            assert(singles_sources(self@, i as int) == Seq::<SingleM>::empty());
            assert(all.take(all.len() as int) =~= all);
            assert(singles_model(out@) =~= start + singles_node(self@));
        }
    }
}

impl Pipeline {
    /// Adds every single-valued parameter in the pipeline to `out`, in walk order.
    pub fn collect_singles(&self, out: &mut Vec<Single>)
        ensures
            singles_model(final(out)@) == singles_model(old(out)@) + singles_nodes(self@, 0),
        decreases self,
    {
        proof {
            lemma_pipeline_model(*self);
        }
        let ghost start = singles_model(out@);
        let mut j: usize = 0;
        while j < self.nodes.len()
            invariant
                j <= self.nodes@.len(),
                self@.nodes == super::ast::nodes_model(self.nodes@),
                singles_nodes(self@, 0).len() >= singles_nodes(self@, j as int).len(),
                singles_model(out@) == start + singles_nodes(self@, 0).take(singles_nodes(self@, 0).len() - singles_nodes(self@, j as int).len()),
                singles_nodes(self@, 0) == singles_nodes(self@, 0).take(singles_nodes(self@, 0).len() - singles_nodes(self@, j as int).len()) + singles_nodes(self@, j as int),
            decreases self.nodes@.len() - j,
        {
            proof {
                assert(decreases_to!(self => self.nodes));
                assert(decreases_to!(self.nodes => self.nodes@));
                assert(decreases_to!(self.nodes@ => self.nodes@[j as int]));
            }
            self.nodes[j].collect_singles(out);
            proof {
                let all = singles_nodes(self@, 0);
                let here = singles_node(self@.nodes[j as int]);
                let after = singles_nodes(self@, j as int + 1);
                assert(singles_nodes(self@, j as int) == here + after);
                let done = all.take(all.len() - (here + after).len());
                assert(all == done + (here + after));
                assert(all.take(all.len() - after.len()) =~= done + here);
                assert(all =~= (done + here) + after);
                assert(singles_model(out@) =~= start + (done + here));
            }
            j = j + 1;
        }
        proof {
            let all = singles_nodes(self@, 0);
            assert(singles_nodes(self@, j as int) == Seq::<SingleM>::empty());
            assert(all.take(all.len() as int) =~= all);
        }
    }

    /// Every single-valued parameter in the pipeline, in walk order.
    pub fn singles(&self) -> (r: Vec<Single>)
        ensures
            singles_model(r@) == singles_nodes(self@, 0),
    {
        let mut out: Vec<Single> = Vec::new();
        self.collect_singles(&mut out);
        proof {
            assert(singles_model(Seq::<Single>::empty()) + singles_nodes(self@, 0) =~= singles_nodes(self@, 0));
        }
        out
    }
}

} // verus!
