//! What the spans of a parsed document point at: each name, key and comment is exactly the text
//! its span covers, so an editor that underlines a span underlines the thing itself.

use vstd::prelude::*;
use crate::text::{byte_offset, lemma_byte_offset_bounded, lemma_byte_offset_mono, utf8_len};
use super::ast::{CommentM, NodeM, PipelineM, PropertyM, Quote, Span, StrM, ValueM};
use super::grammar::{
    at, chain, document, double_body, escaped, ident, items, lemma_ident, lemma_skip, lemma_ws0, node, pipeline,
    node_end, properties, property, skip, source_list, sources, sp, string, value, value_span, ws0, Class, Parsed,
};

verus! {

/// The characters of `s` from `a` to `b` are `text`, and `span` is where they lie, in bytes.
pub open spec fn spelled_at(s: Seq<char>, a: int, b: int, span: Span, text: Seq<char>) -> bool {
    &&& 0 <= a <= b <= s.len()
    &&& span == sp(s, a, b)
    &&& s.subrange(a, b) == text
}

/// `span` covers exactly `text` in `s`.
pub open spec fn spelled(s: Seq<char>, span: Span, text: Seq<char>) -> bool {
    exists|a: int, b: int| #[trigger] spelled_at(s, a, b, span, text)
}

/// A comment's span covers `#` and its text, and its text is one line.
pub open spec fn comment_spelled(s: Seq<char>, c: CommentM) -> bool {
    &&& spelled(s, c.span, seq!['#'] + c.text)
    &&& !c.text.contains('\n')
}

pub open spec fn comments_spelled(s: Seq<char>, cs: Seq<CommentM>) -> bool {
    forall|k: int| 0 <= k < cs.len() ==> comment_spelled(s, #[trigger] cs[k])
}

/// The characters from `a` to `b` open with `open` and close with `close`, and `span` is where
/// they lie.
pub open spec fn enclosed_at(s: Seq<char>, a: int, b: int, span: Span, open: char, close: char) -> bool {
    &&& 0 <= a && a + 2 <= b <= s.len()
    &&& span == sp(s, a, b)
    &&& s[a] == open
    &&& s[b - 1] == close
}

/// A string's span covers it as written: a bare value is its own text, a single-quoted one is its
/// text between single quotes, and a double-quoted one runs from its opening to its closing quote.
pub open spec fn str_written(s: Seq<char>, st: StrM) -> bool {
    match st.quote {
        Quote::Bare => spelled(s, st.span, st.value),
        Quote::Single => spelled(s, st.span, seq!['\''] + st.value + seq!['\'']),
        Quote::Double => exists|a: int, b: int| #[trigger] enclosed_at(s, a, b, st.span, '"', '"'),
    }
}

/// A value's span covers it as written: a string as [`str_written`] says, an array from its
/// opening to its closing bracket, with each of its strings written as they say.
pub open spec fn value_written(s: Seq<char>, v: ValueM) -> bool {
    match v {
        ValueM::Single(st) => str_written(s, st),
        ValueM::Array { items: list, span: whole } => array_written(s, list, whole),
    }
}

/// An array's span runs from its opening to its closing bracket, and each of its strings is
/// written as [`str_written`] says.
pub open spec fn array_written(s: Seq<char>, list: Seq<StrM>, whole: Span) -> bool {
    &&& forall|k: int| 0 <= k < list.len() ==> str_written(s, #[trigger] list[k])
    &&& exists|a: int, b: int| #[trigger] enclosed_at(s, a, b, whole, '[', ']')
}

/// A parameter's key span covers its key, its value's span covers the value as written, and its
/// span runs from its key to the end of its value.
pub open spec fn property_spelled(s: Seq<char>, q: PropertyM) -> bool {
    &&& spelled(s, q.key_span, q.key)
    &&& value_written(s, q.value)
    &&& q.span == Span { start: q.key_span.start, end: value_span(q.value).end }
}

/// Every node of `p`, at any depth, has its name where its name span says and each of its
/// parameters as [`property_spelled`] says.
pub open spec fn pipe_spelled(s: Seq<char>, p: PipelineM) -> bool
    decreases p, 0int,
{
    forall|j: int| 0 <= j < p.nodes.len() ==> node_spelled(s, #[trigger] p.nodes[j])
}

pub open spec fn node_spelled(s: Seq<char>, n: NodeM) -> bool
    decreases n, 1int,
{
    &&& spelled(s, n.name_span, n.name)
    &&& n.span == Span { start: n.name_span.start, end: node_end(n.name_span.end, n.properties, n.sources_span) }
    &&& forall|k: int| 0 <= k < n.properties.len() ==> property_spelled(s, #[trigger] n.properties[k])
    &&& forall|i: int| 0 <= i < n.sources.len() ==> pipe_spelled(s, #[trigger] n.sources[i])
}

/// The comments `cs` come one after another, each ending before the next begins: so they are in
/// order of position and none is there twice.
pub open spec fn in_order(cs: Seq<CommentM>) -> bool {
    forall|k: int, m: int| 0 <= k < m < cs.len() ==> #[trigger] cs[k].span.end <= #[trigger] cs[m].span.start
}

/// Each comment of `cs` lies between characters `lo` and `hi`.
pub open spec fn within(s: Seq<char>, cs: Seq<CommentM>, lo: int, hi: int) -> bool {
    forall|k: int| 0 <= k < cs.len() ==> byte_offset(s, lo) <= (#[trigger] cs[k]).span.start
        && cs[k].span.end <= byte_offset(s, hi)
}

/// The comments met between characters `lo` and `hi`: each spelled, in order, and inside.
pub open spec fn laid_out(s: Seq<char>, cs: Seq<CommentM>, lo: int, hi: int) -> bool {
    &&& comments_spelled(s, cs)
    &&& in_order(cs)
    &&& within(s, cs, lo, hi)
}

proof fn lemma_none_laid_out(s: Seq<char>, lo: int, hi: int)
    ensures
        laid_out(s, seq![], lo, hi),
{
}

proof fn lemma_join(s: Seq<char>, a: Seq<CommentM>, b: Seq<CommentM>, lo: int, mid: int, hi: int)
    requires
        0 <= lo <= mid <= hi <= s.len(),
        laid_out(s, a, lo, mid),
        laid_out(s, b, mid, hi),
    ensures
        laid_out(s, a + b, lo, hi),
{
    lemma_byte_offset_mono(s, lo, mid);
    lemma_byte_offset_mono(s, mid, hi);
    let ab = a + b;
    assert forall|k: int| 0 <= k < ab.len() implies comment_spelled(s, #[trigger] ab[k]) by {
        if k < a.len() {
            assert(ab[k] == a[k]);
        } else {
            assert(ab[k] == b[k - a.len()]);
        }
    }
    assert forall|k: int| 0 <= k < ab.len() implies byte_offset(s, lo) <= (#[trigger] ab[k]).span.start
        && ab[k].span.end <= byte_offset(s, hi) by {
        if k < a.len() {
            assert(ab[k] == a[k]);
        } else {
            assert(ab[k] == b[k - a.len()]);
        }
    }
    assert forall|k: int, m: int| 0 <= k < m < ab.len() implies #[trigger] ab[k].span.end <= #[trigger] ab[m].span.start by {
        if m < a.len() {
            assert(ab[k] == a[k] && ab[m] == a[m]);
        } else if k >= a.len() {
            assert(ab[k] == b[k - a.len()] && ab[m] == b[m - a.len()]);
        } else {
            assert(ab[k] == a[k] && ab[m] == b[m - a.len()]);
        }
    }
}

proof fn lemma_widen(s: Seq<char>, a: Seq<CommentM>, lo: int, hi: int, lo2: int, hi2: int)
    requires
        0 <= lo2 <= lo <= hi <= hi2 <= s.len(),
        laid_out(s, a, lo, hi),
    ensures
        laid_out(s, a, lo2, hi2),
{
    lemma_byte_offset_mono(s, lo2, lo);
    lemma_byte_offset_mono(s, hi, hi2);
}

proof fn lemma_ws0_laid_out(s: Seq<char>, i: int)
    requires
        0 <= i <= s.len(),
        utf8_len(s) <= usize::MAX,
    ensures
        laid_out(s, ws0(s, i).1, i, ws0(s, i).0),
    decreases s.len() - i,
{
    reveal(ws0);
    lemma_ws0(s, i);
    lemma_skip(s, i, Class::White);
    let k = skip(s, i, Class::White);
    if at(s, k, '#') {
        lemma_skip(s, k + 1, Class::NotNewline);
        let e = skip(s, k + 1, Class::NotNewline);
        let c = CommentM { text: s.subrange(k + 1, e), span: sp(s, k, e) };
        assert(s.subrange(k, e) =~= seq!['#'] + c.text);
        assert(spelled_at(s, k, e, c.span, seq!['#'] + c.text));
        assert(!c.text.contains('\n')) by {
            assert forall|m: int| 0 <= m < c.text.len() implies c.text[m] != '\n' by {
                assert(c.text[m] == s[k + 1 + m]);
            }
        }
        lemma_byte_offset_bounded(s, k);
        lemma_byte_offset_bounded(s, e);
        lemma_byte_offset_mono(s, i, k);
        lemma_ws0_laid_out(s, e);
        lemma_ws0(s, e);
        let rest = ws0(s, e);
        assert(laid_out(s, seq![c], i, e)) by {
            assert forall|m: int| 0 <= m < seq![c].len() implies comment_spelled(s, #[trigger] seq![c][m]) by {
                assert(seq![c][m] == c);
            }
            assert(seq![c][0] == c);
        }
        lemma_join(s, seq![c], rest.1, i, e, rest.0);
    }
}

proof fn lemma_array_written(s: Seq<char>, list: Seq<StrM>, whole: Span, a: int, b: int)
    requires
        forall|m: int| 0 <= m < list.len() ==> str_written(s, #[trigger] list[m]),
        enclosed_at(s, a, b, whole, '[', ']'),
    ensures
        value_written(s, ValueM::Array { items: list, span: whole }),
{
    assert(array_written(s, list, whole));
}

proof fn lemma_double_body_ends(s: Seq<char>, start: int, k: int, acc: Seq<char>)
    requires
        0 <= k,
    ensures
        double_body(s, start, k, acc) matches Ok((st, e)) ==> k < e <= s.len() && s[e - 1] == '"'
            && st.span == sp(s, start, e) && st.quote == Quote::Double,
    decreases s.len() - k,
{
    if 0 <= k < s.len() && s[k] != '"' {
        if s[k] == '\\' {
            if k + 1 < s.len() && escaped(s[k + 1]) is Some {
                lemma_double_body_ends(s, start, k + 2, acc.push(escaped(s[k + 1])->0));
            }
        } else {
            lemma_double_body_ends(s, start, k + 1, acc.push(s[k]));
        }
    }
}

proof fn lemma_string_ends(s: Seq<char>, i: int)
    requires
        0 <= i <= s.len(),
    ensures
        string(s, i) matches Ok((st, j)) ==> i < j <= s.len() && str_written(s, st),
{
    if at(s, i, '"') {
        lemma_double_body_ends(s, i, i + 1, seq![]);
        if let Ok((st, e)) = double_body(s, i, i + 1, seq![]) {
            assert(enclosed_at(s, i, e, st.span, '"', '"'));
        }
    } else if at(s, i, '\'') {
        lemma_skip(s, i + 1, Class::NotSingleQuote);
        if let Ok((st, j)) = string(s, i) {
            let e = skip(s, i + 1, Class::NotSingleQuote);
            assert(s.subrange(i, e + 1) =~= seq!['\''] + st.value + seq!['\'']);
            assert(spelled_at(s, i, e + 1, st.span, seq!['\''] + st.value + seq!['\'']));
        }
    } else {
        lemma_skip(s, i, Class::Unquoted);
        if let Ok((st, j)) = string(s, i) {
            assert(spelled_at(s, i, j, st.span, st.value));
        }
    }
}

proof fn lemma_items_laid_out(s: Seq<char>, p: int)
    requires
        0 <= p <= s.len(),
        utf8_len(s) <= usize::MAX,
    ensures
        items(s, p) matches Ok((list, q, cs)) ==> p <= q <= s.len() && laid_out(s, cs, p, q)
            && forall|k: int| 0 <= k < list.len() ==> str_written(s, #[trigger] list[k]),
    decreases s.len() - p,
{
    reveal(items);
    lemma_string_ends(s, p);
    if let Ok((item, j)) = string(s, p) {
        let (c, c1) = ws0(s, j);
        lemma_ws0(s, j);
        lemma_ws0_laid_out(s, j);
        lemma_widen(s, c1, j, c, p, c);
        if at(s, c, ',') {
            let (k, c2) = ws0(s, c + 1);
            lemma_ws0(s, c + 1);
            lemma_ws0_laid_out(s, c + 1);
            if p < k <= s.len() {
                lemma_items_laid_out(s, k);
                if let Ok((rest, q, c3)) = items(s, k) {
                    let all = seq![item] + rest;
                    assert forall|m: int| 0 <= m < all.len() implies str_written(s, #[trigger] all[m]) by {
                        if m > 0 {
                            assert(all[m] == rest[m - 1]);
                        }
                    }
                    lemma_widen(s, c2, c + 1, k, c, k);
                    lemma_join(s, c1, c2, p, c, k);
                    lemma_join(s, c1 + c2, c3, p, k, q);
                }
            }
        }
    }
}

proof fn lemma_value_laid_out(s: Seq<char>, i: int)
    requires
        0 <= i <= s.len(),
        utf8_len(s) <= usize::MAX,
    ensures
        value(s, i) matches Ok((v, e, cs)) ==> i <= e <= s.len() && laid_out(s, cs, i, e) && value_written(s, v),
{
    reveal(value);
    if at(s, i, '[') {
        let (k, c1) = ws0(s, i + 1);
        lemma_ws0(s, i + 1);
        lemma_ws0_laid_out(s, i + 1);
        lemma_widen(s, c1, i + 1, k, i, k);
        lemma_items_laid_out(s, k);
        let inner: Parsed<Seq<StrM>> = if at(s, k, ']') {
            Ok((seq![], k, seq![]))
        } else {
            items(s, k)
        };
        if let Ok((list, p, c2)) = inner {
            lemma_none_laid_out(s, k, p);
            assert(laid_out(s, c2, k, p));
            lemma_ws0(s, p);
            lemma_ws0_laid_out(s, p);
            let (q, c3) = ws0(s, p);
            if at(s, q, ']') {
                lemma_join(s, c1, c2, i, k, p);
                lemma_join(s, c1 + c2, c3, i, p, q);
                lemma_widen(s, c1 + c2 + c3, i, q, i, q + 1);
                assert(enclosed_at(s, i, q + 1, sp(s, i, q + 1), '[', ']'));
                assert(value(s, i) == Ok::<(ValueM, int, Seq<CommentM>), super::grammar::ParseErrorM>(
                    (ValueM::Array { items: list, span: sp(s, i, q + 1) }, q + 1, c1 + c2 + c3)));
                assert(exists|a: int, b: int| #[trigger] enclosed_at(s, a, b, sp(s, i, q + 1), '[', ']'));
                assert(forall|m: int| 0 <= m < list.len() ==> str_written(s, #[trigger] list[m]));
                lemma_array_written(s, list, sp(s, i, q + 1), i, q + 1);
                assert forall|m: int| 0 <= m < list.len() implies str_written(s, #[trigger] list[m]) by {
                    if at(s, k, ']') {
                        assert(list.len() == 0);
                    }
                }
            }
        }
    } else {
        lemma_string_ends(s, i);
        lemma_none_laid_out(s, i, i);
        if let Ok((item, j)) = string(s, i) {
            assert(str_written(s, item));
            assert(value_written(s, ValueM::Single(item)));
            lemma_none_laid_out(s, i, j);
        }
    }
}

proof fn lemma_property_laid_out(s: Seq<char>, i: int)
    requires
        0 <= i <= s.len(),
        utf8_len(s) <= usize::MAX,
    ensures
        property(s, i) matches Ok((q, e, cs)) ==> i <= e <= s.len() && property_spelled(s, q)
            && laid_out(s, cs, i, e),
{
    reveal(property);
    if let Some((key, j)) = ident(s, i) {
        lemma_ident(s, i);
        let (k, c1) = ws0(s, j);
        lemma_ws0(s, j);
        lemma_ws0_laid_out(s, j);
        if at(s, k, '=') {
            let (k2, c2) = ws0(s, k + 1);
            lemma_ws0(s, k + 1);
            lemma_ws0_laid_out(s, k + 1);
            lemma_value_laid_out(s, k2);
            if let Ok((v, e, c3)) = value(s, k2) {
                assert(spelled_at(s, i, j, sp(s, i, j), key));
                lemma_widen(s, c1, j, k, i, k);
                lemma_widen(s, c2, k + 1, k2, k, k2);
                lemma_join(s, c1, c2, i, k, k2);
                lemma_join(s, c1 + c2, c3, i, k2, e);
            }
        }
    }
}

proof fn lemma_properties_laid_out(s: Seq<char>, p: int)
    requires
        0 <= p <= s.len(),
        utf8_len(s) <= usize::MAX,
    ensures
        properties(s, p) matches Ok((props, q, cs)) ==> p <= q <= s.len() && laid_out(s, cs, p, q)
            && forall|k: int| 0 <= k < props.len() ==> property_spelled(s, #[trigger] props[k]),
    decreases s.len() - p,
{
    reveal(properties);
    let (c, c1) = ws0(s, p);
    lemma_ws0(s, p);
    lemma_ws0_laid_out(s, p);
    if p < c && 0 <= c < s.len() && crate::text::is_ascii_alpha(s[c]) {
        lemma_property_laid_out(s, c);
        if let Ok((prop, e, c2)) = property(s, c) {
            if p < e <= s.len() {
                lemma_properties_laid_out(s, e);
                if let Ok((rest, q, c3)) = properties(s, e) {
                    let all = seq![prop] + rest;
                    assert forall|k: int| 0 <= k < all.len() implies property_spelled(s, #[trigger] all[k]) by {
                        if k > 0 {
                            assert(all[k] == rest[k - 1]);
                        }
                    }
                    lemma_join(s, c1, c2, p, c, e);
                    lemma_join(s, c1 + c2, c3, p, e, q);
                }
            }
        }
    } else {
        lemma_none_laid_out(s, p, p);
    }
}

proof fn lemma_node_laid_out(s: Seq<char>, i: int)
    requires
        0 <= i <= s.len(),
        utf8_len(s) <= usize::MAX,
    ensures
        node(s, i) matches Ok((n, e, cs)) ==> i <= e <= s.len() && node_spelled(s, n) && laid_out(s, cs, i, e),
    decreases s.len() - i, 1int,
{
    let (k, c0) = ws0(s, i);
    lemma_ws0(s, i);
    lemma_ws0_laid_out(s, i);
    if let Some((name, j)) = ident(s, k) {
        lemma_ident(s, k);
        lemma_properties_laid_out(s, j);
        if let Ok((props, p, c1)) = properties(s, j) {
            let (q, c2) = ws0(s, p);
            lemma_ws0(s, p);
            lemma_ws0_laid_out(s, p);
            if i < q <= s.len() {
                lemma_sources_laid_out(s, q);
                if let Ok((pipes, block, e, c3)) = sources(s, q) {
                    let n = node(s, i)->Ok_0.0;
                    assert(n.name == name && n.name_span == sp(s, k, j));
                    assert(n.properties == props && n.sources == pipes);
                    assert(spelled_at(s, k, j, n.name_span, n.name));
                    lemma_widen(s, c1, j, p, k, p);
                    lemma_join(s, c0, c1, i, k, p);
                    lemma_join(s, c0 + c1, c2, i, p, q);
                    lemma_join(s, c0 + c1 + c2, c3, i, q, e);
                }
            }
        }
    }
}

proof fn lemma_sources_laid_out(s: Seq<char>, i: int)
    requires
        0 <= i <= s.len(),
        utf8_len(s) <= usize::MAX,
    ensures
        sources(s, i) matches Ok((pipes, _, e, cs)) ==> i <= e <= s.len() && laid_out(s, cs, i, e)
            && forall|k: int| 0 <= k < pipes.len() ==> pipe_spelled(s, #[trigger] pipes[k]),
    decreases s.len() - i, 0int,
{
    if !at(s, i, '[') {
        lemma_none_laid_out(s, i, i);
    } else {
        let (k, c1) = ws0(s, i + 1);
        lemma_ws0(s, i + 1);
        lemma_ws0_laid_out(s, i + 1);
        if i < k <= s.len() {
            if !at(s, k, ']') {
                lemma_source_list_laid_out(s, k);
            }
            let inner: Parsed<Seq<PipelineM>> = if at(s, k, ']') {
                Ok((seq![], k, seq![]))
            } else {
                source_list(s, k)
            };
            if let Ok((pipes, p, c2)) = inner {
                lemma_none_laid_out(s, k, p);
                assert(laid_out(s, c2, k, p));
                let (q, c3) = ws0(s, p);
                lemma_ws0(s, p);
                lemma_ws0_laid_out(s, p);
                if at(s, q, ']') {
                    lemma_widen(s, c1, i + 1, k, i, k);
                    lemma_join(s, c1, c2, i, k, p);
                    lemma_join(s, c1 + c2, c3, i, p, q);
                    lemma_widen(s, c1 + c2 + c3, i, q, i, q + 1);
                }
            }
        }
    }
}

proof fn lemma_source_list_laid_out(s: Seq<char>, p: int)
    requires
        0 <= p <= s.len(),
        utf8_len(s) <= usize::MAX,
    ensures
        source_list(s, p) matches Ok((pipes, q, cs)) ==> p <= q <= s.len() && laid_out(s, cs, p, q)
            && forall|k: int| 0 <= k < pipes.len() ==> pipe_spelled(s, #[trigger] pipes[k]),
    decreases s.len() - p, 3int,
{
    lemma_pipeline_laid_out(s, p);
    if let Ok((first, e, c1)) = pipeline(s, p) {
        let (c, c2) = ws0(s, e);
        lemma_ws0(s, e);
        lemma_ws0_laid_out(s, e);
        lemma_join(s, c1, c2, p, e, c);
        if at(s, c, ',') {
            let (k, c3) = ws0(s, c + 1);
            lemma_ws0(s, c + 1);
            lemma_ws0_laid_out(s, c + 1);
            if p < k <= s.len() {
                lemma_source_list_laid_out(s, k);
                if let Ok((rest, q, c4)) = source_list(s, k) {
                    let all = seq![first] + rest;
                    assert forall|m: int| 0 <= m < all.len() implies pipe_spelled(s, #[trigger] all[m]) by {
                        if m > 0 {
                            assert(all[m] == rest[m - 1]);
                        }
                    }
                    lemma_widen(s, c3, c + 1, k, c, k);
                    lemma_join(s, c1 + c2, c3, p, c, k);
                    lemma_join(s, c1 + c2 + c3, c4, p, k, q);
                }
            }
        } else {
            assert(seq![first][0] == first);
        }
    }
}

proof fn lemma_chain_laid_out(s: Seq<char>, p: int)
    requires
        0 <= p <= s.len(),
        utf8_len(s) <= usize::MAX,
    ensures
        chain(s, p) matches Ok((nodes, q, cs)) ==> p <= q <= s.len() && laid_out(s, cs, p, q)
            && forall|k: int| 0 <= k < nodes.len() ==> node_spelled(s, #[trigger] nodes[k]),
    decreases s.len() - p, 2int,
{
    let (c, c1) = ws0(s, p);
    lemma_ws0(s, p);
    lemma_ws0_laid_out(s, p);
    if at(s, c, '|') {
        let (k, c2) = ws0(s, c + 1);
        lemma_ws0(s, c + 1);
        lemma_ws0_laid_out(s, c + 1);
        if p < k <= s.len() {
            lemma_node_laid_out(s, k);
            if let Ok((next, e, c3)) = node(s, k) {
                if p < e <= s.len() {
                    lemma_chain_laid_out(s, e);
                    if let Ok((rest, q, c4)) = chain(s, e) {
                        let all = seq![next] + rest;
                        assert forall|m: int| 0 <= m < all.len() implies node_spelled(s, #[trigger] all[m]) by {
                            if m > 0 {
                                assert(all[m] == rest[m - 1]);
                            }
                        }
                        lemma_widen(s, c2, c + 1, k, c, k);
                        lemma_join(s, c1, c2, p, c, k);
                        lemma_join(s, c1 + c2, c3, p, k, e);
                        lemma_join(s, c1 + c2 + c3, c4, p, e, q);
                    }
                }
            }
        }
    } else {
        lemma_none_laid_out(s, p, p);
    }
}

proof fn lemma_pipeline_laid_out(s: Seq<char>, i: int)
    requires
        0 <= i <= s.len(),
        utf8_len(s) <= usize::MAX,
    ensures
        pipeline(s, i) matches Ok((pipe, e, cs)) ==> i <= e <= s.len() && pipe_spelled(s, pipe)
            && laid_out(s, cs, i, e),
    decreases s.len() - i, 2int,
{
    let (k, c0) = ws0(s, i);
    lemma_ws0(s, i);
    lemma_ws0_laid_out(s, i);
    if i <= k <= s.len() {
        lemma_node_laid_out(s, k);
        if let Ok((first, e, c1)) = node(s, k) {
            if i < e <= s.len() {
                lemma_chain_laid_out(s, e);
                if let Ok((rest, q, c2)) = chain(s, e) {
                    let nodes = seq![first] + rest;
                    assert forall|m: int| 0 <= m < nodes.len() implies node_spelled(s, #[trigger] nodes[m]) by {
                        if m > 0 {
                            assert(nodes[m] == rest[m - 1]);
                        }
                    }
                    lemma_join(s, c0, c1, i, k, e);
                    lemma_join(s, c0 + c1, c2, i, e, q);
                }
            }
        }
    }
}

/// Whatever a document parses to: every node at any depth has its name exactly where its name
/// span says, and its span runs from its name to the end of its sources block, else of its last
/// parameter, else of its name; every parameter has its key where its key span says, its value's
/// span covers the value as written (quotes or brackets included), and its span runs from the
/// start of its key to the end of its value; every comment's span covers `#` and the comment's
/// text, which is one line; and the comments come in order of position, each once.
///
/// (A text held in memory is never longer than the address space, whence the bound.)
pub proof fn lemma_document_spans(s: Seq<char>)
    requires
        utf8_len(s) <= usize::MAX,
    ensures
        document(s) matches Ok((pipe, cs)) ==> pipe_spelled(s, pipe) && comments_spelled(s, cs) && in_order(cs),
{
    lemma_pipeline_laid_out(s, 0);
    if let Ok((pipe, e, c1)) = pipeline(s, 0) {
        let (q, c2) = ws0(s, e);
        lemma_ws0(s, e);
        lemma_ws0_laid_out(s, e);
        lemma_join(s, c1, c2, 0, e, q);
    }
}

} // verus!
