//! The language, stated: what parsing VPL means, as functions from text to tree.
//!
//! ```text
//! pipeline := ws0 node (ws0 '|' ws0 node)* ws0
//! node     := ws0 ident ws0 (property (ws1 property)*)? ws0 sources? ws0
//! sources  := '[' ws0 (pipeline (ws0 ',' ws0 pipeline)*)? ws0 ']'
//! property := ident ws0 '=' ws0 value
//! value    := array | string
//! array    := '[' ws0 (string (ws0 ',' ws0 string)*)? ws0 ']'
//! string   := '"' … '"' | '\'' … '\'' | unquoted
//! ws0/ws1  := (whitespace | '#' …)*
//! ```
//!
//! The grammar is ordered and committing, as the pipeline runner's own is: once a bare word appears
//! where a parameter belongs there is no backing out, so `read foo` is an error rather than a node
//! called `read` with `foo` left over. Each function below therefore reads from one position and
//! either fails there, with the message and the span an editor underlines, or yields its tree, the
//! position after it, and the comments it passed over.
//!
//! Positions are character indices into the text; every span in the tree is in bytes, which
//! [`byte_offset`] converts to.

use vstd::prelude::*;
use crate::text::{byte_offset, is_ascii_alnum, is_ascii_alpha, is_white};
use super::ast::{CommentM, NodeM, PipelineM, PropertyM, Quote, Span, StrM, ValueM};

verus! {

/// The characters a run of one kind is made of.
#[derive(Debug, Clone, Copy, PartialEq, Eq, Structural)]
pub enum Class {
    White,
    IdentTail,
    Unquoted,
    NotNewline,
    NotSingleQuote,
}

/// Characters allowed in a bare, unquoted value.
pub open spec fn unquoted_char(c: char) -> bool {
    is_ascii_alnum(c) || c == '.' || c == '-' || c == '_'
}

/// Characters allowed after the first in an identifier.
pub open spec fn ident_tail_char(c: char) -> bool {
    is_ascii_alnum(c) || c == '_' || c == '-'
}

pub open spec fn in_class(c: char, k: Class) -> bool {
    match k {
        Class::White => is_white(c),
        Class::IdentTail => ident_tail_char(c),
        Class::Unquoted => unquoted_char(c),
        Class::NotNewline => c != '\n',
        Class::NotSingleQuote => c != '\'',
    }
}

/// Where a run of `k` that starts at `i` ends.
#[verifier::opaque]
pub open spec fn skip(s: Seq<char>, i: int, k: Class) -> int
    decreases s.len() - i,
{
    if 0 <= i < s.len() && in_class(s[i], k) {
        skip(s, i + 1, k)
    } else {
        i
    }
}

pub proof fn lemma_skip(s: Seq<char>, i: int, k: Class)
    requires
        0 <= i <= s.len(),
    ensures
        i <= skip(s, i, k) <= s.len(),
        forall|j: int| i <= j < skip(s, i, k) ==> in_class(#[trigger] s[j], k),
        skip(s, i, k) < s.len() ==> !in_class(s[skip(s, i, k)], k),
    decreases s.len() - i,
{
    reveal(skip);
    if i < s.len() && in_class(s[i], k) {
        lemma_skip(s, i + 1, k);
    }
}

/// The byte offset of character `i`.
pub open spec fn bo(s: Seq<char>, i: int) -> usize {
    byte_offset(s, i) as usize
}

/// The span from character `i` to character `j`, in bytes.
pub open spec fn sp(s: Seq<char>, i: int, j: int) -> Span {
    Span { start: bo(s, i), end: bo(s, j) }
}

/// Whether the character at `i` is `c`.
pub open spec fn at(s: Seq<char>, i: int, c: char) -> bool {
    0 <= i < s.len() && s[i] == c
}

pub ghost struct ParseErrorM {
    pub message: Seq<char>,
    pub span: Span,
}

/// A failure at `i`: a zero-width span, widened to one character where there is one, so an editor
/// has something to underline.
pub open spec fn error_at(s: Seq<char>, i: int, message: Seq<char>) -> ParseErrorM {
    ParseErrorM {
        message,
        span: Span { start: bo(s, i), end: if 0 <= i < s.len() { bo(s, i + 1) } else { bo(s, i) } },
    }
}

/// What a part of the grammar yields: its tree, where it stopped, and the comments it passed.
pub type Parsed<T> = Result<(T, int, Seq<CommentM>), ParseErrorM>;

/// Whitespace and comments, any amount including none.
#[verifier::opaque]
pub open spec fn ws0(s: Seq<char>, i: int) -> (int, Seq<CommentM>)
    decreases s.len() - i,
{
    if 0 <= i <= s.len() {
        let k = skip(s, i, Class::White);
        if at(s, k, '#') {
            let e = skip(s, k + 1, Class::NotNewline);
            let comment = CommentM { text: s.subrange(k + 1, e), span: sp(s, k, e) };
            proof {
                lemma_skip(s, i, Class::White);
                lemma_skip(s, k + 1, Class::NotNewline);
            }
            let rest = ws0(s, e);
            (rest.0, seq![comment] + rest.1)
        } else {
            (k, seq![])
        }
    } else {
        (i, seq![])
    }
}

pub proof fn lemma_ws0(s: Seq<char>, i: int)
    requires
        0 <= i <= s.len(),
    ensures
        i <= ws0(s, i).0 <= s.len(),
        !at(s, ws0(s, i).0, '#'),
        ws0(s, i).0 < s.len() ==> !is_white(s[ws0(s, i).0]),
    decreases s.len() - i,
{
    reveal(ws0);
    lemma_skip(s, i, Class::White);
    let k = skip(s, i, Class::White);
    if at(s, k, '#') {
        lemma_skip(s, k + 1, Class::NotNewline);
        lemma_ws0(s, skip(s, k + 1, Class::NotNewline));
    }
}

/// An identifier: an ASCII letter, then letters, digits, `_` or `-`.
pub open spec fn ident(s: Seq<char>, i: int) -> Option<(Seq<char>, int)> {
    if 0 <= i < s.len() && is_ascii_alpha(s[i]) {
        let j = skip(s, i + 1, Class::IdentTail);
        Some((s.subrange(i, j), j))
    } else {
        None
    }
}

pub proof fn lemma_ident(s: Seq<char>, i: int)
    requires
        0 <= i <= s.len(),
    ensures
        ident(s, i) matches Some((name, j)) ==> i < j <= s.len() && name == s.subrange(i, j),
{
    if 0 <= i < s.len() && is_ascii_alpha(s[i]) {
        lemma_skip(s, i + 1, Class::IdentTail);
    }
}

pub open spec fn msg_expected_value() -> Seq<char> {
    "expected a value"@
}

pub open spec fn msg_single_unterminated() -> Seq<char> {
    "unterminated single-quoted string"@
}

pub open spec fn msg_double_unterminated() -> Seq<char> {
    "unterminated double-quoted string"@
}

pub open spec fn msg_unknown_escape() -> Seq<char> {
    "unknown escape — VPL understands \\\\, \\\", \\n and \\t"@
}

pub open spec fn msg_array_close() -> Seq<char> {
    "expected ']' to close the array"@
}

pub open spec fn msg_parameter_name() -> Seq<char> {
    "expected a parameter name"@
}

pub open spec fn msg_equals(key: Seq<char>) -> Seq<char> {
    "expected '=' after the parameter '"@ + key + "'"@
}

pub open spec fn msg_operation_name() -> Seq<char> {
    "expected an operation name"@
}

pub open spec fn msg_sources_close() -> Seq<char> {
    "expected ']' to close the source list"@
}

pub open spec fn msg_trailing() -> Seq<char> {
    "unexpected input after the end of the pipeline"@
}

/// What a backslash followed by `c` stands for inside double quotes.
pub open spec fn escaped(c: char) -> Option<char> {
    if c == '\\' {
        Some('\\')
    } else if c == '"' {
        Some('"')
    } else if c == 'n' {
        Some('\n')
    } else if c == 't' {
        Some('\t')
    } else {
        None
    }
}

/// A bare value: one or more of [`unquoted_char`].
pub open spec fn unquoted(s: Seq<char>, i: int) -> Result<(StrM, int), ParseErrorM> {
    let j = skip(s, i, Class::Unquoted);
    if j == i {
        Err(error_at(s, i, msg_expected_value()))
    } else {
        Ok((StrM { value: s.subrange(i, j), quote: Quote::Bare, span: sp(s, i, j) }, j))
    }
}

/// `'…'` at `i`: everything up to the closing quote, verbatim; `''` is the empty string.
pub open spec fn single_quoted(s: Seq<char>, i: int) -> Result<(StrM, int), ParseErrorM> {
    let j = skip(s, i + 1, Class::NotSingleQuote);
    if j < s.len() {
        Ok((StrM { value: s.subrange(i + 1, j), quote: Quote::Single, span: sp(s, i, j + 1) }, j + 1))
    } else {
        Err(error_at(s, j, msg_single_unterminated()))
    }
}

/// The body of a `"…"` opened at `start`, read from `k`, with `acc` decoded so far.
pub open spec fn double_body(s: Seq<char>, start: int, k: int, acc: Seq<char>) -> Result<(StrM, int), ParseErrorM>
    decreases s.len() - k,
{
    if k < 0 || k >= s.len() {
        Err(error_at(s, k, msg_double_unterminated()))
    } else if s[k] == '"' {
        Ok((StrM { value: acc, quote: Quote::Double, span: sp(s, start, k + 1) }, k + 1))
    } else if s[k] == '\\' {
        if k + 1 < s.len() && escaped(s[k + 1]) is Some {
            double_body(s, start, k + 2, acc.push(escaped(s[k + 1])->0))
        } else {
            Err(ParseErrorM {
                message: msg_unknown_escape(),
                span: sp(s, k, if k + 1 < s.len() { k + 2 } else { k + 1 }),
            })
        }
    } else {
        double_body(s, start, k + 1, acc.push(s[k]))
    }
}

/// A string at `i`, in whichever of the three spellings it starts with.
pub open spec fn string(s: Seq<char>, i: int) -> Result<(StrM, int), ParseErrorM> {
    if at(s, i, '"') {
        double_body(s, i, i + 1, seq![])
    } else if at(s, i, '\'') {
        single_quoted(s, i)
    } else {
        unquoted(s, i)
    }
}

/// Where a value's span ends.
pub open spec fn value_span(v: ValueM) -> Span {
    match v {
        ValueM::Single(s) => s.span,
        ValueM::Array { span, .. } => span,
    }
}

/// The strings of an array from `p`, up to but not including the closing bracket.
#[verifier::opaque]
pub open spec fn items(s: Seq<char>, p: int) -> Parsed<Seq<StrM>>
    decreases s.len() - p,
{
    match string(s, p) {
        Err(e) => Err(e),
        Ok((item, j)) => {
            let (c, c1) = ws0(s, j);
            if at(s, c, ',') {
                let (k, c2) = ws0(s, c + 1);
                if p < k <= s.len() {
                    match items(s, k) {
                        Err(e) => Err(e),
                        Ok((rest, q, c3)) => Ok((seq![item] + rest, q, c1 + c2 + c3)),
                    }
                } else {
                    Err(error_at(s, k, seq![]))
                }
            } else {
                Ok((seq![item], c, c1))
            }
        },
    }
}

/// A value at `i`: a bracketed array of strings, or one string.
#[verifier::opaque]
pub open spec fn value(s: Seq<char>, i: int) -> Parsed<ValueM> {
    if at(s, i, '[') {
        let (k, c1) = ws0(s, i + 1);
        let inner: Parsed<Seq<StrM>> = if at(s, k, ']') {
            Ok((seq![], k, seq![]))
        } else {
            items(s, k)
        };
        match inner {
            Err(e) => Err(e),
            Ok((list, p, c2)) => {
                let (q, c3) = ws0(s, p);
                if at(s, q, ']') {
                    Ok((ValueM::Array { items: list, span: sp(s, i, q + 1) }, q + 1, c1 + c2 + c3))
                } else {
                    Err(error_at(s, q, msg_array_close()))
                }
            },
        }
    } else {
        match string(s, i) {
            Err(e) => Err(e),
            Ok((item, j)) => Ok((ValueM::Single(item), j, seq![])),
        }
    }
}

/// One `key=value` at `i`.
#[verifier::opaque]
pub open spec fn property(s: Seq<char>, i: int) -> Parsed<PropertyM> {
    match ident(s, i) {
        None => Err(error_at(s, i, msg_parameter_name())),
        Some((key, j)) => {
            let (k, c1) = ws0(s, j);
            if !at(s, k, '=') {
                Err(error_at(s, k, msg_equals(key)))
            } else {
                let (k2, c2) = ws0(s, k + 1);
                match value(s, k2) {
                    Err(e) => Err(e),
                    Ok((v, e, c3)) => Ok((
                        PropertyM {
                            key,
                            key_span: sp(s, i, j),
                            value: v,
                            span: Span { start: bo(s, i), end: value_span(v).end },
                        },
                        e,
                        c1 + c2 + c3,
                    )),
                }
            }
        },
    }
}

/// A node's parameters from `p`: each must follow at least one whitespace character or comment
/// and start with a letter, and once one does it is committed to; `a='x'b=2` is no pair of
/// parameters. The whitespace before something that is not a parameter is left where it is,
/// comments and all.
#[verifier::opaque]
pub open spec fn properties(s: Seq<char>, p: int) -> Parsed<Seq<PropertyM>>
    decreases s.len() - p,
{
    let (c, c1) = ws0(s, p);
    if p < c && 0 <= c < s.len() && is_ascii_alpha(s[c]) {
        match property(s, c) {
            Err(e) => Err(e),
            Ok((prop, e, c2)) => {
                if p < e <= s.len() {
                    match properties(s, e) {
                        Err(err) => Err(err),
                        Ok((rest, q, c3)) => Ok((seq![prop] + rest, q, c1 + c2 + c3)),
                    }
                } else {
                    Err(error_at(s, e, seq![]))
                }
            },
        }
    } else {
        Ok((seq![], p, seq![]))
    }
}

/// Where a node ends: its sources block, else its last parameter, else its name.
pub open spec fn node_end(name_end: usize, props: Seq<PropertyM>, sources_span: Option<Span>) -> usize {
    match sources_span {
        Some(block) => block.end,
        None => if props.len() > 0 {
            props.last().span.end
        } else {
            name_end
        },
    }
}

/// One node at `i`.
pub open spec fn node(s: Seq<char>, i: int) -> Parsed<NodeM>
    decreases s.len() - i, 1int,
{
    let (k, c0) = ws0(s, i);
    match ident(s, k) {
        None => Err(error_at(s, k, msg_operation_name())),
        Some((name, j)) => match properties(s, j) {
            Err(e) => Err(e),
            Ok((props, p, c1)) => {
                let (q, c2) = ws0(s, p);
                if i < q <= s.len() {
                    match sources(s, q) {
                        Err(e) => Err(e),
                        Ok((pipes, block, e, c3)) => Ok((
                            NodeM {
                                name,
                                name_span: sp(s, k, j),
                                properties: props,
                                sources: pipes,
                                sources_span: block,
                                span: Span { start: bo(s, k), end: node_end(bo(s, j), props, block) },
                            },
                            e,
                            c0 + c1 + c2 + c3,
                        )),
                    }
                } else {
                    Err(error_at(s, q, seq![]))
                }
            },
        },
    }
}

/// A `[…]` block of pipelines at `i`, or nothing when there is no `[` there.
pub open spec fn sources(s: Seq<char>, i: int) -> Result<
    (Seq<PipelineM>, Option<Span>, int, Seq<CommentM>),
    ParseErrorM,
>
    decreases s.len() - i, 0int,
{
    if !at(s, i, '[') {
        Ok((seq![], None, i, seq![]))
    } else {
        let (k, c1) = ws0(s, i + 1);
        if i < k <= s.len() {
            let inner: Parsed<Seq<PipelineM>> = if at(s, k, ']') {
                Ok((seq![], k, seq![]))
            } else {
                source_list(s, k)
            };
            match inner {
                Err(e) => Err(e),
                Ok((pipes, p, c2)) => {
                    let (q, c3) = ws0(s, p);
                    if at(s, q, ']') {
                        Ok((pipes, Some(sp(s, i, q + 1)), q + 1, c1 + c2 + c3))
                    } else {
                        Err(error_at(s, q, msg_sources_close()))
                    }
                },
            }
        } else {
            Err(error_at(s, k, seq![]))
        }
    }
}

/// The pipelines of a sources block from `p`, up to but not including the closing bracket.
pub open spec fn source_list(s: Seq<char>, p: int) -> Parsed<Seq<PipelineM>>
    decreases s.len() - p, 3int,
{
    match pipeline(s, p) {
        Err(e) => Err(e),
        Ok((first, e, c1)) => {
            let (c, c2) = ws0(s, e);
            if at(s, c, ',') {
                let (k, c3) = ws0(s, c + 1);
                if p < k <= s.len() {
                    match source_list(s, k) {
                        Err(err) => Err(err),
                        Ok((rest, q, c4)) => Ok((seq![first] + rest, q, c1 + c2 + c3 + c4)),
                    }
                } else {
                    Err(error_at(s, k, seq![]))
                }
            } else {
                Ok((seq![first], c, c1 + c2))
            }
        },
    }
}

/// The nodes after the first, each introduced by `|`.
pub open spec fn chain(s: Seq<char>, p: int) -> Parsed<Seq<NodeM>>
    decreases s.len() - p, 2int,
{
    let (c, c1) = ws0(s, p);
    if at(s, c, '|') {
        let (k, c2) = ws0(s, c + 1);
        if p < k <= s.len() {
            match node(s, k) {
                Err(e) => Err(e),
                Ok((next, e, c3)) => {
                    if p < e <= s.len() {
                        match chain(s, e) {
                            Err(err) => Err(err),
                            Ok((rest, q, c4)) => Ok((seq![next] + rest, q, c1 + c2 + c3 + c4)),
                        }
                    } else {
                        Err(error_at(s, e, seq![]))
                    }
                },
            }
        } else {
            Err(error_at(s, k, seq![]))
        }
    } else {
        Ok((seq![], p, seq![]))
    }
}

/// A chain of nodes at `i`.
pub open spec fn pipeline(s: Seq<char>, i: int) -> Parsed<PipelineM>
    decreases s.len() - i, 2int,
{
    let (k, c0) = ws0(s, i);
    if i <= k <= s.len() {
        match node(s, k) {
            Err(e) => Err(e),
            Ok((first, e, c1)) => {
                if i < e <= s.len() {
                    match chain(s, e) {
                        Err(err) => Err(err),
                        Ok((rest, q, c2)) => {
                            let nodes = seq![first] + rest;
                            Ok((
                                PipelineM { nodes, span: Span { start: bo(s, k), end: nodes.last().span.end } },
                                q,
                                c0 + c1 + c2,
                            ))
                        },
                    }
                } else {
                    Err(error_at(s, e, seq![]))
                }
            },
        }
    } else {
        Err(error_at(s, k, seq![]))
    }
}

/// A whole document, which must be one pipeline and nothing else.
pub open spec fn document(s: Seq<char>) -> Result<(PipelineM, Seq<CommentM>), ParseErrorM> {
    match pipeline(s, 0) {
        Err(e) => Err(e),
        Ok((pipe, e, c1)) => {
            let (q, c2) = ws0(s, e);
            if q < s.len() {
                Err(error_at(s, q, msg_trailing()))
            } else {
                Ok((pipe, c1 + c2))
            }
        },
    }
}

} // verus!
