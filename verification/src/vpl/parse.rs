//! A recursive-descent parser for VPL that records where everything is.
//!
//! Every method reads from the current position and either fails there or yields exactly what
//! [`super::grammar`] says that part of the language is, leaving the position after it.
//!
//! **The position is kept twice**: as a character index, which is what the grammar counts, and as
//! a byte offset, which is what every span holds - so a span can always be sliced out of the text.

use vstd::prelude::*;
use crate::text::{
    ascii_alnum, ascii_alpha, byte_offset, chars_of, lemma_byte_offset_bounded, lemma_byte_offset_step,
    owned, push_char, push_str, string_between, utf8_len, utf8_length, white, width_of,
};
use super::ast::{
    comments_model, nodes_model, pipes_model, properties_model, strs_model, lemma_node_model, lemma_pipeline_model,
    Comment, CommentM, Node, Pipeline, Property, Quote, Span, Str, Value,
};
use super::grammar::{
    at, bo, chain, document, double_body, error_at, escaped, ident, in_class, lemma_ident, lemma_skip, lemma_ws0,
    msg_array_close, msg_double_unterminated, msg_equals, msg_expected_value, msg_operation_name,
    msg_parameter_name, msg_single_unterminated, msg_sources_close, msg_trailing,
    msg_unknown_escape, node, node_end, pipeline, properties, property, single_quoted, skip, source_list, sources, sp,
    string, unquoted, unquoted_char, items, value, value_span, ws0, Class, ParseErrorM,
};

verus! {

/// A parse failure, positioned: one sentence, and the span an editor should underline.
#[derive(Debug)]
pub struct ParseError {
    pub message: String,
    pub span: Span,
}

impl View for ParseError {
    type V = ParseErrorM;

    open spec fn view(&self) -> ParseErrorM {
        ParseErrorM { message: self.message@, span: self.span }
    }
}

/// Characters allowed in a bare, unquoted value. Public so the printer can ask the same question
/// the parser does, rather than keeping a second copy of the answer.
pub fn is_unquoted_char(c: char) -> (b: bool)
    ensures
        b == unquoted_char(c),
        b == (('a' <= c && c <= 'z') || ('A' <= c && c <= 'Z') || ('0' <= c && c <= '9') || c == '.' || c == '-'
            || c == '_'),
{
    ascii_alnum(c) || c == '.' || c == '-' || c == '_'
}

/// Characters allowed after the first in an identifier.
fn is_ident_tail(c: char) -> (b: bool)
    ensures
        b == in_class(c, Class::IdentTail),
{
    ascii_alnum(c) || c == '_' || c == '-'
}

fn class_test(c: char, k: Class) -> (b: bool)
    ensures
        b == in_class(c, k),
{
    match k {
        Class::White => white(c),
        Class::IdentTail => is_ident_tail(c),
        Class::Unquoted => is_unquoted_char(c),
        Class::NotNewline => c != '\n',
        Class::NotSingleQuote => c != '\'',
    }
}

fn escape_of(c: char) -> (r: Option<char>)
    ensures
        r == escaped(c),
{
    if c == '\\' {
        Some('\\')
    } else if c == '"' {
        Some('"')
    } else if c == 'n' {
        Some('\n')
    } else if c == 't' {
        Some('\t')
    } else {
        None
    }
}

pub struct Parser {
    input: Vec<char>,
    pos: usize,
    byte: usize,
    comments: Vec<Comment>,
}

impl Parser {
    /// The text being parsed.
    pub closed spec fn source(&self) -> Seq<char> {
        self.input@
    }

    pub closed spec fn wf(&self) -> bool {
        &&& self.pos <= self.input@.len()
        &&& self.byte == byte_offset(self.input@, self.pos as int)
        &&& utf8_len(self.input@) <= usize::MAX
    }

    /// Freshly made: at the start, with nothing collected.
    pub closed spec fn ready(&self) -> bool {
        &&& self.wf()
        &&& self.pos == 0
        &&& self.comments@.len() == 0
    }

    pub fn new(input: &str) -> (p: Parser)
        ensures
            p.ready(),
            p.source() == input@,
    {
        let n = utf8_length(input);
        let chars = chars_of(input);
        proof {
            assert(chars@.take(0) =~= Seq::<char>::empty());
        }
        Parser { input: chars, pos: 0, byte: 0, comments: Vec::new() }
    }

    /// Parses a whole document, which must be one pipeline and nothing else.
    pub fn parse_document(self) -> (r: Result<(Pipeline, Vec<Comment>), ParseError>)
        requires
            self.ready(),
        ensures
            match document(self.source()) {
                Ok((pipe, cs)) => r matches Ok((p, c)) && p@ == pipe && comments_model(c@) == cs,
                Err(e) => r matches Err(x) && x@ == e,
            },
    {
        let mut this = self;
        let pipe = this.pipeline();
        match pipe {
            Err(e) => Err(e),
            Ok(pipe) => {
                this.ws0();
                if this.pos < this.input.len() {
                    return Err(this.error_here(owned("unexpected input after the end of the pipeline")));
                }
                proof {
                    assert(comments_model(this.comments@) =~= comments_model(this.comments@));
                }
                Ok((pipe, this.comments))
            },
        }
    }

    // -- primitives ------------------------------------------------------------------------------

    fn at_char(&self, c: char) -> (b: bool)
        requires
            self.wf(),
        ensures
            b == at(self.input@, self.pos as int, c),
    {
        self.pos < self.input.len() && self.input[self.pos] == c
    }

    fn advance(&mut self)
        requires
            old(self).wf(),
            old(self).pos < old(self).input@.len(),
        ensures
            final(self).wf(),
            final(self).input@ == old(self).input@,
            final(self).comments@ == old(self).comments@,
            final(self).pos == old(self).pos + 1,
    {
        let n = self.input.len();
        let c = self.input[self.pos];
        let w = width_of(c);
        proof {
            lemma_byte_offset_step(self.input@, self.pos as int);
            lemma_byte_offset_bounded(self.input@, self.pos + 1);
        }
        self.byte = self.byte + w;
        self.pos = self.pos + 1;
    }

    fn skip_class(&mut self, k: Class)
        requires
            old(self).wf(),
        ensures
            final(self).wf(),
            final(self).input@ == old(self).input@,
            final(self).comments@ == old(self).comments@,
            final(self).pos == skip(old(self).input@, old(self).pos as int, k),
            old(self).pos <= final(self).pos,
    {
        let ghost start = self.pos as int;
        proof {
            reveal(skip);
            lemma_skip(self.input@, start, k);
        }
        while self.pos < self.input.len() && class_test(self.input[self.pos], k)
            invariant
                self.wf(),
                self.input@ == old(self).input@,
                self.comments@ == old(self).comments@,
                skip(self.input@, self.pos as int, k) == skip(self.input@, start, k),
                start == old(self).pos,
                start <= self.pos,
            decreases self.input@.len() - self.pos,
        {
            proof {
                reveal(skip);
            }
            self.advance();
        }
        proof {
            reveal(skip);
        }
    }

    fn error_here(&self, message: String) -> (e: ParseError)
        requires
            self.wf(),
        ensures
            e@ == error_at(self.input@, self.pos as int, message@),
    {
        let end = if self.pos < self.input.len() {
            proof {
                lemma_byte_offset_step(self.input@, self.pos as int);
                lemma_byte_offset_bounded(self.input@, self.pos + 1);
            }
            self.byte + width_of(self.input[self.pos])
        } else {
            self.byte
        };
        ParseError { message, span: Span::new(self.byte, end) }
    }

    /// Whitespace and comments, any amount including none.
    fn ws0(&mut self) -> (moved: bool)
        requires
            old(self).wf(),
        ensures
            final(self).wf(),
            final(self).input@ == old(self).input@,
            final(self).pos == ws0(old(self).input@, old(self).pos as int).0,
            comments_model(final(self).comments@) == comments_model(old(self).comments@) + ws0(
                old(self).input@,
                old(self).pos as int,
            ).1,
            moved == (final(self).pos != old(self).pos),
            old(self).pos <= final(self).pos,
            final(self).comments@.len() >= old(self).comments@.len(),
            final(self).comments@.take(old(self).comments@.len() as int) == old(self).comments@,
    {
        let ghost s = self.input@;
        let start_pos = self.pos;
        let ghost start = self.pos as int;
        let ghost before_all = comments_model(self.comments@);
        let ghost raw = self.comments@;
        loop
            invariant
                self.wf(),
                self.input@ == s,
                start <= self.pos,
                self.comments@.len() >= raw.len(),
                self.comments@.take(raw.len() as int) == raw,
                ws0(s, self.pos as int).0 == ws0(s, start).0,
                comments_model(self.comments@) + ws0(s, self.pos as int).1 == before_all + ws0(s, start).1,
            ensures
                self.wf(),
                self.input@ == s,
                start <= self.pos,
                self.comments@.len() >= raw.len(),
                self.comments@.take(raw.len() as int) == raw,
                self.pos == ws0(s, start).0,
                comments_model(self.comments@) == before_all + ws0(s, start).1,
            decreases s.len() - self.pos,
        {
            let before = self.pos;
            let ghost before_comments = comments_model(self.comments@);
            proof {
                reveal(ws0);
                reveal(skip);
                lemma_skip(s, before as int, Class::White);
            }
            self.skip_class(Class::White);
            if self.at_char('#') {
                let hash = self.byte;
                self.advance();
                let text_start = self.pos;
                proof {
                    lemma_skip(s, text_start as int, Class::NotNewline);
                }
                self.skip_class(Class::NotNewline);
                let text = string_between(&self.input, text_start, self.pos);
                let comment = Comment { text, span: Span::new(hash, self.byte) };
                let ghost prior = self.comments@;
                self.comments.push(comment);
                proof {
                    assert(self.comments@.take(raw.len() as int) =~= prior.take(raw.len() as int));
                    assert(comments_model(self.comments@) =~= before_comments.push(comment@));
                    assert(before_comments.push(comment@) + ws0(s, self.pos as int).1 =~= before_comments
                        + ws0(s, before as int).1);
                }
            } else {
                proof {
                    assert(ws0(s, self.pos as int).1 =~= Seq::<CommentM>::empty());
                    assert(ws0(s, before as int).1 =~= Seq::<CommentM>::empty());
                }
            }
            if self.pos == before {
                proof {
                    assert(comments_model(self.comments@) + ws0(s, self.pos as int).1 =~= comments_model(
                        self.comments@,
                    ));
                }
                break;
            }
        }
        self.pos != start_pos
    }

    /// Identifier: an ASCII letter, then letters, digits, `_` or `-`.
    fn ident(&mut self) -> (r: Option<(String, Span)>)
        requires
            old(self).wf(),
        ensures
            final(self).wf(),
            final(self).input@ == old(self).input@,
            final(self).comments@ == old(self).comments@,
            match ident(old(self).input@, old(self).pos as int) {
                None => r is None && final(self).pos == old(self).pos,
                Some((name, j)) => r matches Some((n, span)) && n@ == name && span == sp(
                    old(self).input@,
                    old(self).pos as int,
                    j,
                ) && final(self).pos == j,
            },
    {
        let start = self.pos;
        let start_byte = self.byte;
        if !(self.pos < self.input.len() && ascii_alpha(self.input[self.pos])) {
            return None;
        }
        self.advance();
        self.skip_class(Class::IdentTail);
        let name = string_between(&self.input, start, self.pos);
        Some((name, Span::new(start_byte, self.byte)))
    }

    // -- strings ---------------------------------------------------------------------------------

    fn string(&mut self) -> (r: Result<Str, ParseError>)
        requires
            old(self).wf(),
        ensures
            final(self).wf(),
            final(self).input@ == old(self).input@,
            final(self).comments@ == old(self).comments@,
            r is Ok ==> old(self).pos < final(self).pos,
            match string(old(self).input@, old(self).pos as int) {
                Ok((st, j)) => r matches Ok(x) && x@ == st && final(self).pos == j,
                Err(e) => r matches Err(x) && x@ == e,
            },
    {
        if self.at_char('"') {
            self.double_quoted()
        } else if self.at_char('\'') {
            self.single_quoted()
        } else {
            self.unquoted()
        }
    }

    fn unquoted(&mut self) -> (r: Result<Str, ParseError>)
        requires
            old(self).wf(),
        ensures
            final(self).wf(),
            final(self).input@ == old(self).input@,
            final(self).comments@ == old(self).comments@,
            r is Ok ==> old(self).pos < final(self).pos,
            match unquoted(old(self).input@, old(self).pos as int) {
                Ok((st, j)) => r matches Ok(x) && x@ == st && final(self).pos == j,
                Err(e) => r matches Err(x) && x@ == e,
            },
    {
        let start = self.pos;
        let start_byte = self.byte;
        proof {
            lemma_skip(self.input@, start as int, Class::Unquoted);
        }
        self.skip_class(Class::Unquoted);
        if self.pos == start {
            return Err(self.error_here(owned("expected a value")));
        }
        let value = string_between(&self.input, start, self.pos);
        Ok(Str { value, quote: Quote::Bare, span: Span::new(start_byte, self.byte) })
    }

    /// `'…'` - everything up to the closing quote, verbatim. No escapes, so a `'` cannot appear.
    fn single_quoted(&mut self) -> (r: Result<Str, ParseError>)
        requires
            old(self).wf(),
            at(old(self).input@, old(self).pos as int, '\''),
        ensures
            final(self).wf(),
            final(self).input@ == old(self).input@,
            final(self).comments@ == old(self).comments@,
            r is Ok ==> old(self).pos < final(self).pos,
            match single_quoted(old(self).input@, old(self).pos as int) {
                Ok((st, j)) => r matches Ok(x) && x@ == st && final(self).pos == j,
                Err(e) => r matches Err(x) && x@ == e,
            },
    {
        let start_byte = self.byte;
        self.advance();
        let body = self.pos;
        proof {
            lemma_skip(self.input@, body as int, Class::NotSingleQuote);
        }
        self.skip_class(Class::NotSingleQuote);
        if !self.at_char('\'') {
            return Err(self.error_here(owned("unterminated single-quoted string")));
        }
        let value = string_between(&self.input, body, self.pos);
        self.advance();
        Ok(Str { value, quote: Quote::Single, span: Span::new(start_byte, self.byte) })
    }

    /// `"…"` with `\\`, `\"`, `\n` and `\t`; `""` is the empty string.
    fn double_quoted(&mut self) -> (r: Result<Str, ParseError>)
        requires
            old(self).wf(),
            at(old(self).input@, old(self).pos as int, '"'),
        ensures
            final(self).wf(),
            final(self).input@ == old(self).input@,
            final(self).comments@ == old(self).comments@,
            r is Ok ==> old(self).pos < final(self).pos,
            match double_body(old(self).input@, old(self).pos as int, old(self).pos + 1, seq![]) {
                Ok((st, j)) => r matches Ok(x) && x@ == st && final(self).pos == j,
                Err(e) => r matches Err(x) && x@ == e,
            },
    {
        let ghost s = self.input@;
        let start = self.pos;
        let start_byte = self.byte;
        self.advance();
        let mut value = String::new();
        loop
            invariant
                self.wf(),
                self.input@ == s,
                self.comments@ == old(self).comments@,
                s == old(self).input@,
                start == old(self).pos,
                start < self.pos,
                start_byte == bo(s, start as int),
                double_body(s, start as int, self.pos as int, value@) == double_body(
                    s,
                    start as int,
                    start + 1,
                    seq![],
                ),
            decreases s.len() - self.pos,
        {
            if self.pos >= self.input.len() {
                return Err(self.error_here(owned("unterminated double-quoted string")));
            }
            let c = self.input[self.pos];
            if c == '"' {
                self.advance();
                return Ok(Str { value, quote: Quote::Double, span: Span::new(start_byte, self.byte) });
            } else if c == '\\' {
                let escape_start = self.byte;
                self.advance();
                if self.pos < self.input.len() {
                    match escape_of(self.input[self.pos]) {
                        Some(e) => {
                            self.advance();
                            push_char(&mut value, e);
                        },
                        None => {
                            self.advance();
                            return Err(
                                ParseError {
                                    message: owned(
                                        "unknown escape — VPL understands \\\\, \\\", \\n and \\t",
                                    ),
                                    span: Span::new(escape_start, self.byte),
                                },
                            );
                        },
                    }
                } else {
                    return Err(
                        ParseError {
                            message: owned("unknown escape — VPL understands \\\\, \\\", \\n and \\t"),
                            span: Span::new(escape_start, self.byte),
                        },
                    );
                }
            } else {
                self.advance();
                push_char(&mut value, c);
            }
        }
    }

    // -- values ----------------------------------------------------------------------------------

    fn value(&mut self) -> (r: Result<Value, ParseError>)
        requires
            old(self).wf(),
        ensures
            final(self).wf(),
            final(self).input@ == old(self).input@,
            r is Ok ==> old(self).pos < final(self).pos,
            match value(old(self).input@, old(self).pos as int) {
                Ok((v, e, cs)) => r matches Ok(x) && x@ == v && final(self).pos == e && comments_model(
                    final(self).comments@,
                ) == comments_model(old(self).comments@) + cs,
                Err(err) => r matches Err(x) && x@ == err,
            },
    {
        proof {
            reveal(value);
        }
        let ghost s = self.input@;
        let ghost i = self.pos as int;
        let ghost c0 = comments_model(self.comments@);
        if self.at_char('[') {
            let start_byte = self.byte;
            self.advance();
            self.ws0();
            let ghost w1 = ws0(s, i + 1);
            let ghost c1 = comments_model(self.comments@);
            let mut list: Vec<Str> = Vec::new();
            let ghost inner = if at(s, w1.0, ']') {
                Ok((Seq::<super::ast::StrM>::empty(), w1.0, Seq::<CommentM>::empty()))
            } else {
                items(s, w1.0)
            };
            if !self.at_char(']') {
                match self.items(&mut list) {
                    Err(e) => return Err(e),
                    Ok(()) => {},
                }
                proof {
                    assert(strs_model(list@) =~= strs_model(Seq::<Str>::empty()) + inner->Ok_0.0);
                }
            } else {
                proof {
                    assert(strs_model(list@) =~= Seq::<super::ast::StrM>::empty());
                    assert(c1 =~= c1 + Seq::<CommentM>::empty());
                }
            }
            let ghost c2 = comments_model(self.comments@);
            self.ws0();
            if !self.at_char(']') {
                return Err(self.error_here(owned("expected ']' to close the array")));
            }
            self.advance();
            let v = Value::Array { items: list, span: Span::new(start_byte, self.byte) };
            proof {
                let w3 = ws0(s, inner->Ok_0.1);
                assert(comments_model(self.comments@) =~= c0 + (w1.1 + inner->Ok_0.2 + w3.1));
            }
            Ok(v)
        } else {
            match self.string() {
                Ok(st) => {
                    proof {
                        assert(comments_model(self.comments@) =~= c0 + Seq::<CommentM>::empty());
                    }
                    Ok(Value::Single(st))
                },
                Err(e) => Err(e),
            }
        }
    }

    /// The strings of an array, pushed onto `acc`.
    fn items(&mut self, acc: &mut Vec<Str>) -> (r: Result<(), ParseError>)
        requires
            old(self).wf(),
        ensures
            final(self).wf(),
            final(self).input@ == old(self).input@,
            r is Ok ==> old(self).pos < final(self).pos,
            match items(old(self).input@, old(self).pos as int) {
                Ok((list, q, cs)) => r is Ok && strs_model(final(acc)@) == strs_model(old(acc)@) + list
                    && final(self).pos == q && comments_model(final(self).comments@) == comments_model(
                    old(self).comments@,
                ) + cs,
                Err(err) => r matches Err(x) && x@ == err,
            },
        decreases old(self).input@.len() - old(self).pos,
    {
        proof {
            reveal(items);
        }
        let ghost s = self.input@;
        let ghost p = self.pos as int;
        let ghost c0 = comments_model(self.comments@);
        let ghost a0 = strs_model(acc@);
        let item = match self.string() {
            Err(e) => return Err(e),
            Ok(item) => item,
        };
        let ghost item_model = item@;
        let ghost j = self.pos as int;
        acc.push(item);
        proof {
            assert(strs_model(acc@) =~= a0.push(item_model));
        }
        self.ws0();
        let ghost w1 = ws0(s, j);
        if self.at_char(',') {
            self.advance();
            self.ws0();
            let ghost w2 = ws0(s, w1.0 + 1);
            proof {
                lemma_ws0(s, j);
                lemma_ws0(s, w1.0 + 1);
            }
            let ghost a_mid = strs_model(acc@);
            let r = self.items(acc);
            proof {
                if let Ok((rest, q, c3)) = items(s, w2.0) {
                    assert(strs_model(acc@) =~= a0 + (seq![item_model] + rest));
                    assert(comments_model(self.comments@) =~= c0 + (w1.1 + w2.1 + c3));
                }
            }
            r
        } else {
            proof {
                assert(strs_model(acc@) =~= a0 + seq![item_model]);
            }
            Ok(())
        }
    }

    // -- properties ------------------------------------------------------------------------------

    /// One `key=value`, on the understanding that an identifier is next.
    ///
    /// Once a bare word appears where a parameter belongs there is no backing out: `read foo` is an
    /// error, not a node called `read` with `foo` left over. Committing here is what does that.
    fn property(&mut self) -> (r: Result<Property, ParseError>)
        requires
            old(self).wf(),
        ensures
            final(self).wf(),
            final(self).input@ == old(self).input@,
            r is Ok ==> old(self).pos < final(self).pos,
            match property(old(self).input@, old(self).pos as int) {
                Ok((prop, e, cs)) => r matches Ok(x) && x@ == prop && final(self).pos == e && comments_model(
                    final(self).comments@,
                ) == comments_model(old(self).comments@) + cs,
                Err(err) => r matches Err(x) && x@ == err,
            },
    {
        proof {
            reveal(property);
        }
        let ghost s = self.input@;
        let ghost i = self.pos as int;
        let ghost c0 = comments_model(self.comments@);
        let (key, key_span) = match self.ident() {
            None => return Err(self.error_here(owned("expected a parameter name"))),
            Some(found) => found,
        };
        let ghost j = self.pos as int;
        proof {
            lemma_ident(s, i);
        }
        self.ws0();
        let ghost w1 = ws0(s, j);
        if !self.at_char('=') {
            let mut message = owned("expected '=' after the parameter '");
            push_str(&mut message, key.as_str());
            push_str(&mut message, "'");
            return Err(self.error_here(message));
        }
        self.advance();
        self.ws0();
        let ghost w2 = ws0(s, w1.0 + 1);
        proof {
            lemma_ws0(s, j);
            lemma_ws0(s, w1.0 + 1);
        }
        let val = match self.value() {
            Err(e) => return Err(e),
            Ok(v) => v,
        };
        let end = match &val {
            Value::Single(st) => st.span.end,
            Value::Array { span, .. } => span.end,
        };
        let prop = Property { key, key_span, span: Span::new(key_span.start, end), value: val };
        proof {
            let v = value(s, w2.0);
            assert(comments_model(self.comments@) =~= c0 + (w1.1 + w2.1 + v->Ok_0.2));
        }
        Ok(prop)
    }

    /// A node's parameters, pushed onto `acc`.
    ///
    /// Parameters must be separated by whitespace, and the separator only counts if a parameter
    /// really follows - otherwise the space before a `[…]` block would be eaten, comments and all.
    fn properties(&mut self, acc: &mut Vec<Property>) -> (r: Result<(), ParseError>)
        requires
            old(self).wf(),
        ensures
            final(self).wf(),
            final(self).input@ == old(self).input@,
            r is Ok ==> old(self).pos <= final(self).pos,
            match properties(old(self).input@, old(self).pos as int) {
                Ok((list, q, cs)) => r is Ok && properties_model(final(acc)@) == properties_model(old(acc)@)
                    + list && final(self).pos == q && comments_model(final(self).comments@) == comments_model(
                    old(self).comments@,
                ) + cs,
                Err(err) => r matches Err(x) && x@ == err,
            },
        decreases old(self).input@.len() - old(self).pos,
    {
        proof {
            reveal(properties);
        }
        let ghost s = self.input@;
        let ghost p = self.pos as int;
        let ghost c0 = comments_model(self.comments@);
        let ghost raw = self.comments@;
        let ghost a0 = properties_model(acc@);
        let back_pos = self.pos;
        let back_byte = self.byte;
        let back_len = self.comments.len();
        self.ws0();
        let ghost w1 = ws0(s, p);
        if !(back_pos < self.pos && self.pos < self.input.len() && ascii_alpha(self.input[self.pos])) {
            self.pos = back_pos;
            self.byte = back_byte;
            self.comments.truncate(back_len);
            proof {
                assert(self.comments@ == raw);
                assert(properties_model(acc@) =~= a0 + Seq::<super::ast::PropertyM>::empty());
                assert(comments_model(self.comments@) =~= c0 + Seq::<CommentM>::empty());
            }
            return Ok(());
        }
        let prop = match self.property() {
            Err(e) => return Err(e),
            Ok(prop) => prop,
        };
        let ghost prop_model = prop@;
        let ghost e = self.pos as int;
        proof {
            lemma_ws0(s, p);
        }
        acc.push(prop);
        proof {
            assert(properties_model(acc@) =~= a0.push(prop_model));
        }
        let r = self.properties(acc);
        proof {
            let pr = property(s, w1.0);
            if let Ok((rest, q, c3)) = properties(s, e) {
                assert(properties_model(acc@) =~= a0 + (seq![prop_model] + rest));
                assert(comments_model(self.comments@) =~= c0 + (w1.1 + pr->Ok_0.2 + c3));
            }
        }
        r
    }

    // -- nodes and pipelines ---------------------------------------------------------------------

    fn node(&mut self) -> (r: Result<Node, ParseError>)
        requires
            old(self).wf(),
        ensures
            final(self).wf(),
            final(self).input@ == old(self).input@,
            r is Ok ==> old(self).pos < final(self).pos,
            match node(old(self).input@, old(self).pos as int) {
                Ok((n, e, cs)) => r matches Ok(x) && x@ == n && final(self).pos == e && comments_model(
                    final(self).comments@,
                ) == comments_model(old(self).comments@) + cs,
                Err(err) => r matches Err(x) && x@ == err,
            },
        decreases old(self).input@.len() - old(self).pos, 1int,
    {
        let ghost s = self.input@;
        let ghost i = self.pos as int;
        let ghost c0 = comments_model(self.comments@);
        self.ws0();
        let ghost w0 = ws0(s, i);
        proof {
            lemma_ws0(s, i);
        }
        let (name, name_span) = match self.ident() {
            None => return Err(self.error_here(owned("expected an operation name"))),
            Some(found) => found,
        };
        let ghost j = self.pos as int;
        proof {
            lemma_ident(s, w0.0);
        }
        let mut props: Vec<Property> = Vec::new();
        match self.properties(&mut props) {
            Err(e) => return Err(e),
            Ok(()) => {},
        }
        let ghost pr = properties(s, j);
        proof {
            assert(properties_model(props@) =~= pr->Ok_0.0);
        }
        let ghost p = self.pos as int;
        self.ws0();
        let ghost w2 = ws0(s, p);
        proof {
            lemma_ws0(s, p);
        }
        let (pipes, block) = match self.sources() {
            Err(e) => return Err(e),
            Ok(found) => found,
        };
        let end = match block {
            Some(b) => b.end,
            None => if props.len() > 0 {
                props[props.len() - 1].span.end
            } else {
                name_span.end
            },
        };
        let n = Node {
            name,
            name_span,
            properties: props,
            sources: pipes,
            sources_span: block,
            span: Span::new(name_span.start, end),
        };
        proof {
            lemma_node_model(n);
            let sr = sources(s, w2.0);
            assert(comments_model(self.comments@) =~= c0 + (w0.1 + pr->Ok_0.2 + w2.1 + sr->Ok_0.3));
        }
        Ok(n)
    }

    fn sources(&mut self) -> (r: Result<(Vec<Pipeline>, Option<Span>), ParseError>)
        requires
            old(self).wf(),
        ensures
            final(self).wf(),
            final(self).input@ == old(self).input@,
            r is Ok ==> old(self).pos <= final(self).pos,
            match sources(old(self).input@, old(self).pos as int) {
                Ok((ps, block, e, cs)) => r matches Ok((v, b)) && pipes_model(v@) == ps && b == block
                    && final(self).pos == e && comments_model(final(self).comments@) == comments_model(
                    old(self).comments@,
                ) + cs,
                Err(err) => r matches Err(x) && x@ == err,
            },
        decreases old(self).input@.len() - old(self).pos, 0int,
    {
        let ghost s = self.input@;
        let ghost i = self.pos as int;
        let ghost c0 = comments_model(self.comments@);
        if !self.at_char('[') {
            let v: Vec<Pipeline> = Vec::new();
            proof {
                assert(pipes_model(v@) =~= Seq::<super::ast::PipelineM>::empty());
                assert(comments_model(self.comments@) =~= c0 + Seq::<CommentM>::empty());
            }
            return Ok((v, None));
        }
        let start_byte = self.byte;
        self.advance();
        self.ws0();
        let ghost w1 = ws0(s, i + 1);
        proof {
            lemma_ws0(s, i + 1);
        }
        let mut pipes: Vec<Pipeline> = Vec::new();
        let ghost inner = if at(s, w1.0, ']') {
            Ok((Seq::<super::ast::PipelineM>::empty(), w1.0, Seq::<CommentM>::empty()))
        } else {
            source_list(s, w1.0)
        };
        if !self.at_char(']') {
            match self.source_list(&mut pipes) {
                Err(e) => return Err(e),
                Ok(()) => {},
            }
            proof {
                assert(pipes_model(pipes@) =~= pipes_model(Seq::<Pipeline>::empty()) + inner->Ok_0.0);
            }
        } else {
            proof {
                assert(pipes_model(pipes@) =~= Seq::<super::ast::PipelineM>::empty());
                assert(comments_model(self.comments@) =~= comments_model(self.comments@)
                    + Seq::<CommentM>::empty());
            }
        }
        self.ws0();
        if !self.at_char(']') {
            return Err(self.error_here(owned("expected ']' to close the source list")));
        }
        self.advance();
        proof {
            let w3 = ws0(s, inner->Ok_0.1);
            assert(comments_model(self.comments@) =~= c0 + (w1.1 + inner->Ok_0.2 + w3.1));
        }
        Ok((pipes, Some(Span::new(start_byte, self.byte))))
    }

    /// The pipelines of a sources block, pushed onto `acc`.
    #[verifier::rlimit(40)]
    fn source_list(&mut self, acc: &mut Vec<Pipeline>) -> (r: Result<(), ParseError>)
        requires
            old(self).wf(),
        ensures
            final(self).wf(),
            final(self).input@ == old(self).input@,
            r is Ok ==> old(self).pos < final(self).pos,
            match source_list(old(self).input@, old(self).pos as int) {
                Ok((list, q, cs)) => r is Ok && pipes_model(final(acc)@) == pipes_model(old(acc)@) + list
                    && final(self).pos == q && comments_model(final(self).comments@) == comments_model(
                    old(self).comments@,
                ) + cs,
                Err(err) => r matches Err(x) && x@ == err,
            },
        decreases old(self).input@.len() - old(self).pos, 3int,
    {
        let ghost s = self.input@;
        let ghost p = self.pos as int;
        let ghost c0 = comments_model(self.comments@);
        let ghost a0 = pipes_model(acc@);
        let first = match self.pipeline() {
            Err(e) => return Err(e),
            Ok(first) => first,
        };
        let ghost first_model = first@;
        let ghost e = self.pos as int;
        acc.push(first);
        proof {
            assert(pipes_model(acc@) =~= a0.push(first_model));
        }
        self.ws0();
        let ghost w1 = ws0(s, e);
        let ghost pl = pipeline(s, p);
        if self.at_char(',') {
            self.advance();
            self.ws0();
            let ghost w2 = ws0(s, w1.0 + 1);
            proof {
                lemma_ws0(s, e);
                lemma_ws0(s, w1.0 + 1);
            }
            let r = self.source_list(acc);
            proof {
                if let Ok((rest, q, c3)) = source_list(s, w2.0) {
                    assert(pipes_model(acc@) =~= a0 + (seq![first_model] + rest));
                    assert(comments_model(self.comments@) =~= c0 + (pl->Ok_0.2 + w1.1 + w2.1 + c3));
                }
            }
            r
        } else {
            proof {
                assert(pipes_model(acc@) =~= a0 + seq![first_model]);
                assert(comments_model(self.comments@) =~= c0 + (pl->Ok_0.2 + w1.1));
            }
            Ok(())
        }
    }

    /// The nodes after the first, each introduced by `|`, pushed onto `acc`.
    fn chain(&mut self, acc: &mut Vec<Node>) -> (r: Result<(), ParseError>)
        requires
            old(self).wf(),
        ensures
            final(self).wf(),
            final(self).input@ == old(self).input@,
            r is Ok ==> old(self).pos <= final(self).pos,
            match chain(old(self).input@, old(self).pos as int) {
                Ok((list, q, cs)) => r is Ok && nodes_model(final(acc)@) == nodes_model(old(acc)@) + list
                    && final(self).pos == q && comments_model(final(self).comments@) == comments_model(
                    old(self).comments@,
                ) + cs,
                Err(err) => r matches Err(x) && x@ == err,
            },
        decreases old(self).input@.len() - old(self).pos, 2int,
    {
        let ghost s = self.input@;
        let ghost p = self.pos as int;
        let ghost c0 = comments_model(self.comments@);
        let ghost raw = self.comments@;
        let ghost a0 = nodes_model(acc@);
        let back_pos = self.pos;
        let back_byte = self.byte;
        let back_len = self.comments.len();
        self.ws0();
        let ghost w1 = ws0(s, p);
        if !self.at_char('|') {
            self.pos = back_pos;
            self.byte = back_byte;
            self.comments.truncate(back_len);
            proof {
                assert(self.comments@ == raw);
                assert(nodes_model(acc@) =~= a0 + Seq::<super::ast::NodeM>::empty());
                assert(comments_model(self.comments@) =~= c0 + Seq::<CommentM>::empty());
            }
            return Ok(());
        }
        self.advance();
        self.ws0();
        let ghost w2 = ws0(s, w1.0 + 1);
        proof {
            lemma_ws0(s, p);
            lemma_ws0(s, w1.0 + 1);
        }
        let next = match self.node() {
            Err(e) => return Err(e),
            Ok(next) => next,
        };
        let ghost next_model = next@;
        let ghost e = self.pos as int;
        acc.push(next);
        proof {
            assert(nodes_model(acc@) =~= a0.push(next_model));
        }
        let r = self.chain(acc);
        proof {
            let nd = node(s, w2.0);
            if let Ok((rest, q, c4)) = chain(s, e) {
                assert(nodes_model(acc@) =~= a0 + (seq![next_model] + rest));
                assert(comments_model(self.comments@) =~= c0 + (w1.1 + w2.1 + nd->Ok_0.2 + c4));
            }
        }
        r
    }

    fn pipeline(&mut self) -> (r: Result<Pipeline, ParseError>)
        requires
            old(self).wf(),
        ensures
            final(self).wf(),
            final(self).input@ == old(self).input@,
            r is Ok ==> old(self).pos < final(self).pos,
            match pipeline(old(self).input@, old(self).pos as int) {
                Ok((pipe, e, cs)) => r matches Ok(x) && x@ == pipe && final(self).pos == e && comments_model(
                    final(self).comments@,
                ) == comments_model(old(self).comments@) + cs,
                Err(err) => r matches Err(x) && x@ == err,
            },
        decreases old(self).input@.len() - old(self).pos, 2int,
    {
        let ghost s = self.input@;
        let ghost i = self.pos as int;
        let ghost c0 = comments_model(self.comments@);
        self.ws0();
        let ghost w0 = ws0(s, i);
        proof {
            lemma_ws0(s, i);
        }
        let start_byte = self.byte;
        let first = match self.node() {
            Err(e) => return Err(e),
            Ok(first) => first,
        };
        let ghost first_model = first@;
        let ghost e = self.pos as int;
        let mut nodes: Vec<Node> = Vec::new();
        nodes.push(first);
        proof {
            assert(nodes_model(nodes@) =~= seq![first_model]);
        }
        match self.chain(&mut nodes) {
            Err(e) => return Err(e),
            Ok(()) => {},
        }
        let end = nodes[nodes.len() - 1].span.end;
        let pipe = Pipeline { nodes, span: Span::new(start_byte, end) };
        proof {
            lemma_pipeline_model(pipe);
            let nd = node(s, w0.0);
            let ch = chain(s, e);
            assert(comments_model(self.comments@) =~= c0 + (w0.1 + nd->Ok_0.2 + ch->Ok_0.2));
            assert(pipe@.nodes.last() == nodes_model(pipe.nodes@).last());
        }
        Ok(pipe)
    }
}

} // verus!
