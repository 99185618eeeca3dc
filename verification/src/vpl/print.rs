//! Turning values back into text.
//!
//! A parsed document's own text is always the best rendering of it; what is printed here is for
//! values Studio writes itself, such as a path the user picked or a field they typed. Each is given
//! the least punctuation under which it parses back to the same string.

use vstd::prelude::*;
use crate::text::{chars_of, push_char, push_str};
use crate::text::{is_ascii_alpha, is_white};
use super::ast::{values_for, CommentM, NodeM, PropertyM, Quote, Span, StrM, ValueM};
use super::grammar::{
    at, chain, document, double_body, escaped, ident, ident_tail_char, lemma_skip, node, pipeline, properties, property, single_quoted,
    skip, sp, string, unquoted, unquoted_char, value, ws0, Class, ParseErrorM,
};
use super::parse::is_unquoted_char;

verus! {

/// How `c` is written between double quotes.
pub open spec fn escape_char(c: char) -> Seq<char> {
    if c == '\\' {
        seq!['\\', '\\']
    } else if c == '"' {
        seq!['\\', '"']
    } else if c == '\n' {
        seq!['\\', 'n']
    } else if c == '\t' {
        seq!['\\', 't']
    } else {
        seq![c]
    }
}

/// `v` with each character written as it must be between double quotes.
pub open spec fn escape_all(v: Seq<char>) -> Seq<char>
    decreases v.len(),
{
    if v.len() == 0 {
        seq![]
    } else {
        escape_char(v[0]) + escape_all(v.drop_first())
    }
}

/// Whether every character of `v` may stand in a bare value.
pub open spec fn all_unquoted(v: Seq<char>) -> bool {
    forall|i: int| 0 <= i < v.len() ==> unquoted_char(#[trigger] v[i])
}

/// Whether `c` is a control character: `U+0000`-`U+001F` or `U+007F`-`U+009F`.
pub open spec fn is_control(c: char) -> bool {
    (c as int) <= 0x1F || (0x7F <= (c as int) && (c as int) <= 0x9F)
}

/// Whether `v` holds a control character.
pub open spec fn has_control(v: Seq<char>) -> bool {
    exists|i: int| 0 <= i < v.len() && #[trigger] is_control(v[i])
}

/// The spelling [`quote_value`] gives `v`: bare where it is not empty and every character may
/// stand bare; single quotes where it holds no single quote and no control character (the empty
/// string is `''`); double quotes, escaped, otherwise. Every value has one.
pub open spec fn quoted(v: Seq<char>) -> Option<Seq<char>> {
    if v.len() > 0 && all_unquoted(v) {
        Some(v)
    } else if !v.contains('\'') && !has_control(v) {
        Some(seq!['\''] + v + seq!['\''])
    } else {
        Some(seq!['"'] + escape_all(v) + seq!['"'])
    }
}

pub proof fn lemma_escape_all_concat(a: Seq<char>, b: Seq<char>)
    ensures
        escape_all(a + b) == escape_all(a) + escape_all(b),
    decreases a.len(),
{
    if a.len() == 0 {
        assert(a + b =~= b);
        assert(escape_all(a) + escape_all(b) =~= escape_all(b));
    } else {
        lemma_escape_all_concat(a.drop_first(), b);
        assert((a + b).drop_first() =~= a.drop_first() + b);
        assert(escape_char(a[0]) + (escape_all(a.drop_first()) + escape_all(b)) =~= (escape_char(a[0])
            + escape_all(a.drop_first())) + escape_all(b));
    }
}

/// Renders a value with the least punctuation that parses back to the same string; see
/// [`quoted`]. Always `Some`: since the empty string is `''`, every value has a spelling.
pub fn quote_value(value: &str) -> (r: Option<String>)
    ensures
        r matches Some(s) ==> quoted(value@) == Some(s@),
        r is None <==> quoted(value@) is None,
{
    let chars = chars_of(value);
    let mut bare = chars.len() > 0;
    let mut has_single = false;
    let mut control = false;
    let mut i: usize = 0;
    while i < chars.len()
        invariant
            i <= chars@.len(),
            chars@ == value@,
            bare == (chars@.len() > 0 && forall|j: int| 0 <= j < i ==> unquoted_char(#[trigger] chars@[j])),
            has_single == (exists|j: int| 0 <= j < i && chars@[j] == '\''),
            control == (exists|j: int| 0 <= j < i && #[trigger] is_control(chars@[j])),
        decreases chars@.len() - i,
    {
        let c = chars[i];
        if !is_unquoted_char(c) {
            bare = false;
        }
        if c == '\'' {
            has_single = true;
        }
        let is_ctl = c <= '\u{1F}' || ('\u{7F}' <= c && c <= '\u{9F}');
        proof {
            assert(is_ctl == is_control(chars@[i as int]));
            if is_ctl {
                assert(is_control(chars@[i as int]));
            }
            if !is_ctl && !control {
                assert forall|j: int| 0 <= j < i + 1 implies !#[trigger] is_control(chars@[j]) by {}
            }
        }
        if is_ctl {
            control = true;
        }
        i = i + 1;
    }
    proof {
        assert(chars@.take(i as int) =~= chars@);
    }
    if bare {
        let mut out = String::new();
        push_str(&mut out, value);
        proof {
            assert(out@ =~= value@);
        }
        return Some(out);
    }
    if !has_single && !control {
        let mut out = String::new();
        push_char(&mut out, '\'');
        push_str(&mut out, value);
        push_char(&mut out, '\'');
        proof {
            assert(out@ =~= seq!['\''] + value@ + seq!['\'']);
        }
        return Some(out);
    }
    Some(quote_double(value))
}

/// Double quotes, escaping the four sequences the grammar understands.
fn quote_double(value: &str) -> (out: String)
    ensures
        out@ == seq!['"'] + escape_all(value@) + seq!['"'],
{
    let chars = chars_of(value);
    let mut out = String::new();
    push_char(&mut out, '"');
    let mut i: usize = 0;
    while i < chars.len()
        invariant
            i <= chars@.len(),
            chars@ == value@,
            out@ == seq!['"'] + escape_all(chars@.take(i as int)),
        decreases chars@.len() - i,
    {
        let c = chars[i];
        if c == '\\' {
            push_str(&mut out, "\\\\");
        } else if c == '"' {
            push_str(&mut out, "\\\"");
        } else if c == '\n' {
            push_str(&mut out, "\\n");
        } else if c == '\t' {
            push_str(&mut out, "\\t");
        } else {
            push_char(&mut out, c);
        }
        proof {
            reveal_strlit("\\\\");
            reveal_strlit("\\\"");
            reveal_strlit("\\n");
            reveal_strlit("\\t");
            assert(chars@.take(i + 1) =~= chars@.take(i as int) + seq![c]);
            lemma_escape_all_concat(chars@.take(i as int), seq![c]);
            assert(seq![c].drop_first() =~= Seq::<char>::empty());
            reveal_with_fuel(escape_all, 2);
            assert(escape_all(seq![c]) =~= escape_char(c));
            assert(out@ =~= seq!['"'] + escape_all(chars@.take(i + 1)));
        }
        i = i + 1;
    }
    push_char(&mut out, '"');
    proof {
        assert(chars@.take(i as int) =~= chars@);
    }
    out
}

// ---------------------------------------------------------------------------------------------
// Reading a quoted value back
// ---------------------------------------------------------------------------------------------

/// Inside double quotes, the escaped spelling of `v` followed by the closing quote reads back as
/// `v`, appended to whatever was decoded before it.
proof fn lemma_double_body_reads(s: Seq<char>, start: int, k: int, acc: Seq<char>, v: Seq<char>)
    requires
        0 <= start < k,
        k + escape_all(v).len() < s.len(),
        s.subrange(k, k + escape_all(v).len()) == escape_all(v),
        s[k + escape_all(v).len()] == '"',
        v.len() > 0 || k > start + 1,
    ensures
        double_body(s, start, k, acc) == Ok::<(StrM, int), super::grammar::ParseErrorM>((
            StrM { value: acc + v, quote: Quote::Double, span: sp(s, start, k + escape_all(v).len() + 1) },
            k + escape_all(v).len() + 1,
        )),
    decreases v.len(),
{
    if v.len() == 0 {
        assert(acc + v =~= acc);
    } else {
        let c = v[0];
        let e = escape_char(c);
        let rest = v.drop_first();
        assert(escape_all(v) == e + escape_all(rest));
        assert(s.subrange(k, k + e.len()) =~= e) by {
            assert forall|j: int| 0 <= j < e.len() implies s[k + j] == e[j] by {
                assert(s.subrange(k, k + escape_all(v).len())[j] == escape_all(v)[j]);
            }
        }
        assert(s.subrange(k + e.len(), k + e.len() + escape_all(rest).len()) =~= escape_all(rest)) by {
            assert forall|j: int| 0 <= j < escape_all(rest).len() implies s[k + e.len() + j] == escape_all(
                rest,
            )[j] by {
                assert(s.subrange(k, k + escape_all(v).len())[e.len() + j] == escape_all(v)[e.len() + j]);
            }
        }
        assert(acc.push(c) + rest =~= acc + v);
        lemma_double_body_reads(s, start, k + e.len(), acc.push(c), rest);
        assert(s[k] == e[0]);
        if c == '\\' || c == '"' || c == '\n' || c == '\t' {
            assert(s[k] == '\\');
            assert(s[k + 1] == e[1]);
            assert(escaped(s[k + 1]) == Some(c));
        } else {
            assert(s[k] == c);
        }
    }
}

/// Where the rest of `t` from `o` is what [`quote_value`] writes for `v`, a string read at `o`
/// takes all of it and is `v`.
proof fn lemma_quoted_reads_at(t: Seq<char>, o: int, v: Seq<char>)
    requires
        0 <= o <= t.len(),
        t.subrange(o, t.len() as int) == quoted(v)->0,
    ensures
        string(t, o) matches Ok((st, end)) && st.value == v && end == t.len(),
{
    let q = quoted(v)->0;
    assert forall|j: int| 0 <= j < q.len() implies t[o + j] == #[trigger] q[j] by {
        assert(t.subrange(o, t.len() as int)[j] == t[o + j]);
    }
    if v.len() > 0 && all_unquoted(v) {
        assert(t[o] == q[0]);
        assert(!at(t, o, '"') && !at(t, o, '\''));
        assert forall|j: int| o <= j < t.len() implies super::grammar::in_class(#[trigger] t[j], Class::Unquoted) by {
            assert(t[o + (j - o)] == q[j - o]);
        }
        lemma_skip_to_end(t, o, Class::Unquoted);
        assert(t.subrange(o, t.len() as int) =~= v);
    } else if !v.contains('\'') && !has_control(v) {
        assert(t[o] == q[0]);
        assert(at(t, o, '\''));
        let e = t.len() - 1;
        assert(t[e] == q[q.len() - 1]);
        assert forall|j: int| o + 1 <= j < e implies super::grammar::in_class(#[trigger] t[j], Class::NotSingleQuote) by {
            assert(t[o + (j - o)] == q[j - o]);
            assert(q[j - o] == v[j - o - 1]);
            if t[j] == '\'' {
                assert(v.contains('\''));
            }
        }
        lemma_skip_stops(t, o + 1, e, Class::NotSingleQuote);
        assert(t.subrange(o + 1, e) =~= v) by {
            assert forall|j: int| 0 <= j < v.len() implies t.subrange(o + 1, e)[j] == v[j] by {
                assert(t[o + (j + 1)] == q[j + 1]);
            }
        }
    } else {
        let body = escape_all(v);
        assert(t[o] == q[0]);
        assert(at(t, o, '"'));
        assert(t.subrange(o + 1, o + 1 + body.len() as int) =~= body) by {
            assert forall|j: int| 0 <= j < body.len() implies t.subrange(o + 1, o + 1 + body.len() as int)[j] == body[j] by {
                assert(t[o + (j + 1)] == q[j + 1]);
            }
        }
        assert(t[o + (body.len() + 1)] == q[body.len() + 1 as int]);
        lemma_double_body_reads(t, o, o + 1, seq![], v);
        assert(Seq::<char>::empty() + v =~= v);
    }
}

/// What [`quote_value`] writes reads back, as a whole, as the value it was given.
pub proof fn lemma_quoted_reads_back(v: Seq<char>)
    ensures
        quoted(v) matches Some(q) && string(q, 0) matches Ok((st, end)) && st.value == v && end == q.len(),
{
    let q = quoted(v)->0;
    assert(q.subrange(0, q.len() as int) =~= q);
    lemma_quoted_reads_at(q, 0, v);
}

proof fn lemma_ws0_none(s: Seq<char>, i: int)
    requires
        0 <= i <= s.len(),
        i < s.len() ==> !is_white(s[i]) && s[i] != '#',
    ensures
        ws0(s, i) == (i, Seq::<CommentM>::empty()),
{
    reveal(ws0);
    reveal(skip);
}

proof fn lemma_ws0_one_space(s: Seq<char>, i: int)
    requires
        0 <= i,
        i + 1 < s.len(),
        is_white(s[i]),
        !is_white(s[i + 1]) && s[i + 1] != '#',
    ensures
        ws0(s, i) == (i + 1, Seq::<CommentM>::empty()),
{
    reveal(ws0);
    lemma_skip_stops(s, i, i + 1, Class::White);
}

/// Whether `t` is an identifier: an ASCII letter, then letters, digits, `_` or `-`.
pub open spec fn is_ident(t: Seq<char>) -> bool {
    &&& t.len() > 0
    &&& is_ascii_alpha(t[0])
    &&& forall|i: int| 1 <= i < t.len() ==> ident_tail_char(#[trigger] t[i])
}

/// The text of a one-parameter node: `op`, a space, `key`, `=` and `q`.
pub open spec fn one_parameter(op: Seq<char>, key: Seq<char>, q: Seq<char>) -> Seq<char> {
    op + seq![' '] + key + seq!['='] + q
}

/// In [`one_parameter`] where a string read at `q` takes all of it, the parameter reads as `key`
/// with that string.
proof fn lemma_parameter_text(op: Seq<char>, key: Seq<char>, q: Seq<char>, st: StrM)
    requires
        is_ident(op),
        is_ident(key),
        q.len() > 0,
        !is_white(q[0]) && q[0] != '#' && q[0] != '[',
        string(one_parameter(op, key, q), op.len() + key.len() + 2int)
            == Ok::<(StrM, int), ParseErrorM>((st, one_parameter(op, key, q).len() as int)),
    ensures
        property(one_parameter(op, key, q), op.len() + 1int) matches Ok((prop, e, cs))
            && e == one_parameter(op, key, q).len() && cs.len() == 0 && prop.key == key
            && prop.value == ValueM::Single(st),
{
    reveal(value);
    reveal(property);
    let s = one_parameter(op, key, q);
    let n = s.len() as int;
    let a = op.len() as int + 1;
    let eq = a + key.len();
    assert(s[a] == key[0]);
    assert(s[eq] == '=');
    assert(s[eq + 1] == q[0]);
    assert forall|j: int| a + 1 <= j < eq implies ident_tail_char(#[trigger] s[j]) by {
        assert(s[j] == key[j - a]);
    }
    assert forall|j: int| a + 1 <= j < eq implies super::grammar::in_class(#[trigger] s[j], Class::IdentTail) by {
        assert(ident_tail_char(s[j]));
    }
    lemma_skip_stops(s, a + 1, eq, Class::IdentTail);
    assert(s.subrange(a, eq) =~= key);
    lemma_ws0_none(s, eq + 1);
    lemma_ws0_none(s, eq);
    assert(value(s, eq + 1) == Ok::<(ValueM, int, Seq<CommentM>), ParseErrorM>((ValueM::Single(st), n, seq![])));
}

/// In [`one_parameter`], the parameters after the name are that one parameter.
proof fn lemma_parameters_text(op: Seq<char>, key: Seq<char>, q: Seq<char>, prop: PropertyM)
    requires
        is_ident(op),
        is_ident(key),
        property(one_parameter(op, key, q), op.len() + 1int) matches Ok((p, e, cs)) && p == prop
            && e == one_parameter(op, key, q).len() && cs.len() == 0,
    ensures
        properties(one_parameter(op, key, q), op.len() as int) matches Ok((props, e, _))
            && e == one_parameter(op, key, q).len() && props == seq![prop],
{
    reveal(properties);
    let s = one_parameter(op, key, q);
    let n = s.len() as int;
    let a = op.len() as int;
    assert(s[a] == ' ');
    assert(s[a + 1] == key[0]);
    lemma_ws0_one_space(s, a);
    lemma_ws0_none(s, n);
    assert(properties(s, n) == Ok::<(Seq<PropertyM>, int, Seq<CommentM>), ParseErrorM>((seq![], n, seq![])));
    assert(seq![prop] + Seq::<PropertyM>::empty() =~= seq![prop]);
}

/// A node written as `op`, a space, `key`, `=` and what [`quote_value`] writes for `v` is a whole
/// document: one node called `op` whose parameter `key` has exactly the value `v`.
pub proof fn lemma_parameter_parses(op: Seq<char>, key: Seq<char>, v: Seq<char>)
    requires
        is_ident(op),
        is_ident(key),
    ensures
        document(one_parameter(op, key, quoted(v)->0)) matches Ok((pipe, _)) && pipe.nodes.len() == 1
            && pipe.nodes[0].name == op && values_for(pipe.nodes[0].properties, key) == seq![v],
{
    let q = quoted(v)->0;
    let s = one_parameter(op, key, q);
    let n = s.len() as int;
    let o = op.len() + key.len() + 2int;
    assert(s.subrange(o, n) =~= q);
    lemma_quoted_reads_at(s, o, v);
    let st = string(s, o)->Ok_0.0;
    assert(q.len() > 0 && s[o] == q[0]);
    if v.len() > 0 && all_unquoted(v) {
        assert(unquoted_char(v[0]));
    }
    lemma_parameter_text(op, key, q, st);
    let prop = property(s, op.len() + 1int)->Ok_0.0;
    lemma_parameters_text(op, key, q, prop);
    let props = properties(s, op.len() as int)->Ok_0.0;
    let m = op.len() as int;
    assert(s[0] == op[0] && s[m] == ' ');
    assert forall|j: int| 1 <= j < m implies super::grammar::in_class(#[trigger] s[j], Class::IdentTail) by {
        assert(s[j] == op[j]);
    }
    lemma_ws0_none(s, 0);
    lemma_ws0_none(s, n);
    lemma_skip_stops(s, 1, m, Class::IdentTail);
    assert(s.subrange(0, m) =~= op);
    assert(ident(s, 0) == Some((op, m)));
    assert(node(s, 0) is Ok);
    assert(node(s, 0)->Ok_0.1 == n);
    assert(node(s, 0)->Ok_0.0.properties == props);
    assert(node(s, 0)->Ok_0.0.name == op);
    assert(chain(s, n) == Ok::<(Seq<NodeM>, int, Seq<CommentM>), ParseErrorM>((seq![], n, seq![])));
    assert(pipeline(s, 0) is Ok);
    let pipe = pipeline(s, 0)->Ok_0.0;
    assert(pipe.nodes =~= seq![node(s, 0)->Ok_0.0]);
    assert(document(s) is Ok);
    assert(props.drop_last() =~= Seq::<PropertyM>::empty());
    assert(values_for(Seq::<PropertyM>::empty(), key) == Seq::<Seq<char>>::empty());
    assert(props.last() == prop && prop.key == key);
    assert(prop.value.strings() =~= seq![v]);
    assert(values_for(props, key) =~= seq![v]);
}

/// `node a=` followed by what [`quote_value`] writes for `v` is a whole document: one node whose
/// one parameter `a` has exactly the value `v`.
pub proof fn lemma_quoted_parameter_parses(v: Seq<char>)
    ensures
        document("node a="@ + quoted(v)->0) matches Ok((pipe, _)) && pipe.nodes.len() == 1
            && values_for(pipe.nodes[0].properties, "a"@) == seq![v],
{
    reveal_strlit("node a=");
    reveal_strlit("node");
    reveal_strlit("a");
    assert(is_ident("node"@));
    assert(is_ident("a"@));
    lemma_parameter_parses("node"@, "a"@, v);
    assert(one_parameter("node"@, "a"@, quoted(v)->0) =~= "node a="@ + quoted(v)->0);
}

proof fn lemma_escape_all_grows(v: Seq<char>)
    ensures
        escape_all(v).len() >= v.len(),
    decreases v.len(),
{
    if v.len() > 0 {
        lemma_escape_all_grows(v.drop_first());
    }
}

/// A value made only of ASCII letters and digits, `.`, `-` and `_` is written bare, and reads back
/// as itself: `node a=x_y` is one node whose `a` is `x_y`. A value holding any other character is
/// never written bare.
pub proof fn lemma_bare_values(v: Seq<char>)
    ensures
        v.len() > 0 && (forall|i: int| 0 <= i < v.len() ==> {
            let c = #[trigger] v[i];
            ('a' <= c && c <= 'z') || ('A' <= c && c <= 'Z') || ('0' <= c && c <= '9') || c == '.' || c == '-' || c == '_'
        }) ==> quoted(v) == Some(v) && (document("node a="@ + v) matches Ok((pipe, _)) && pipe.nodes.len() == 1
            && values_for(pipe.nodes[0].properties, "a"@) == seq![v]),
        (exists|i: int| 0 <= i < v.len() && {
            let c = #[trigger] v[i];
            !(('a' <= c && c <= 'z') || ('A' <= c && c <= 'Z') || ('0' <= c && c <= '9') || c == '.' || c == '-' || c == '_')
        }) ==> quoted(v) != Some(v),
{
    lemma_quoted_parameter_parses(v);
    lemma_escape_all_grows(v);
    if v.len() > 0 && (forall|i: int| 0 <= i < v.len() ==> {
        let c = #[trigger] v[i];
        ('a' <= c && c <= 'z') || ('A' <= c && c <= 'Z') || ('0' <= c && c <= '9') || c == '.' || c == '-' || c == '_'
    }) {
        assert(all_unquoted(v));
    }
    if exists|i: int| 0 <= i < v.len() && {
        let c = #[trigger] v[i];
        !(('a' <= c && c <= 'z') || ('A' <= c && c <= 'Z') || ('0' <= c && c <= '9') || c == '.' || c == '-' || c == '_')
    } {
        let i = choose|i: int| 0 <= i < v.len() && {
            let c = #[trigger] v[i];
            !(('a' <= c && c <= 'z') || ('A' <= c && c <= 'Z') || ('0' <= c && c <= '9') || c == '.' || c == '-' || c == '_')
        };
        assert(!unquoted_char(v[i]));
        assert(!all_unquoted(v));
        let q = quoted(v)->0;
        assert(q.len() != v.len());
    }
}

/// A run of `k` that covers everything from `i` ends at the end.
proof fn lemma_skip_to_end(s: Seq<char>, i: int, k: Class)
    requires
        0 <= i <= s.len(),
        forall|j: int| i <= j < s.len() ==> super::grammar::in_class(#[trigger] s[j], k),
    ensures
        skip(s, i, k) == s.len(),
    decreases s.len() - i,
{
    reveal(skip);
    if i < s.len() {
        lemma_skip_to_end(s, i + 1, k);
    }
}

/// A run of `k` from `i` that is broken at `e` ends there.
proof fn lemma_skip_stops(s: Seq<char>, i: int, e: int, k: Class)
    requires
        0 <= i <= e < s.len(),
        forall|j: int| i <= j < e ==> super::grammar::in_class(#[trigger] s[j], k),
        !super::grammar::in_class(s[e], k),
    ensures
        skip(s, i, k) == e,
    decreases e - i,
{
    reveal(skip);
    if i < e {
        lemma_skip_stops(s, i + 1, e, k);
    }
}

} // verus!
