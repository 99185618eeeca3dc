//! What is wrong with a pipeline, positioned for an editor to underline.
//!
//! Whether a pipeline is right is the pipeline runner's to say: it checks each node against the
//! operation's own parameters without building anything. What is decided here is where each
//! problem sits in the text, and what to suggest for an operation name that is almost right.

use vstd::prelude::*;
use crate::text::{chars_of, owned, push_str, same_text, utf8_len, utf8_length};
use super::ast::{ints, lemma_node_model, path_m, Pipeline, PipelineM, PropertyM, Span};
use super::operations::{built_names, names_of, operations_model, sorted_names};

verus! {

/// One thing wrong, and the span an editor should underline.
#[derive(Debug, Clone, PartialEq, Eq)]
pub struct Diagnostic {
    pub message: String,
    pub span: Span,
}

// ---------------------------------------------------------------------------------------------
// Near misses
// ---------------------------------------------------------------------------------------------

pub open spec fn min3(a: int, b: int, c: int) -> int {
    if a <= b && a <= c { a } else if b <= c { b } else { c }
}

/// The edit distance between `a` and `b`: how many characters must be inserted, removed or
/// replaced to turn one into the other.
pub open spec fn edit_distance(a: Seq<char>, b: Seq<char>) -> int
    decreases a.len() + b.len(),
{
    if a.len() == 0 {
        b.len() as int
    } else if b.len() == 0 {
        a.len() as int
    } else {
        min3(
            edit_distance(a.drop_last(), b.drop_last()) + (if a.last() == b.last() { 0int } else { 1int }),
            edit_distance(a.drop_last(), b) + 1,
            edit_distance(a, b.drop_last()) + 1,
        )
    }
}

proof fn lemma_edit_distance_bounds(a: Seq<char>, b: Seq<char>)
    ensures
        0 <= edit_distance(a, b) <= a.len() + b.len(),
    decreases a.len() + b.len(),
{
    if a.len() > 0 && b.len() > 0 {
        lemma_edit_distance_bounds(a.drop_last(), b.drop_last());
        lemma_edit_distance_bounds(a.drop_last(), b);
        lemma_edit_distance_bounds(a, b.drop_last());
    }
}

/// The edit distance between `a` and `b`, one row of the table at a time.
pub fn distance(a: &str, b: &str) -> (d: u128)
    ensures
        d == edit_distance(a@, b@),
{
    let x = chars_of(a);
    let y = chars_of(b);
    let m = y.len();
    // `previous[j]` is the distance from the first `i` characters of `a` to the first `j` of `b`.
    let mut previous: Vec<u128> = Vec::new();
    previous.push(0);
    proof {
        assert(x@.take(0).len() == 0);
        assert(y@.take(0).len() == 0);
    }
    let mut j: usize = 0;
    while j < m
        invariant
            j <= m,
            m == y@.len(),
            previous@.len() == j + 1,
            forall|k: int| 0 <= k <= j ==> previous@[k] == edit_distance(x@.take(0), y@.take(k)),
        decreases m - j,
    {
        proof {
            assert(x@.take(0).len() == 0);
        }
        previous.push((j + 1) as u128);
        j = j + 1;
    }
    let mut i: usize = 0;
    while i < x.len()
        invariant
            i <= x@.len(),
            m == y@.len(),
            previous@.len() == m + 1,
            forall|k: int| 0 <= k <= m ==> previous@[k] == edit_distance(x@.take(i as int), y@.take(k)),
        decreases x@.len() - i,
    {
        let mut current: Vec<u128> = Vec::new();
        current.push((i + 1) as u128);
        proof {
            assert(y@.take(0).len() == 0);
            assert(x@.take(i as int + 1).len() == i + 1);
        }
        let mut k: usize = 0;
        while k < m
            invariant
                i < x@.len(),
                k <= m,
                m == y@.len(),
                previous@.len() == m + 1,
                current@.len() == k + 1,
                forall|q: int| 0 <= q <= m ==> previous@[q] == edit_distance(x@.take(i as int), y@.take(q)),
                forall|q: int| 0 <= q <= k ==> current@[q] == edit_distance(x@.take(i as int + 1), y@.take(q)),
            decreases m - k,
        {
            let ghost a1 = x@.take(i as int + 1);
            let ghost b1 = y@.take(k as int + 1);
            proof {
                assert(a1.drop_last() =~= x@.take(i as int));
                assert(b1.drop_last() =~= y@.take(k as int));
                assert(a1.last() == x@[i as int]);
                assert(b1.last() == y@[k as int]);
                lemma_edit_distance_bounds(x@.take(i as int), y@.take(k as int));
                lemma_edit_distance_bounds(x@.take(i as int), y@.take(k as int + 1));
                lemma_edit_distance_bounds(x@.take(i as int + 1), y@.take(k as int));
            }
            let replace = previous[k] + if x[i] == y[k] { 0 } else { 1 };
            let remove = previous[k + 1] + 1;
            let insert = current[k] + 1;
            let best = if replace <= remove && replace <= insert {
                replace
            } else if remove <= insert {
                remove
            } else {
                insert
            };
            current.push(best);
            k = k + 1;
        }
        previous = current;
        i = i + 1;
    }
    proof {
        assert(x@.take(x@.len() as int) =~= x@);
        assert(y@.take(m as int) =~= y@);
    }
    previous[m]
}

/// How far a near miss may be from the word it stands for: more room for a longer word, counted
/// in bytes.
pub open spec fn allowance(word: Seq<char>) -> int {
    let n = utf8_len(word);
    if n <= 4 { 1 } else if n <= 8 { 2 } else { 3 }
}

/// The candidate from the first `k` that is nearest `word`: within its allowance, at the least
/// distance, the shorter (in bytes) of two at one distance, the earlier of two alike.
pub open spec fn nearest_among(word: Seq<char>, candidates: Seq<Seq<char>>, k: int) -> Option<int>
    decreases k,
{
    if k <= 0 {
        None
    } else {
        let earlier = nearest_among(word, candidates, k - 1);
        let c = candidates[k - 1];
        let d = edit_distance(word, c);
        if d > allowance(word) {
            earlier
        } else {
            match earlier {
                None => Some(k - 1),
                Some(e) => {
                    let de = edit_distance(word, candidates[e]);
                    if d < de || (d == de && utf8_len(c) < utf8_len(candidates[e])) { Some(k - 1) } else { earlier }
                },
            }
        }
    }
}

/// The candidate nearest `word`, by position; see [`nearest_among`].
pub fn nearest(word: &str, candidates: &Vec<String>) -> (r: Option<usize>)
    ensures
        match nearest_among(word@, crate::vpl::ast::texts(candidates@), candidates@.len() as int) {
            None => r is None,
            Some(k) => r matches Some(x) && x == k,
        },
        r matches Some(x) ==> x < candidates@.len(),
{
    let ghost cs = crate::vpl::ast::texts(candidates@);
    let n = utf8_length(word);
    let limit: u128 = if n <= 4 { 1 } else if n <= 8 { 2 } else { 3 };
    let mut best: Option<(usize, u128, usize)> = None;
    let mut k: usize = 0;
    while k < candidates.len()
        invariant
            k <= candidates@.len(),
            cs == crate::vpl::ast::texts(candidates@),
            limit == allowance(word@),
            match nearest_among(word@, cs, k as int) {
                None => best is None,
                Some(e) => best matches Some((i, d, len)) && i == e && d == edit_distance(word@, cs[e])
                    && len == utf8_len(cs[e]) && 0 <= e < k,
            },
        decreases candidates@.len() - k,
    {
        let c = candidates[k].as_str();
        proof {
            assert(cs[k as int] == c@);
        }
        let d = distance(word, c);
        let len = utf8_length(c);
        if d <= limit {
            match best {
                None => { best = Some((k, d, len)); },
                Some((_, bd, blen)) => {
                    if d < bd || (d == bd && len < blen) {
                        best = Some((k, d, len));
                    }
                },
            }
        }
        k = k + 1;
    }
    match best {
        None => None,
        Some((i, _, _)) => Some(i),
    }
}

/// Where the first `pattern` in `s` starts, at or after `i`.
pub open spec fn find_from(s: Seq<char>, pattern: Seq<char>, i: int) -> Option<int>
    decreases s.len() - i,
{
    if i < 0 || i + pattern.len() > s.len() {
        None
    } else if s.subrange(i, i + pattern.len()) == pattern {
        Some(i)
    } else if i >= s.len() {
        None
    } else {
        find_from(s, pattern, i + 1)
    }
}

/// What lies between the first `open` in `s` and the first `close` after it.
pub open spec fn between_spec(s: Seq<char>, open: Seq<char>, close: Seq<char>) -> Option<Seq<char>> {
    match find_from(s, open, 0) {
        None => None,
        Some(a) => {
            let rest = s.skip(a + open.len());
            match find_from(rest, close, 0) {
                None => None,
                Some(b) => Some(rest.take(b)),
            }
        },
    }
}

/// Where the first `pattern` in `s[from..]` starts.
pub(crate) fn find(s: &Vec<char>, pattern: &Vec<char>, from: usize) -> (r: Option<usize>)
    requires
        from <= s@.len(),
    ensures
        match find_from(s@, pattern@, from as int) {
            None => r is None,
            Some(k) => r matches Some(x) && x == k,
        },
        r matches Some(k) ==> k + pattern.len() <= s.len(),
{
    let mut i = from;
    while i < s.len() && s.len() - i >= pattern.len()
        invariant
            from <= i <= s@.len(),
            find_from(s@, pattern@, from as int) == find_from(s@, pattern@, i as int),
        decreases s@.len() - i,
    {
        let mut k: usize = 0;
        while k < pattern.len() && s[i + k] == pattern[k]
            invariant
                k <= pattern@.len(),
                i + pattern.len() <= s.len(),
                forall|q: int| 0 <= q < k ==> s@[i + q] == pattern@[q],
            decreases pattern@.len() - k,
        {
            k = k + 1;
        }
        if k == pattern.len() {
            proof {
                assert(s@.subrange(i as int, i + pattern@.len()) =~= pattern@);
            }
            return Some(i);
        }
        proof {
            assert(s@.subrange(i as int, i + pattern@.len())[k as int] != pattern@[k as int]);
        }
        i = i + 1;
    }
    if i == s.len() && pattern.len() == 0 {
        proof {
            assert(s@.subrange(i as int, i as int) =~= pattern@);
        }
        return Some(i);
    }
    None
}

/// What lies between the first `open` in `s` and the first `close` after it; see
/// [`between_spec`].
pub fn between(s: &str, open: &str, close: &str) -> (r: Option<String>)
    ensures
        match between_spec(s@, open@, close@) {
            None => r is None,
            Some(t) => r matches Some(x) && x@ == t,
        },
{
    let chars = chars_of(s);
    let o = chars_of(open);
    let c = chars_of(close);
    let a = match find(&chars, &o, 0) {
        None => return None,
        Some(a) => a,
    };
    let start = a + o.len();
    let rest = crate::text::string_between(&chars, start, chars.len());
    let r = chars_of(rest.as_str());
    proof {
        assert(r@ =~= chars@.skip(a + o@.len()));
    }
    proof {
        assert(find_from(chars@, o@, 0) == Some(a as int));
    }
    match find(&r, &c, 0) {
        None => None,
        Some(b) => {
            proof {
                assert(r@.subrange(0, b as int) =~= r@.take(b as int));
            }
            Some(crate::text::string_between(&r, 0, b))
        },
    }
}

// ---------------------------------------------------------------------------------------------
// Positioning problems
// ---------------------------------------------------------------------------------------------

/// The first property of `props` with key `key`.
pub open spec fn first_keyed(props: Seq<PropertyM>, key: Seq<char>) -> Option<PropertyM>
    decreases props.len(),
{
    if props.len() == 0 {
        None
    } else if props[0].key == key {
        Some(props[0])
    } else {
        first_keyed(props.drop_first(), key)
    }
}

/// Where a problem is underlined: the parameter's key when the problem names one the node has,
/// otherwise the operation's name, and the very start when the path finds no node.
pub open spec fn locate_spec(p: PipelineM, path: Seq<int>, property: Option<Seq<char>>) -> Span {
    match path_m(p, path) {
        None => Span { start: 0, end: 0 },
        Some(n) => match property {
            None => n.name_span,
            Some(key) => match first_keyed(n.properties, key) {
                Some(prop) => prop.key_span,
                None => n.name_span,
            },
        },
    }
}

/// Where a problem is underlined; see [`locate_spec`].
pub fn locate(pipeline: &Pipeline, path: &[usize], property: Option<&str>) -> (r: Span)
    ensures
        r == locate_spec(pipeline@, ints(path@), match property { Some(k) => Some(k@), None => None }),
{
    let node = match pipeline.node_at_path(path) {
        None => return Span { start: 0, end: 0 },
        Some(n) => n,
    };
    proof {
        lemma_node_model(*node);
    }
    let key = match property {
        None => return node.name_span,
        Some(k) => k,
    };
    let ghost props = node@.properties;
    let mut i: usize = 0;
    proof {
        assert(props.skip(0) =~= props);
    }
    while i < node.properties.len()
        invariant
            i <= node.properties@.len(),
            props == node@.properties,
            props == super::ast::properties_model(node.properties@),
            path_m(pipeline@, ints(path@)) == Some(node@),
            property matches Some(k) && k@ == key@,
            node@.name_span == node.name_span,
            first_keyed(props, key@) == first_keyed(props.skip(i as int), key@),
        decreases node.properties@.len() - i,
    {
        proof {
            assert(props.skip(i as int).drop_first() =~= props.skip(i as int + 1));
            assert(props.skip(i as int)[0] == node.properties@[i as int]@);
        }
        if same_text(node.properties[i].key.as_str(), key) {
            proof {
                assert(first_keyed(props.skip(i as int), key@) == Some(node.properties@[i as int]@));
            }
            return node.properties[i].key_span;
        }
        i = i + 1;
    }
    node.name_span
}

/// A problem's message, with a near miss named when it is about an operation nobody registered.
pub open spec fn suggestion_spec(message: Seq<char>, names: Seq<Seq<char>>) -> Seq<char> {
    match between_spec(message, "unknown operation '"@, "'"@) {
        None => message,
        Some(name) => match nearest_among(name, names, names.len() as int) {
            None => message,
            Some(k) => message + " - did you mean `"@ + names[k] + "`?"@,
        },
    }
}

/// A problem's message, with a near miss named; see [`suggestion_spec`].
pub fn suggestion(message: &str, names: &Vec<String>) -> (r: String)
    ensures
        r@ == suggestion_spec(message@, crate::vpl::ast::texts(names@)),
{
    let name = match between(message, "unknown operation '", "'") {
        None => return owned(message),
        Some(n) => n,
    };
    match nearest(name.as_str(), names) {
        None => owned(message),
        Some(k) => {
            let mut out = owned(message);
            push_str(&mut out, " - did you mean `");
            push_str(&mut out, names[k].as_str());
            push_str(&mut out, "`?");
            proof {
                assert(crate::vpl::ast::texts(names@)[k as int] == names@[k as int]@);
            }
            out
        },
    }
}

/// Something wrong with a pipeline, as the runner reports it: what, which node (a path of
/// indices from the root, as [`Pipeline::node_at_path`] follows it), and which parameter.
#[derive(Debug, Clone)]
pub struct Problem {
    pub message: String,
    pub path: Vec<usize>,
    pub property: Option<String>,
}

pub ghost struct ProblemM {
    pub message: Seq<char>,
    pub path: Seq<int>,
    pub property: Option<Seq<char>>,
}

impl View for Problem {
    type V = ProblemM;

    open spec fn view(&self) -> ProblemM {
        ProblemM {
            message: self.message@,
            path: ints(self.path@),
            property: match self.property {
                Some(p) => Some(p@),
                None => None,
            },
        }
    }
}

pub open spec fn problems_model(v: Seq<Problem>) -> Seq<ProblemM> {
    v.map_values(|p: Problem| p@)
}

/// What the pipeline runner finds wrong with the pipeline `text` spells, or `None` when it does not
/// read `text` as a pipeline.
pub uninterp spec fn problems_in(text: Seq<char>) -> Option<Seq<ProblemM>>;

/// `versatiles_pipeline::vpl::parse_vpl_detailed` then `versatiles_pipeline::check_pipeline`: the
/// runner's own reading of `text`, and every problem it finds in it without building anything.
/// The answer depends on `text` alone and is named rather than stated.
#[verifier::external_body]
fn pipeline_problems(text: &str) -> (r: Option<Vec<Problem>>)
    ensures
        match r {
            Some(v) => problems_in(text@) == Some(problems_model(v@)),
            None => problems_in(text@) is None,
        },
{
    versatiles_pipeline::vpl::parse_vpl_detailed(text).ok().map(|pipeline| {
        versatiles_pipeline::check_pipeline(&pipeline)
            .into_iter()
            .map(|problem| Problem { message: problem.message, path: problem.path, property: problem.property })
            .collect()
    })
}

pub ghost struct DiagnosticM {
    pub message: Seq<char>,
    pub span: Span,
}

impl View for Diagnostic {
    type V = DiagnosticM;

    open spec fn view(&self) -> DiagnosticM {
        DiagnosticM { message: self.message@, span: self.span }
    }
}

pub open spec fn diagnostics_model(v: Seq<Diagnostic>) -> Seq<DiagnosticM> {
    v.map_values(|d: Diagnostic| d@)
}

/// `d` placed into `sorted`, after every diagnostic that starts no later.
pub open spec fn place(sorted: Seq<DiagnosticM>, d: DiagnosticM) -> Seq<DiagnosticM>
    decreases sorted.len(),
{
    if sorted.len() == 0 {
        seq![d]
    } else if sorted.last().span.start <= d.span.start {
        sorted.push(d)
    } else {
        place(sorted.drop_last(), d).push(sorted.last())
    }
}

/// The diagnostics for the problems in order, each positioned and worded; then ordered by where
/// they start, problems at one place keeping the order they were found in.
pub open spec fn diagnosed(p: PipelineM, problems: Seq<ProblemM>, names: Seq<Seq<char>>) -> Seq<DiagnosticM>
    decreases problems.len(),
{
    if problems.len() == 0 {
        seq![]
    } else {
        let q = problems.last();
        place(diagnosed(p, problems.drop_last(), names),
            DiagnosticM { message: suggestion_spec(q.message, names), span: locate_spec(p, q.path, q.property) })
    }
}

proof fn lemma_place(s: Seq<DiagnosticM>, d: DiagnosticM, k: int)
    requires
        0 <= k <= s.len(),
        forall|m: int| k <= m < s.len() ==> s[m].span.start > d.span.start,
        k == 0 || s[k - 1].span.start <= d.span.start,
    ensures
        place(s, d) == s.take(k).push(d) + s.skip(k),
    decreases s.len(),
{
    if s.len() == 0 {
        assert(s.take(k).push(d) + s.skip(k) =~= seq![d]);
    } else if k == s.len() {
        assert(s.take(k).push(d) + s.skip(k) =~= s.push(d));
    } else {
        lemma_place(s.drop_last(), d, k);
        assert(s.drop_last().take(k) =~= s.take(k));
        assert((s.drop_last().take(k).push(d) + s.drop_last().skip(k)).push(s.last()) =~= s.take(k).push(d) + s.skip(k));
    }
}

/// Positions and words the runner's problems for `pipeline`; see [`diagnosed`].
pub fn diagnose(pipeline: &Pipeline, problems: &Vec<Problem>, names: &Vec<String>) -> (r: Vec<Diagnostic>)
    ensures
        diagnostics_model(r@) == diagnosed(pipeline@, problems_model(problems@), crate::vpl::ast::texts(names@)),
{
    let ghost pm = problems_model(problems@);
    let ghost nm = crate::vpl::ast::texts(names@);
    let mut out: Vec<Diagnostic> = Vec::new();
    let mut i: usize = 0;
    while i < problems.len()
        invariant
            i <= problems@.len(),
            pm == problems_model(problems@),
            nm == crate::vpl::ast::texts(names@),
            diagnostics_model(out@) == diagnosed(pipeline@, pm.take(i as int), nm),
        decreases problems@.len() - i,
    {
        let problem = &problems[i];
        proof {
            assert(pm.take(i as int + 1).drop_last() =~= pm.take(i as int));
            assert(pm.take(i as int + 1).last() == problem@);
        }
        let property: Option<&str> = match &problem.property {
            Some(p) => Some(p.as_str()),
            None => None,
        };
        let span = locate(pipeline, problem.path.as_slice(), property);
        let message = suggestion(problem.message.as_str(), names);
        let ghost dm = DiagnosticM { message: message@, span };
        let ghost before = diagnostics_model(out@);
        let mut k: usize = out.len();
        while k > 0 && out[k - 1].span.start > span.start
            invariant
                k <= out@.len(),
                before == diagnostics_model(out@),
                forall|m: int| k <= m < out@.len() ==> (#[trigger] before[m]).span.start > span.start,
            decreases k,
        {
            proof {
                assert(before[k - 1] == out@[k - 1]@);
            }
            k = k - 1;
        }
        proof {
            if k > 0 {
                assert(before[k - 1] == out@[k - 1]@);
            }
            lemma_place(before, dm, k as int);
        }
        out.insert(k, Diagnostic { message, span });
        proof {
            assert(diagnostics_model(out@) =~= before.take(k as int).push(dm) + before.skip(k as int));
        }
        i = i + 1;
    }
    proof {
        assert(pm.take(i as int) =~= pm);
    }
    out
}

/// Everything the pipeline runner finds wrong with a document, positioned and in document order,
/// near misses suggested from the registered operations taken in name order.
///
/// The runner checks each node against its operation's parameters without building anything, so
/// nothing is opened. A text the runner does not read as a pipeline has nothing to report here:
/// the parser's own error is the one to show.
pub fn validate(document: &super::document::Document) -> (r: Vec<Diagnostic>)
    ensures
        match problems_in(document@.text) {
            None => r@.len() == 0,
            Some(ps) => diagnostics_model(r@) == diagnosed(document@.pipeline, ps, sorted_names(built_names())),
        },
{
    let text = document.text();
    match pipeline_problems(text) {
        None => {
            proof {
                assert(problems_in(document@.text) is None);
            }
            Vec::new()
        },
        Some(problems) => {
            let ops = super::operations::operations();
            let ghost om = operations_model(ops@);
            let mut names: Vec<String> = Vec::new();
            let mut i: usize = 0;
            while i < ops.len()
                invariant
                    i <= ops@.len(),
                    om == operations_model(ops@),
                    names@.len() == i,
                    crate::vpl::ast::texts(names@) == names_of(om).take(i as int),
                decreases ops@.len() - i,
            {
                let name = ops[i].name.clone();
                let ghost before = names@;
                proof {
                    assert(name@ == om[i as int].name);
                }
                names.push(name);
                proof {
                    assert(names@ == before.push(name));
                    assert forall|q: int| 0 <= q <= i implies #[trigger] crate::vpl::ast::texts(names@)[q]
                        == names_of(om).take(i as int + 1)[q] by {
                        assert(om.len() == ops@.len());
                        assert(names_of(om).take(i as int + 1)[q] == names_of(om)[q]);
                        assert(names_of(om)[q] == om[q].name);
                        if q < i {
                            assert(crate::vpl::ast::texts(before)[q] == names_of(om).take(i as int)[q]);
                            assert(crate::vpl::ast::texts(names@)[q] == names@[q]@);
                            assert(crate::vpl::ast::texts(before)[q] == before[q]@);
                        } else {
                            assert(crate::vpl::ast::texts(names@)[q] == names@[q]@);
                        }
                    }
                    assert(crate::vpl::ast::texts(names@) =~= names_of(om).take(i as int + 1));
                }
                i = i + 1;
            }
            let found = diagnose(document.pipeline(), &problems, &names);
            proof {
                assert(names_of(om).take(i as int) =~= names_of(om));
                assert(problems_in(document@.text) == Some(problems_model(problems@)));
                assert(problems_in(document@.text) is Some);
                let ps = problems_in(document@.text)->0;
                assert(ps =~= problems_model(problems@));
            }
            found
        },
    }
}

} // verus!
