//! A project you can send somebody.
//!
//! A saved project's pipelines name their data wherever it was imported from, which on this
//! machine is an absolute path under someone's home directory. Copied elsewhere, every pipeline in
//! it names a file that is not there. This module works out what has to be carried along and
//! rewrites the pipelines to name the copies; and, for a plain save, anchors each reference
//! relative to the directory the pipeline is saved in wherever it can be written without climbing
//! out of it.
//!
//! **What is left alone.** A URL works from anywhere, so it is neither carried nor rewritten.
//! **What is missing is reported, not fatal**: a pipeline naming a file that has been moved is a
//! project someone still wants a copy of.
//!
//! Paths are text with `/` between components, resolved lexically: `.` and `..` are worked out
//! without asking the file system anything, so a path someone chose is never replaced by one they
//! have never seen.

use vstd::prelude::*;
use crate::paths::{extension, file_name, joined, split_slash, stem};
use crate::project::{SavedGraph, SavedGraphM};
use crate::paths::{file_name_bounds, find_last_dot};
use crate::server::{decimal, push_decimal};
use crate::text::{chars_of, owned, push_char, push_str, same_text, string_between, string_of};
use crate::vpl::ast::{texts, Pipeline};
use crate::vpl::document::{parsed, singles_model, singles_nodes, spliced, Document, DocumentM, Single, SingleM};
use crate::vpl::grammar::ParseErrorM;
use crate::vpl::ast::Span;
use crate::vpl::parse::ParseError;
use crate::vpl::print::quoted;
use crate::vpl::semantics::{first_under, role_spec, role_table, RoleM};

verus! {

/// The subdirectory carried files land in.
pub const DATA_DIR: &'static str = "data";

// ---------------------------------------------------------------------------------------------
// Paths, lexically
// ---------------------------------------------------------------------------------------------

/// A path with `.` and `..` worked out: whether it starts at the root, and its components.
pub ghost struct NormalM {
    pub rooted: bool,
    pub parts: Seq<Seq<char>>,
}

/// The components left after reading `parts` in order: empty ones and `.` change nothing, `..`
/// takes back the last one kept (or is kept itself when there is none to take back).
pub open spec fn resolve_parts(parts: Seq<Seq<char>>) -> Seq<Seq<char>>
    decreases parts.len(),
{
    if parts.len() == 0 {
        seq![]
    } else {
        let kept = resolve_parts(parts.drop_last());
        let p = parts.last();
        if p.len() == 0 || p == seq!['.'] {
            kept
        } else if p == seq!['.', '.'] {
            if kept.len() > 0 { kept.drop_last() } else { kept.push(p) }
        } else {
            kept.push(p)
        }
    }
}

/// `path` with `.` and `..` resolved, without asking the file system anything.
pub open spec fn normal(path: Seq<char>) -> NormalM {
    NormalM { rooted: path.len() > 0 && path[0] == '/', parts: resolve_parts(split_slash(path)) }
}

/// Components joined with `/`.
pub open spec fn join_parts(parts: Seq<Seq<char>>) -> Seq<char>
    decreases parts.len(),
{
    if parts.len() == 0 {
        seq![]
    } else if parts.len() == 1 {
        parts[0]
    } else {
        join_parts(parts.drop_last()) + seq!['/'] + parts.last()
    }
}

/// How a resolved path is written.
pub open spec fn render(n: NormalM) -> Seq<char> {
    if n.rooted { seq!['/'] + join_parts(n.parts) } else { join_parts(n.parts) }
}

/// The components of `text`, cut at every `/`.
pub fn parts_of(text: &str) -> (r: Vec<String>)
    ensures
        texts(r@) == split_slash(text@),
{
    let chars = chars_of(text);
    let mut parts: Vec<String> = Vec::new();
    let mut current: Vec<char> = Vec::new();
    let mut i: usize = 0;
    proof {
        assert(chars@.take(0) =~= Seq::<char>::empty());
        assert(texts(parts@).push(current@) =~= seq![seq![]]);
    }
    while i < chars.len()
        invariant
            i <= chars@.len(),
            chars@ == text@,
            texts(parts@).push(current@) == split_slash(chars@.take(i as int)),
        decreases chars@.len() - i,
    {
        let c = chars[i];
        proof {
            assert(chars@.take(i as int + 1).drop_last() =~= chars@.take(i as int));
            assert(chars@.take(i as int + 1).last() == c);
        }
        let ghost before = texts(parts@);
        if c == '/' {
            let done = string_of(current.as_slice());
            parts.push(done);
            current = Vec::new();
            proof {
                assert(texts(parts@) =~= before.push(done@));
                assert(texts(parts@).push(current@) =~= before.push(done@).push(seq![]));
            }
        } else {
            let ghost cur = current@;
            current.push(c);
            proof {
                assert(before.push(cur).update(before.len() as int, cur.push(c)) =~= before.push(current@));
            }
        }
        i = i + 1;
    }
    let last = string_of(current.as_slice());
    let ghost before = texts(parts@);
    parts.push(last);
    proof {
        assert(texts(parts@) =~= before.push(last@));
        assert(chars@.take(i as int) =~= chars@);
    }
    parts
}

/// `parts` resolved as [`resolve_parts`] says.
fn resolve(parts: &Vec<String>) -> (r: Vec<String>)
    ensures
        texts(r@) == resolve_parts(texts(parts@)),
{
    let mut kept: Vec<String> = Vec::new();
    let mut i: usize = 0;
    while i < parts.len()
        invariant
            i <= parts@.len(),
            texts(kept@) == resolve_parts(texts(parts@).take(i as int)),
        decreases parts@.len() - i,
    {
        let p = &parts[i];
        proof {
            assert(texts(parts@).take(i as int + 1).drop_last() =~= texts(parts@).take(i as int));
            assert(texts(parts@).take(i as int + 1).last() == p@);
        }
        let ghost before = texts(kept@);
        let empty = p.as_str().is_empty();
        if empty || same_text(p.as_str(), ".") {
            proof {
                reveal_strlit(".");
                if !empty {
                    assert(p@ =~= seq!['.']);
                }
                assert(texts(kept@) == resolve_parts(texts(parts@).take(i as int + 1)));
            }
        } else if same_text(p.as_str(), "..") {
            proof {
                reveal_strlit("..");
                assert(p@ =~= seq!['.', '.']);
            }
            if kept.len() > 0 {
                kept.pop();
                proof {
                    assert(texts(kept@) =~= before.drop_last());
                    assert(p@ != seq!['.']);
                    assert(p@.len() != 0);
                }
            } else {
                kept.push(p.clone());
                proof {
                    assert(texts(kept@) =~= before.push(p@));
                    assert(p@ != seq!['.']);
                    assert(p@.len() != 0);
                }
            }
        } else {
            proof {
                reveal_strlit(".");
                reveal_strlit("..");
                assert(p@ != seq!['.']) by {
                    if p@ == seq!['.'] { assert(p@ =~= "."@); }
                }
                assert(p@ != seq!['.', '.']) by {
                    if p@ == seq!['.', '.'] { assert(p@ =~= ".."@); }
                }
            }
            kept.push(p.clone());
            proof {
                assert(texts(kept@) =~= before.push(p@));
            }
        }
        i = i + 1;
    }
    proof {
        assert(texts(parts@).take(i as int) =~= texts(parts@));
    }
    kept
}

/// `parts` joined with `/`.
fn join(parts: &Vec<String>) -> (r: String)
    ensures
        r@ == join_parts(texts(parts@)),
{
    let mut out = String::new();
    let mut i: usize = 0;
    while i < parts.len()
        invariant
            i <= parts@.len(),
            out@ == join_parts(texts(parts@).take(i as int)),
        decreases parts@.len() - i,
    {
        proof {
            assert(texts(parts@).take(i as int + 1).drop_last() =~= texts(parts@).take(i as int));
            assert(texts(parts@).take(i as int + 1).last() == parts@[i as int]@);
            assert(texts(parts@).take(1)[0] == parts@[0]@);
        }
        if i > 0 {
            push_char(&mut out, '/');
        }
        push_str(&mut out, parts[i].as_str());
        i = i + 1;
    }
    proof {
        assert(texts(parts@).take(i as int) =~= texts(parts@));
    }
    out
}

/// `path` resolved as [`normal`] says: whether it is rooted, and its components.
fn normal_parts(path: &str) -> (r: (bool, Vec<String>))
    ensures
        r.0 == normal(path@).rooted,
        texts(r.1@) == normal(path@).parts,
{
    let chars = chars_of(path);
    let rooted = chars.len() > 0 && chars[0] == '/';
    let parts = parts_of(path);
    (rooted, resolve(&parts))
}

/// `path` with `.` and `..` resolved, without asking the file system anything.
///
/// Lexical on purpose: `/a/b/../b/c` and `/a/b/c` are the same file and not the same text, and a
/// reference that arrived with a `..` in it would otherwise never be seen as being below anything.
pub fn normalise(path: &str) -> (r: String)
    ensures
        r@ == render(normal(path@)),
{
    let (rooted, parts) = normal_parts(path);
    let body = join(&parts);
    if rooted {
        let mut out = String::new();
        push_char(&mut out, '/');
        push_str(&mut out, body.as_str());
        proof {
            assert(out@ =~= seq!['/'] + body@);
        }
        out
    } else {
        body
    }
}

/// The path a written value names: itself when it starts at the root, otherwise resolved against
/// the directory the pipeline sits in, when it sits in one.
pub open spec fn resolved_path(value: Seq<char>, from: Option<Seq<char>>) -> Seq<char> {
    if value.len() > 0 && value[0] == '/' {
        value
    } else {
        match from {
            Some(dir) => joined(dir, value),
            None => value,
        }
    }
}

/// How a reference to `value`, written in a pipeline that lived in `from`, is written in one
/// saved to `to`: relative when the file lies at or below `to`, so the two travel together, and
/// the whole resolved path otherwise - never a `../` that would break when either end moves.
pub open spec fn anchored_value(value: Seq<char>, from: Option<Seq<char>>, to: Seq<char>) -> Seq<char> {
    let p = normal(resolved_path(value, from));
    let t = normal(to);
    if p.rooted == t.rooted && t.parts.len() <= p.parts.len() && p.parts.take(t.parts.len() as int) == t.parts {
        join_parts(p.parts.skip(t.parts.len() as int))
    } else {
        render(p)
    }
}

/// Components as [`resolve_parts`] leaves them: none empty, none `.`, none holding `/`, and `..`
/// only first.
pub open spec fn clean(ps: Seq<Seq<char>>) -> bool {
    forall|k: int| 0 <= k < ps.len() ==> {
        &&& (#[trigger] ps[k]).len() > 0
        &&& ps[k] != seq!['.']
        &&& !ps[k].contains('/')
        &&& (ps[k] == seq!['.', '.'] ==> k == 0)
    }
}

proof fn lemma_split_has_no_slash(s: Seq<char>)
    ensures
        forall|k: int| 0 <= k < split_slash(s).len() ==> !(#[trigger] split_slash(s)[k]).contains('/'),
    decreases s.len(),
{
    if s.len() > 0 {
        lemma_split_has_no_slash(s.drop_last());
        crate::paths::lemma_split_nonempty(s.drop_last());
        let parts = split_slash(s.drop_last());
        if s.last() != '/' {
            let last = parts.last().push(s.last());
            assert(!last.contains('/')) by {
                if last.contains('/') {
                    let j = choose|j: int| 0 <= j < last.len() && last[j] == '/';
                    if j < parts.last().len() {
                        assert(parts.last()[j] == '/');
                        assert(parts[parts.len() - 1].contains('/'));
                    }
                }
            }
            let out = split_slash(s);
            assert forall|k: int| 0 <= k < out.len() implies !(#[trigger] out[k]).contains('/') by {
                if k < parts.len() - 1 {
                    assert(out[k] == parts[k]);
                }
            }
        } else {
            let out = split_slash(s);
            assert forall|k: int| 0 <= k < out.len() implies !(#[trigger] out[k]).contains('/') by {
                if k < parts.len() {
                    assert(out[k] == parts[k]);
                } else {
                    assert(out[k] == Seq::<char>::empty());
                }
            }
        }
    }
}

proof fn lemma_resolve_clean(ps: Seq<Seq<char>>)
    requires
        forall|k: int| 0 <= k < ps.len() ==> !(#[trigger] ps[k]).contains('/'),
    ensures
        clean(resolve_parts(ps)),
    decreases ps.len(),
{
    if ps.len() > 0 {
        lemma_resolve_clean(ps.drop_last());
        let kept = resolve_parts(ps.drop_last());
        let p = ps.last();
        assert(!p.contains('/'));
        if p.len() == 0 || p == seq!['.'] {
        } else if p == seq!['.', '.'] {
            if kept.len() > 0 {
                let out = kept.drop_last();
                assert forall|k: int| 0 <= k < out.len() implies (#[trigger] out[k]) == kept[k] by {}
            } else {
                let out = kept.push(p);
                assert(out.len() == 1 && out[0] == p);
            }
        } else {
            let out = kept.push(p);
            assert forall|k: int| 0 <= k < out.len() - 1 implies (#[trigger] out[k]) == kept[k] by {}
        }
    }
}

proof fn lemma_resolve_keeps_clean(ps: Seq<Seq<char>>)
    requires
        clean(ps),
    ensures
        resolve_parts(ps) == ps,
    decreases ps.len(),
{
    if ps.len() > 0 {
        let front = ps.drop_last();
        assert(clean(front)) by {
            assert forall|k: int| 0 <= k < front.len() implies #[trigger] front[k] == ps[k] by {}
        }
        lemma_resolve_keeps_clean(front);
        let p = ps.last();
        assert(p.len() > 0 && p != seq!['.']);
        if p == seq!['.', '.'] {
            assert(ps.len() == 1);
            assert(front.len() == 0);
            assert(front.push(p) =~= ps);
        } else {
            assert(front.push(p) =~= ps);
        }
    }
}

/// Resolving depends on a prefix only through what the prefix resolves to.
proof fn lemma_resolve_congruent(a: Seq<Seq<char>>, c: Seq<Seq<char>>, b: Seq<Seq<char>>)
    requires
        resolve_parts(a) == resolve_parts(c),
    ensures
        resolve_parts(a + b) == resolve_parts(c + b),
    decreases b.len(),
{
    if b.len() == 0 {
        assert(a + b =~= a);
        assert(c + b =~= c);
    } else {
        lemma_resolve_congruent(a, c, b.drop_last());
        assert((a + b).drop_last() =~= a + b.drop_last());
        assert((c + b).drop_last() =~= c + b.drop_last());
        assert((a + b).last() == b.last());
        assert((c + b).last() == b.last());
    }
}

proof fn lemma_split_no_slash(x: Seq<char>)
    requires
        !x.contains('/'),
    ensures
        split_slash(x) == seq![x],
    decreases x.len(),
{
    if x.len() > 0 {
        assert(x.last() == x[x.len() - 1]);
        assert(!x.drop_last().contains('/')) by {
            if x.drop_last().contains('/') {
                let j = choose|j: int| 0 <= j < x.drop_last().len() && x.drop_last()[j] == '/';
                assert(x[j] == '/');
            }
        }
        lemma_split_no_slash(x.drop_last());
        assert(x.drop_last().push(x.last()) =~= x);
        assert(seq![x.drop_last()].update(0, x.drop_last().push(x.last())) =~= seq![x]);
    } else {
        assert(x =~= Seq::<char>::empty());
    }
}

proof fn lemma_split_join(a: Seq<char>, b: Seq<char>)
    ensures
        split_slash(a + seq!['/'] + b) == split_slash(a) + split_slash(b),
    decreases b.len(),
{
    if b.len() == 0 {
        assert(a + seq!['/'] + b =~= a.push('/'));
        assert((a.push('/')).drop_last() =~= a);
        assert(split_slash(b) =~= seq![Seq::<char>::empty()]) by {
            assert(b =~= Seq::<char>::empty());
        }
        assert(split_slash(a).push(seq![]) =~= split_slash(a) + seq![Seq::<char>::empty()]);
    } else {
        lemma_split_join(a, b.drop_last());
        let whole = a + seq!['/'] + b;
        assert(whole.drop_last() =~= a + seq!['/'] + b.drop_last());
        assert(whole.last() == b.last());
        crate::paths::lemma_split_nonempty(b.drop_last());
        crate::paths::lemma_split_nonempty(a);
        let x = split_slash(a);
        let y = split_slash(b.drop_last());
        if b.last() == '/' {
            assert((x + y).push(seq![]) =~= x + y.push(seq![]));
        } else {
            assert((x + y).last() == y.last());
            assert((x + y).update((x + y).len() - 1, y.last().push(b.last()))
                =~= x + y.update(y.len() - 1, y.last().push(b.last())));
        }
    }
}

proof fn lemma_split_parts(ps: Seq<Seq<char>>)
    requires
        ps.len() > 0,
        forall|k: int| 0 <= k < ps.len() ==> !(#[trigger] ps[k]).contains('/'),
    ensures
        split_slash(join_parts(ps)) == ps,
    decreases ps.len(),
{
    if ps.len() == 1 {
        lemma_split_no_slash(ps[0]);
        assert(seq![ps[0]] =~= ps);
    } else {
        let front = ps.drop_last();
        lemma_split_parts(front);
        lemma_split_join(join_parts(front), ps.last());
        lemma_split_no_slash(ps.last());
        assert(front + seq![ps.last()] =~= ps);
    }
}

proof fn lemma_join_starts(ps: Seq<Seq<char>>)
    requires
        ps.len() > 0,
        ps[0].len() > 0,
    ensures
        join_parts(ps).len() > 0 && join_parts(ps)[0] == ps[0][0],
    decreases ps.len(),
{
    if ps.len() > 1 {
        lemma_join_starts(ps.drop_last());
    }
}

/// Anchoring a rooted path twice in the same place changes nothing the second time: what the first
/// anchoring writes, read again from where it now lives, is written the same.
pub proof fn lemma_anchored_value_settles(v: Seq<char>, d: Seq<char>)
    requires
        v.len() > 0 && v[0] == '/',
        d.len() > 0 && d[0] == '/',
    ensures
        anchored_value(anchored_value(v, None, d), Some(d), d) == anchored_value(v, None, d),
{
    let p = normal(v);
    let t = normal(d);
    let pp = p.parts;
    let tp = t.parts;
    let m = tp.len() as int;
    lemma_split_has_no_slash(v);
    lemma_split_has_no_slash(d);
    lemma_resolve_clean(split_slash(v));
    lemma_resolve_clean(split_slash(d));
    lemma_resolve_keeps_clean(pp);
    lemma_resolve_keeps_clean(tp);
    let w = anchored_value(v, None, d);
    if p.rooted == t.rooted && tp.len() <= pp.len() && pp.take(m) == tp {
        let rest = pp.skip(m);
        assert(w == join_parts(rest));
        assert forall|k: int| 0 <= k < rest.len() implies !(#[trigger] rest[k]).contains('/') && rest[k].len() > 0 by {
            assert(rest[k] == pp[k + m]);
        }
        if rest.len() > 0 {
            lemma_join_starts(rest);
            assert(rest[0] == pp[m]);
            assert(rest[0][0] != '/') by {
                if rest[0][0] == '/' {
                    assert(rest[0].contains('/'));
                }
            }
            lemma_split_parts(rest);
        } else {
            assert(w =~= Seq::<char>::empty());
            assert(split_slash(w) =~= seq![Seq::<char>::empty()]);
        }
        let resolved = resolved_path(w, Some(d));
        assert(resolved == joined(d, w));
        // The parts of `d` then those of `w`.
        let (front, tail) = if d.last() == '/' {
            let d2 = d.drop_last();
            assert(d2 + seq!['/'] =~= d);
            assert(joined(d, w) =~= d2 + seq!['/'] + w);
            lemma_split_join(d2, seq![]);
            assert(d2 + seq!['/'] + Seq::<char>::empty() =~= d);
            assert(split_slash(Seq::<char>::empty()) =~= seq![Seq::<char>::empty()]);
            assert(split_slash(d) == split_slash(d2) + seq![Seq::<char>::empty()]);
            assert(split_slash(d) =~= split_slash(d2).push(seq![]));
            assert(split_slash(d).drop_last() =~= split_slash(d2));
            assert(resolve_parts(split_slash(d2)) == tp);
            (d2, w)
        } else {
            assert(joined(d, w) =~= d + seq!['/'] + w);
            (d, w)
        };
        lemma_split_join(front, tail);
        assert(split_slash(resolved) == split_slash(front) + split_slash(w));
        lemma_resolve_congruent(split_slash(front), tp, split_slash(w));
        if rest.len() > 0 {
            assert(tp + rest =~= pp) by {
                assert forall|k: int| 0 <= k < pp.len() implies (tp + rest)[k] == pp[k] by {
                    if k < m {
                        assert(tp[k] == pp.take(m)[k]);
                    }
                }
            }
        } else {
            assert(pp =~= tp) by {
                assert forall|k: int| 0 <= k < pp.len() implies pp[k] == tp[k] by {
                    assert(tp[k] == pp.take(m)[k]);
                }
            }
            assert((tp + seq![Seq::<char>::empty()]).drop_last() =~= tp);
        }
        assert(normal(resolved).parts == pp);
        assert(normal(resolved) == p);
    } else {
        assert(w == render(p));
        assert(w =~= seq!['/'] + join_parts(pp));
        assert(resolved_path(w, Some(d)) == w);
        lemma_split_join(seq![], join_parts(pp));
        assert(Seq::<char>::empty() + seq!['/'] + join_parts(pp) =~= w);
        assert(split_slash(Seq::<char>::empty()) =~= seq![Seq::<char>::empty()]);
        if pp.len() > 0 {
            lemma_split_parts(pp);
        } else {
            assert(join_parts(pp) =~= Seq::<char>::empty());
        }
        assert(resolve_parts(Seq::<Seq<char>>::empty()) =~= Seq::<Seq<char>>::empty());
        assert(resolve_parts(seq![Seq::<char>::empty()]) =~= Seq::<Seq<char>>::empty()) by {
            let one = seq![Seq::<char>::empty()];
            assert(one.drop_last() =~= Seq::<Seq<char>>::empty());
            assert(one.last().len() == 0);
            assert(resolve_parts(one) == resolve_parts(one.drop_last()));
        }
        lemma_resolve_congruent(seq![Seq::<char>::empty()], Seq::<Seq<char>>::empty(), split_slash(join_parts(pp)));
        assert(Seq::<Seq<char>>::empty() + split_slash(join_parts(pp)) =~= split_slash(join_parts(pp)));
        assert(normal(w) == p);
    }
}

/// Writes `value` as it should read in a pipeline saved to `to`; see [`anchored_value`].
pub fn anchored(value: &str, from: Option<&str>, to: &str) -> (r: String)
    ensures
        r@ == anchored_value(value@, match from { Some(d) => Some(d@), None => None }, to@),
{
    let chars = chars_of(value);
    let resolved = if chars.len() > 0 && chars[0] == '/' {
        owned(value)
    } else {
        match from {
            Some(dir) => join_path(dir, value),
            None => owned(value),
        }
    };
    let (p_rooted, p_parts) = normal_parts(resolved.as_str());
    let (t_rooted, t_parts) = normal_parts(to);
    let mut below = p_rooted == t_rooted && t_parts.len() <= p_parts.len();
    let mut k: usize = 0;
    while below && k < t_parts.len()
        invariant
            below ==> k <= t_parts@.len(),
            below ==> t_parts@.len() <= p_parts@.len(),
            below ==> p_rooted == t_rooted,
            below ==> forall|m: int| 0 <= m < k ==> texts(p_parts@)[m] == texts(t_parts@)[m],
            !below ==> !(p_rooted == t_rooted && t_parts@.len() <= p_parts@.len()
                && texts(p_parts@).take(t_parts@.len() as int) == texts(t_parts@)),
        decreases t_parts@.len() - k,
    {
        proof {
            assert(texts(p_parts@)[k as int] == p_parts@[k as int]@);
            assert(texts(t_parts@)[k as int] == t_parts@[k as int]@);
        }
        if !same_text(p_parts[k].as_str(), t_parts[k].as_str()) {
            proof {
                if texts(p_parts@).take(t_parts@.len() as int) == texts(t_parts@) {
                    assert(texts(p_parts@).take(t_parts@.len() as int)[k as int] == texts(t_parts@)[k as int]);
                }
            }
            below = false;
        }
        k = k + 1;
    }
    proof {
        assert(resolved@ == resolved_path(value@, match from { Some(d) => Some(d@), None => None }));
    }
    if below {
        proof {
            assert(texts(p_parts@).take(t_parts@.len() as int) =~= texts(t_parts@));
        }
        let mut rest: Vec<String> = Vec::new();
        let mut m: usize = t_parts.len();
        while m < p_parts.len()
            invariant
                t_parts@.len() <= m <= p_parts@.len(),
                texts(rest@) == texts(p_parts@).subrange(t_parts@.len() as int, m as int),
            decreases p_parts@.len() - m,
        {
            let ghost before = texts(rest@);
            rest.push(p_parts[m].clone());
            proof {
                assert(texts(rest@) =~= before.push(p_parts@[m as int]@));
                assert(texts(p_parts@).subrange(t_parts@.len() as int, m as int + 1)
                    =~= texts(p_parts@).subrange(t_parts@.len() as int, m as int).push(texts(p_parts@)[m as int]));
            }
            m = m + 1;
        }
        proof {
            assert(texts(p_parts@).subrange(t_parts@.len() as int, m as int) =~= texts(p_parts@).skip(t_parts@.len() as int));
        }
        let r = join(&rest);
        proof {
            let pn = normal(resolved@);
            let tn = normal(to@);
            assert(pn.rooted == tn.rooted);
            assert(tn.parts.len() <= pn.parts.len());
            assert(pn.parts.take(tn.parts.len() as int) == tn.parts);
            assert(r@ == join_parts(pn.parts.skip(tn.parts.len() as int)));
        }
        r
    } else {
        normalise(resolved.as_str())
    }
}

/// `dir` and `rel` joined by one separator.
fn join_path(dir: &str, rel: &str) -> (r: String)
    ensures
        r@ == joined(dir@, rel@),
{
    let d = chars_of(dir);
    let mut out = owned(dir);
    if d.len() > 0 && d[d.len() - 1] != '/' {
        push_char(&mut out, '/');
    }
    push_str(&mut out, rel);
    proof {
        if d.len() > 0 {
            assert(d@.last() == d@[d@.len() - 1]);
        }
    }
    out
}

// ---------------------------------------------------------------------------------------------
// Which values name files
// ---------------------------------------------------------------------------------------------

/// Whether `operation.field` names a file.
///
/// A list, because nothing in the operation metadata says so: every one of these is a plain string
/// parameter, indistinguishable by type from a format name. Qualified by operation rather than
/// matched by name, so a future `filename` meaning something else cannot silently join it.
pub open spec fn file_field(operation: Seq<char>, field: Seq<char>) -> bool {
    ||| operation == "filter"@ && field == "filename"@
    ||| operation == "from_container"@ && field == "filename"@
    ||| operation == "from_csv"@ && field == "filename"@
    ||| operation == "from_gdal_dem"@ && field == "filename"@
    ||| operation == "from_gdal_raster"@ && field == "filename"@
    ||| operation == "from_geo"@ && field == "filename"@
    ||| operation == "from_tile"@ && field == "filename"@
    ||| operation == "from_tilejson"@ && field == "url"@
    ||| operation == "meta_update"@ && field == "tilejson_file"@
    ||| operation == "meta_update"@ && field == "tilejson_update_file"@
    ||| operation == "meta_update"@ && field == "vector_layers_file"@
    ||| operation == "vector_update_properties"@ && field == "data_source_path"@
}

/// The parameters that name a file, as (operation, parameter) pairs.
pub open spec fn file_fields() -> Seq<(Seq<char>, Seq<char>)> {
    seq![
        ("filter"@, "filename"@),
        ("from_container"@, "filename"@),
        ("from_csv"@, "filename"@),
        ("from_gdal_dem"@, "filename"@),
        ("from_gdal_raster"@, "filename"@),
        ("from_geo"@, "filename"@),
        ("from_tile"@, "filename"@),
        ("from_tilejson"@, "url"@),
        ("meta_update"@, "tilejson_file"@),
        ("meta_update"@, "tilejson_update_file"@),
        ("meta_update"@, "vector_layers_file"@),
        ("vector_update_properties"@, "data_source_path"@),
    ]
}

/// Exactly the twelve pairs of [`file_fields`] name files and nothing else does: of `filter`'s
/// parameters only `filename`, of `from_tilejson`'s only `url`, and so on; a zoom level or a format
/// is never taken for a file.
pub proof fn lemma_exactly_the_listed_fields_name_files(operation: Seq<char>, field: Seq<char>)
    ensures
        file_field(operation, field) <==> file_fields().contains((operation, field)),
        operation == "filter"@ ==> (file_field(operation, field) <==> field == "filename"@),
{
    let l = file_fields();
    if file_field(operation, field) {
        if operation == "filter"@ && field == "filename"@ { assert(l[0] == (operation, field)); }
        else if operation == "from_container"@ && field == "filename"@ { assert(l[1] == (operation, field)); }
        else if operation == "from_csv"@ && field == "filename"@ { assert(l[2] == (operation, field)); }
        else if operation == "from_gdal_dem"@ && field == "filename"@ { assert(l[3] == (operation, field)); }
        else if operation == "from_gdal_raster"@ && field == "filename"@ { assert(l[4] == (operation, field)); }
        else if operation == "from_geo"@ && field == "filename"@ { assert(l[5] == (operation, field)); }
        else if operation == "from_tile"@ && field == "filename"@ { assert(l[6] == (operation, field)); }
        else if operation == "from_tilejson"@ && field == "url"@ { assert(l[7] == (operation, field)); }
        else if operation == "meta_update"@ && field == "tilejson_file"@ { assert(l[8] == (operation, field)); }
        else if operation == "meta_update"@ && field == "tilejson_update_file"@ { assert(l[9] == (operation, field)); }
        else if operation == "meta_update"@ && field == "vector_layers_file"@ { assert(l[10] == (operation, field)); }
        else { assert(l[11] == (operation, field)); }
    }
    if l.contains((operation, field)) {
        let i = choose|i: int| 0 <= i < l.len() && l[i] == (operation, field);
        assert(0 <= i < 12);
    }
    if operation == "filter"@ {
        reveal_strlit("filter");
        reveal_strlit("from_container");
        reveal_strlit("from_csv");
        reveal_strlit("from_gdal_dem");
        reveal_strlit("from_gdal_raster");
        reveal_strlit("from_geo");
        reveal_strlit("from_tile");
        reveal_strlit("from_tilejson");
        reveal_strlit("meta_update");
        reveal_strlit("vector_update_properties");
        assert("filter"@[1] != "from_container"@[1]);
        assert("filter"@.len() != "from_csv"@.len());
        assert("filter"@.len() != "from_gdal_dem"@.len());
        assert("filter"@.len() != "from_gdal_raster"@.len());
        assert("filter"@.len() != "from_geo"@.len());
        assert("filter"@.len() != "from_tile"@.len());
        assert("filter"@.len() != "from_tilejson"@.len());
        assert("filter"@.len() != "meta_update"@.len());
        assert("filter"@.len() != "vector_update_properties"@.len());
    }
}

proof fn lemma_first_under_at<V>(t: Seq<(Seq<char>, V)>, name: Seq<char>, i: int)
    requires
        0 <= i < t.len(),
        t[i].0 == name,
        forall|j: int| 0 <= j < i ==> (#[trigger] t[j]).0 != name,
    ensures
        first_under(t, name) == Some(t[i].1),
    decreases i,
{
    if i > 0 {
        assert forall|j: int| 0 <= j < i - 1 implies (#[trigger] t.drop_first()[j]).0 != name by {
            assert(t.drop_first()[j] == t[j + 1]);
        }
        lemma_first_under_at(t.drop_first(), name, i - 1);
    }
}

/// Whether a role is that of a path or a URL.
pub open spec fn names_a_location(r: Option<RoleM>) -> bool {
    ||| r matches Some(RoleM::Path { .. })
    ||| r matches Some(RoleM::Url)
}

/// Every parameter that is taken to name a file is one the role table independently calls a path
/// or a URL: a zoom level, a number or a format is never carried or re-anchored as a file.
pub proof fn lemma_file_fields_are_paths(operation: Seq<char>, field: Seq<char>)
    ensures
        file_field(operation, field) ==> names_a_location(role_spec(operation, field)),
{
    if file_field(operation, field) {
        reveal_strlit("center");
        reveal_strlit("data_source_path");
        reveal_strlit("dem_overview");
        reveal_strlit("dem_tile_resize");
        reveal_strlit("filename");
        reveal_strlit("fillzoom");
        reveal_strlit("filter");
        reveal_strlit("from_color");
        reveal_strlit("from_container");
        reveal_strlit("from_csv");
        reveal_strlit("from_gdal_dem");
        reveal_strlit("from_gdal_raster");
        reveal_strlit("from_geo");
        reveal_strlit("from_grid");
        reveal_strlit("from_h3");
        reveal_strlit("from_tile");
        reveal_strlit("from_tilejson");
        reveal_strlit("level_max");
        reveal_strlit("level_min");
        reveal_strlit("meta_update");
        reveal_strlit("raster_flatten");
        reveal_strlit("raster_format");
        reveal_strlit("raster_levels");
        reveal_strlit("raster_mask");
        reveal_strlit("raster_overscale");
        reveal_strlit("raster_overview");
        reveal_strlit("raster_tile_resize");
        reveal_strlit("tilejson");
        reveal_strlit("tilejson_file");
        reveal_strlit("tilejson_update");
        reveal_strlit("tilejson_update_file");
        reveal_strlit("url");
        reveal_strlit("vector_filter_features");
        reveal_strlit("vector_filter_layers");
        reveal_strlit("vector_filter_properties");
        reveal_strlit("vector_layers");
        reveal_strlit("vector_layers_file");
        reveal_strlit("vector_overzoom");
        reveal_strlit("vector_update_properties");
        if operation == "filter"@ && field == "filename"@ {
            assert("filter"@.len() != "from_color"@.len());
            assert("filter"@.len() != "from_container"@.len());
            assert("filter"@.len() != "from_csv"@.len());
            assert("filter"@.len() != "from_gdal_dem"@.len());
            assert("filter"@.len() != "from_gdal_raster"@.len());
            assert("filter"@.len() != "from_geo"@.len());
            assert("filter"@.len() != "from_grid"@.len());
            assert("filter"@.len() != "from_h3"@.len());
            assert("filter"@.len() != "from_tile"@.len());
            assert("filter"@.len() != "from_tilejson"@.len());
            assert("filter"@.len() != "dem_overview"@.len());
            assert("filter"@.len() != "dem_tile_resize"@.len());
            assert("filename"@.len() != "level_min"@.len());
            assert("filename"@.len() != "level_max"@.len());
            lemma_first_under_at(role_table(), "filter"@, 12);
            lemma_first_under_at(role_table()[12].1, "filename"@, 2);
        } else if operation == "from_container"@ && field == "filename"@ {
            assert("from_container"@.len() != "from_color"@.len());
            lemma_first_under_at(role_table(), "from_container"@, 1);
            lemma_first_under_at(role_table()[1].1, "filename"@, 0);
        } else if operation == "from_csv"@ && field == "filename"@ {
            assert("from_csv"@.len() != "from_color"@.len());
            assert("from_csv"@.len() != "from_container"@.len());
            lemma_first_under_at(role_table(), "from_csv"@, 2);
            lemma_first_under_at(role_table()[2].1, "filename"@, 0);
        } else if operation == "from_gdal_dem"@ && field == "filename"@ {
            assert("from_gdal_dem"@.len() != "from_color"@.len());
            assert("from_gdal_dem"@.len() != "from_container"@.len());
            assert("from_gdal_dem"@.len() != "from_csv"@.len());
            lemma_first_under_at(role_table(), "from_gdal_dem"@, 3);
            lemma_first_under_at(role_table()[3].1, "filename"@, 0);
        } else if operation == "from_gdal_raster"@ && field == "filename"@ {
            assert("from_gdal_raster"@.len() != "from_color"@.len());
            assert("from_gdal_raster"@.len() != "from_container"@.len());
            assert("from_gdal_raster"@.len() != "from_csv"@.len());
            assert("from_gdal_raster"@.len() != "from_gdal_dem"@.len());
            lemma_first_under_at(role_table(), "from_gdal_raster"@, 4);
            lemma_first_under_at(role_table()[4].1, "filename"@, 0);
        } else if operation == "from_geo"@ && field == "filename"@ {
            assert("from_geo"@.len() != "from_color"@.len());
            assert("from_geo"@.len() != "from_container"@.len());
            assert("from_geo"@[5] != "from_csv"@[5]);
            assert("from_geo"@.len() != "from_gdal_dem"@.len());
            assert("from_geo"@.len() != "from_gdal_raster"@.len());
            lemma_first_under_at(role_table(), "from_geo"@, 5);
            lemma_first_under_at(role_table()[5].1, "filename"@, 0);
        } else if operation == "from_tile"@ && field == "filename"@ {
            assert("from_tile"@.len() != "from_color"@.len());
            assert("from_tile"@.len() != "from_container"@.len());
            assert("from_tile"@.len() != "from_csv"@.len());
            assert("from_tile"@.len() != "from_gdal_dem"@.len());
            assert("from_tile"@.len() != "from_gdal_raster"@.len());
            assert("from_tile"@.len() != "from_geo"@.len());
            assert("from_tile"@[5] != "from_grid"@[5]);
            assert("from_tile"@.len() != "from_h3"@.len());
            lemma_first_under_at(role_table(), "from_tile"@, 8);
            lemma_first_under_at(role_table()[8].1, "filename"@, 0);
        } else if operation == "from_tilejson"@ && field == "url"@ {
            assert("from_tilejson"@.len() != "from_color"@.len());
            assert("from_tilejson"@.len() != "from_container"@.len());
            assert("from_tilejson"@.len() != "from_csv"@.len());
            assert("from_tilejson"@[5] != "from_gdal_dem"@[5]);
            assert("from_tilejson"@.len() != "from_gdal_raster"@.len());
            assert("from_tilejson"@.len() != "from_geo"@.len());
            assert("from_tilejson"@.len() != "from_grid"@.len());
            assert("from_tilejson"@.len() != "from_h3"@.len());
            assert("from_tilejson"@.len() != "from_tile"@.len());
            lemma_first_under_at(role_table(), "from_tilejson"@, 9);
            lemma_first_under_at(role_table()[9].1, "url"@, 0);
        } else if operation == "meta_update"@ && field == "tilejson_file"@ {
            assert("meta_update"@.len() != "from_color"@.len());
            assert("meta_update"@.len() != "from_container"@.len());
            assert("meta_update"@.len() != "from_csv"@.len());
            assert("meta_update"@.len() != "from_gdal_dem"@.len());
            assert("meta_update"@.len() != "from_gdal_raster"@.len());
            assert("meta_update"@.len() != "from_geo"@.len());
            assert("meta_update"@.len() != "from_grid"@.len());
            assert("meta_update"@.len() != "from_h3"@.len());
            assert("meta_update"@.len() != "from_tile"@.len());
            assert("meta_update"@.len() != "from_tilejson"@.len());
            assert("meta_update"@.len() != "dem_overview"@.len());
            assert("meta_update"@.len() != "dem_tile_resize"@.len());
            assert("meta_update"@.len() != "filter"@.len());
            assert("tilejson_file"@.len() != "center"@.len());
            assert("tilejson_file"@.len() != "fillzoom"@.len());
            assert("tilejson_file"@.len() != "tilejson"@.len());
            lemma_first_under_at(role_table(), "meta_update"@, 13);
            lemma_first_under_at(role_table()[13].1, "tilejson_file"@, 3);
        } else if operation == "meta_update"@ && field == "tilejson_update_file"@ {
            assert("meta_update"@.len() != "from_color"@.len());
            assert("meta_update"@.len() != "from_container"@.len());
            assert("meta_update"@.len() != "from_csv"@.len());
            assert("meta_update"@.len() != "from_gdal_dem"@.len());
            assert("meta_update"@.len() != "from_gdal_raster"@.len());
            assert("meta_update"@.len() != "from_geo"@.len());
            assert("meta_update"@.len() != "from_grid"@.len());
            assert("meta_update"@.len() != "from_h3"@.len());
            assert("meta_update"@.len() != "from_tile"@.len());
            assert("meta_update"@.len() != "from_tilejson"@.len());
            assert("meta_update"@.len() != "dem_overview"@.len());
            assert("meta_update"@.len() != "dem_tile_resize"@.len());
            assert("meta_update"@.len() != "filter"@.len());
            assert("tilejson_update_file"@.len() != "center"@.len());
            assert("tilejson_update_file"@.len() != "fillzoom"@.len());
            assert("tilejson_update_file"@.len() != "tilejson"@.len());
            assert("tilejson_update_file"@.len() != "tilejson_file"@.len());
            assert("tilejson_update_file"@.len() != "tilejson_update"@.len());
            lemma_first_under_at(role_table(), "meta_update"@, 13);
            lemma_first_under_at(role_table()[13].1, "tilejson_update_file"@, 5);
        } else if operation == "meta_update"@ && field == "vector_layers_file"@ {
            assert("meta_update"@.len() != "from_color"@.len());
            assert("meta_update"@.len() != "from_container"@.len());
            assert("meta_update"@.len() != "from_csv"@.len());
            assert("meta_update"@.len() != "from_gdal_dem"@.len());
            assert("meta_update"@.len() != "from_gdal_raster"@.len());
            assert("meta_update"@.len() != "from_geo"@.len());
            assert("meta_update"@.len() != "from_grid"@.len());
            assert("meta_update"@.len() != "from_h3"@.len());
            assert("meta_update"@.len() != "from_tile"@.len());
            assert("meta_update"@.len() != "from_tilejson"@.len());
            assert("meta_update"@.len() != "dem_overview"@.len());
            assert("meta_update"@.len() != "dem_tile_resize"@.len());
            assert("meta_update"@.len() != "filter"@.len());
            assert("vector_layers_file"@.len() != "center"@.len());
            assert("vector_layers_file"@.len() != "fillzoom"@.len());
            assert("vector_layers_file"@.len() != "tilejson"@.len());
            assert("vector_layers_file"@.len() != "tilejson_file"@.len());
            assert("vector_layers_file"@.len() != "tilejson_update"@.len());
            assert("vector_layers_file"@.len() != "tilejson_update_file"@.len());
            assert("vector_layers_file"@.len() != "vector_layers"@.len());
            lemma_first_under_at(role_table(), "meta_update"@, 13);
            lemma_first_under_at(role_table()[13].1, "vector_layers_file"@, 7);
        } else if operation == "vector_update_properties"@ && field == "data_source_path"@ {
            assert("vector_update_properties"@.len() != "from_color"@.len());
            assert("vector_update_properties"@.len() != "from_container"@.len());
            assert("vector_update_properties"@.len() != "from_csv"@.len());
            assert("vector_update_properties"@.len() != "from_gdal_dem"@.len());
            assert("vector_update_properties"@.len() != "from_gdal_raster"@.len());
            assert("vector_update_properties"@.len() != "from_geo"@.len());
            assert("vector_update_properties"@.len() != "from_grid"@.len());
            assert("vector_update_properties"@.len() != "from_h3"@.len());
            assert("vector_update_properties"@.len() != "from_tile"@.len());
            assert("vector_update_properties"@.len() != "from_tilejson"@.len());
            assert("vector_update_properties"@.len() != "dem_overview"@.len());
            assert("vector_update_properties"@.len() != "dem_tile_resize"@.len());
            assert("vector_update_properties"@.len() != "filter"@.len());
            assert("vector_update_properties"@.len() != "meta_update"@.len());
            assert("vector_update_properties"@.len() != "raster_format"@.len());
            assert("vector_update_properties"@.len() != "raster_flatten"@.len());
            assert("vector_update_properties"@.len() != "raster_levels"@.len());
            assert("vector_update_properties"@.len() != "raster_mask"@.len());
            assert("vector_update_properties"@.len() != "raster_overscale"@.len());
            assert("vector_update_properties"@.len() != "raster_overview"@.len());
            assert("vector_update_properties"@.len() != "raster_tile_resize"@.len());
            assert("vector_update_properties"@.len() != "vector_filter_features"@.len());
            assert("vector_update_properties"@.len() != "vector_filter_layers"@.len());
            assert("vector_update_properties"@[7] != "vector_filter_properties"@[7]);
            assert("vector_update_properties"@.len() != "vector_overzoom"@.len());
            lemma_first_under_at(role_table(), "vector_update_properties"@, 25);
            lemma_first_under_at(role_table()[25].1, "data_source_path"@, 0);
        }
    }
}

/// Whether `operation.field` names a file; see [`file_field`].
pub fn names_a_file(operation: &str, field: &str) -> (b: bool)
    ensures
        b == file_field(operation@, field@),
{
    let filename = same_text(field, "filename");
    (same_text(operation, "filter") && filename)
        || (same_text(operation, "from_container") && filename)
        || (same_text(operation, "from_csv") && filename)
        || (same_text(operation, "from_gdal_dem") && filename)
        || (same_text(operation, "from_gdal_raster") && filename)
        || (same_text(operation, "from_geo") && filename)
        || (same_text(operation, "from_tile") && filename)
        || (same_text(operation, "from_tilejson") && same_text(field, "url"))
        || (same_text(operation, "meta_update") && same_text(field, "tilejson_file"))
        || (same_text(operation, "meta_update") && same_text(field, "tilejson_update_file"))
        || (same_text(operation, "meta_update") && same_text(field, "vector_layers_file"))
        || (same_text(operation, "vector_update_properties") && same_text(field, "data_source_path"))
}

/// Whether `://` starts at `i` in `v`.
pub open spec fn separator_at(v: Seq<char>, i: int) -> bool {
    0 <= i && i + 3 <= v.len() && v[i] == ':' && v[i + 1] == '/' && v[i + 2] == '/'
}

/// Where the first `://` at or after `i` starts.
pub open spec fn first_separator(v: Seq<char>, i: int) -> Option<int>
    decreases v.len() - i,
{
    if i < 0 || i + 3 > v.len() {
        None
    } else if separator_at(v, i) {
        Some(i)
    } else {
        first_separator(v, i + 1)
    }
}

pub open spec fn scheme_char(c: char) -> bool {
    crate::text::is_ascii_alnum(c) || c == '+'
}

/// Whether a value is a URL rather than a path: what comes before its first `://` is a scheme of
/// two or more letters, digits or `+` - a single letter is a Windows drive, and `C:\tiles` is a
/// path however much it looks like a URL.
pub open spec fn url(v: Seq<char>) -> bool {
    match first_separator(v, 0) {
        Some(i) => i > 1 && forall|j: int| 0 <= j < i ==> scheme_char(#[trigger] v[j]),
        None => false,
    }
}

/// Whether a value is a URL rather than a path; see [`url`].
pub fn is_url(value: &str) -> (b: bool)
    ensures
        b == url(value@),
{
    let v = chars_of(value);
    let mut i: usize = 0;
    let mut scheme = true;
    while i < v.len() && v.len() - i >= 3
        invariant
            i <= v@.len(),
            v@ == value@,
            first_separator(v@, 0) == first_separator(v@, i as int),
            scheme == forall|j: int| 0 <= j < i ==> scheme_char(#[trigger] v@[j]),
        decreases v@.len() - i,
    {
        if v[i] == ':' && v[i + 1] == '/' && v[i + 2] == '/' {
            return i > 1 && scheme;
        }
        let c = v[i];
        if !(crate::text::ascii_alnum(c) || c == '+') {
            scheme = false;
        }
        i = i + 1;
    }
    false
}

/// The single values of a walk that name files, in the order met.
pub open spec fn file_refs(all: Seq<SingleM>) -> Seq<SingleM>
    decreases all.len(),
{
    if all.len() == 0 {
        seq![]
    } else if file_field(all.last().operation, all.last().key) {
        file_refs(all.drop_last()).push(all.last())
    } else {
        file_refs(all.drop_last())
    }
}

/// Every reference to a file in `pipeline`, in the order a walk of it meets them.
pub fn file_references(pipeline: &Pipeline) -> (r: Vec<Single>)
    ensures
        singles_model(r@) == file_refs(singles_nodes(pipeline@, 0)),
        forall|k: int| 0 <= k < r@.len() ==> singles_nodes(pipeline@, 0).contains(#[trigger] r@[k]@),
{
    let all = pipeline.singles();
    let ghost whole = singles_model(all@);
    let mut out: Vec<Single> = Vec::new();
    let mut i: usize = 0;
    while i < all.len()
        invariant
            i <= all@.len(),
            whole == singles_model(all@),
            singles_model(out@) == file_refs(whole.take(i as int)),
            forall|k: int| 0 <= k < out@.len() ==> whole.contains(#[trigger] out@[k]@),
        decreases all@.len() - i,
    {
        let s = &all[i];
        proof {
            assert(whole.take(i as int + 1).drop_last() =~= whole.take(i as int));
            assert(whole.take(i as int + 1).last() == s@);
            assert(whole[i as int] == s@);
        }
        if names_a_file(s.operation.as_str(), s.key.as_str()) {
            let ghost before = out@;
            out.push(Single { operation: s.operation.clone(), key: s.key.clone(), value: s.value.clone(), span: s.span });
            proof {
                assert(singles_model(out@) =~= singles_model(before).push(s@));
                assert(out@[out@.len() - 1]@ == s@);
            }
        }
        i = i + 1;
    }
    proof {
        assert(whole.take(i as int) =~= whole);
    }
    out
}

// ---------------------------------------------------------------------------------------------
// Anchoring a pipeline where it is saved
// ---------------------------------------------------------------------------------------------

/// The option of a borrowed text, as text.
pub open spec fn opt_view(o: Option<&str>) -> Option<Seq<char>> {
    match o {
        Some(s) => Some(s@),
        None => None,
    }
}

/// How many files the document `t` names.
pub open spec fn reference_count(t: Seq<char>) -> nat {
    match parsed(t) {
        Ok(d) => file_refs(singles_nodes(d.pipeline, 0)).len(),
        Err(_) => 0,
    }
}

/// The text after anchoring the references of `t` from the `i`-th on, one at a time, each edit
/// made to the text the one before it left and the document parsed again; `None` where an edit
/// cannot be made. A URL is left as it is, and so is a reference already written as it should be.
pub open spec fn anchoring(t: Seq<char>, from: Option<Seq<char>>, to: Seq<char>, i: nat, n: nat) -> Option<Seq<char>>
    decreases n - i,
{
    match parsed(t) {
        Err(_) => None,
        Ok(d) => {
            let refs = file_refs(singles_nodes(d.pipeline, 0));
            if i >= n || i >= refs.len() {
                Some(t)
            } else {
                let r = refs[i as int];
                let w = anchored_value(r.value, from, to);
                if url(r.value) || w == r.value {
                    anchoring(t, from, to, i + 1, n)
                } else {
                    match quoted(w) {
                        None => None,
                        Some(q) => match spliced(t, r.span, q) {
                            None => None,
                            Some(c) => match parsed(c) {
                                Err(_) => None,
                                Ok(_) => anchoring(c, from, to, i + 1, n),
                            },
                        },
                    }
                }
            }
        },
    }
}

/// Whether every file reference of `t` already reads as it would once anchored: a URL, or a value
/// that [`anchored_value`] leaves as it is.
pub open spec fn already_anchored(t: Seq<char>, from: Option<Seq<char>>, to: Seq<char>) -> bool {
    match parsed(t) {
        Err(_) => false,
        Ok(d) => {
            let refs = file_refs(singles_nodes(d.pipeline, 0));
            forall|k: int| 0 <= k < refs.len() ==> url(#[trigger] refs[k].value)
                || anchored_value(refs[k].value, from, to) == refs[k].value
        },
    }
}

proof fn lemma_anchoring_kept(t: Seq<char>, from: Option<Seq<char>>, to: Seq<char>, i: nat, n: nat)
    requires
        already_anchored(t, from, to),
    ensures
        anchoring(t, from, to, i, n) == Some(t),
    decreases n - i,
{
    let d = parsed(t)->Ok_0;
    let refs = file_refs(singles_nodes(d.pipeline, 0));
    if !(i >= n || i >= refs.len()) {
        let r = refs[i as int];
        assert(url(r.value) || anchored_value(r.value, from, to) == r.value);
        lemma_anchoring_kept(t, from, to, i + 1, n);
    }
}

/// Anchoring a pipeline whose every file reference already reads as it would once anchored gives
/// its text back unchanged, comments, layout and all: saving twice in place writes the same text.
pub proof fn lemma_anchored_text_is_kept(t: Seq<char>, from: Option<Seq<char>>, to: Seq<char>)
    requires
        already_anchored(t, from, to),
    ensures
        anchoring(t, from, to, 0, reference_count(t)) == Some(t),
{
    lemma_anchoring_kept(t, from, to, 0, reference_count(t));
}

/// Every file reference in a pipeline, rewritten as it should read once the pipeline is saved in
/// `to`, having been written in `from`: relative when the file is at or below `to`, the whole
/// resolved path otherwise. URLs are left exactly as they are.
///
/// This is also what makes "save as" correct: a relative path meant something in `from`, and
/// writing the text unchanged into `to` would quietly change which file it names.
///
/// Edits are made one at a time, re-reading the document between them, because each edit moves the
/// spans after it; the edits change values and never structure, so the *n*-th reference is still
/// the *n*-th. Comments and layout outside the rewritten values are kept.
pub fn reanchor(text: &str, from: Option<&str>, to: &str) -> (r: Result<String, ParseError>)
    ensures
        parsed(text@) matches Err(e) ==> r matches Err(x) && x@ == e,
        parsed(text@) is Ok ==> match anchoring(text@, opt_view(from), to@, 0, reference_count(text@)) {
            Some(out) => r matches Ok(s) && s@ == out,
            None => r is Err,
        },
{
    let mut doc = match Document::parse(text) {
        Ok(d) => d,
        Err(e) => return Err(e),
    };
    let n = file_references(doc.pipeline()).len();
    let ghost f = opt_view(from);
    let mut i: usize = 0;
    while i < n
        invariant
            i <= n,
            n == reference_count(text@),
            parsed(doc@.text) == Ok::<DocumentM, ParseErrorM>(doc@),
            anchoring(text@, f, to@, 0, n as nat) == anchoring(doc@.text, f, to@, i as nat, n as nat),
            f == opt_view(from),
        decreases n - i,
    {
        let refs = file_references(doc.pipeline());
        if i >= refs.len() {
            return Ok(owned(doc.text()));
        }
        let reference = &refs[i];
        proof {
            assert(singles_model(refs@)[i as int] == reference@);
        }
        let written = anchored(reference.value.as_str(), from, to);
        if !is_url(reference.value.as_str()) && !same_text(written.as_str(), reference.value.as_str()) {
            proof {
                let k = choose|k: int| 0 <= k < singles_nodes(doc@.pipeline, 0).len()
                    && singles_nodes(doc@.pipeline, 0)[k] == reference@;
                assert(singles_nodes(doc@.pipeline, 0)[k].span == reference.span);
            }
            match doc.set_value(reference.span, written.as_str()) {
                Ok(()) => {},
                Err(e) => return Err(e),
            }
        }
        i = i + 1;
    }
    Ok(owned(doc.text()))
}

// ---------------------------------------------------------------------------------------------
// Planning a copy
// ---------------------------------------------------------------------------------------------

/// What one reference turned out to be.
#[derive(Debug, Clone, PartialEq, Eq)]
pub enum ReferenceKind {
    /// A URL: works from anywhere, so it is neither carried nor rewritten.
    Remote,
    /// A file that is there, and its size.
    Local { path: String, bytes: u64 },
    /// Named, and not where it says. Carried as nothing; the pipeline keeps the name it had, so a
    /// copy opened somewhere the file does exist still works.
    Missing { path: String },
}

pub ghost enum KindM {
    Remote,
    Local(Seq<char>, u64),
    Missing(Seq<char>),
}

impl View for ReferenceKind {
    type V = KindM;

    open spec fn view(&self) -> KindM {
        match self {
            ReferenceKind::Remote => KindM::Remote,
            ReferenceKind::Local { path, bytes } => KindM::Local(path@, *bytes),
            ReferenceKind::Missing { path } => KindM::Missing(path@),
        }
    }
}

/// One file a pipeline names.
#[derive(Debug, Clone, PartialEq, Eq)]
pub struct Reference {
    /// The graph it was found in.
    pub graph: String,
    /// The parameter, as written: `filename`, `data_source_path`, ...
    pub field: String,
    /// What it says, before any rewriting.
    pub value: String,
    pub kind: ReferenceKind,
}

pub ghost struct ReferenceM {
    pub graph: Seq<char>,
    pub field: Seq<char>,
    pub value: Seq<char>,
    pub kind: KindM,
}

impl View for Reference {
    type V = ReferenceM;

    open spec fn view(&self) -> ReferenceM {
        ReferenceM { graph: self.graph@, field: self.field@, value: self.value@, kind: self.kind@ }
    }
}

/// A file the copy will carry, and where it lands.
#[derive(Debug, Clone, PartialEq, Eq)]
pub struct Carried {
    pub from: String,
    /// Its path inside the copy, `data/berlin.mbtiles`.
    pub to: String,
    pub bytes: u64,
}

pub ghost struct CarriedM {
    pub from: Seq<char>,
    pub to: Seq<char>,
    pub bytes: u64,
}

impl View for Carried {
    type V = CarriedM;

    open spec fn view(&self) -> CarriedM {
        CarriedM { from: self.from@, to: self.to@, bytes: self.bytes }
    }
}

/// One graph, as a copy needs it: its name, its text, and the directory its relative names
/// resolve against (the one its own `.vpl` sits in; none for a graph never saved).
#[derive(Debug)]
pub struct Source {
    pub name: String,
    pub text: String,
    pub dir: Option<String>,
    /// Whether it is drawn, carried so that a copy opens looking the way the original looked.
    pub enabled: bool,
    /// Which of its operations are switched off, carried for the same reason.
    pub disabled: Vec<Vec<u32>>,
}

/// What the file system said of a path: its size when it is a regular file, `None` otherwise.
#[derive(Debug)]
pub struct FileFact {
    pub path: String,
    pub bytes: Option<u64>,
}

/// What a copy would contain, worked out without writing anything.
#[derive(Debug)]
pub struct Plan {
    /// The files to carry, each once however many pipelines name it.
    pub carry: Vec<Carried>,
    /// Every reference found, carried or not.
    pub references: Vec<Reference>,
    /// The graphs with the carried files renamed to where they will be, in the order given; a
    /// graph naming nothing carried is unchanged, byte for byte.
    pub graphs: Vec<SavedGraph>,
}

/// Why a copy could not be planned: the graph, and what went wrong in it.
#[derive(Debug)]
pub struct PlanError {
    pub graph: String,
    pub message: String,
}

pub ghost struct PlanM {
    pub carry: Seq<CarriedM>,
    pub references: Seq<ReferenceM>,
    pub graphs: Seq<SavedGraphM>,
}

pub open spec fn carried_model(v: Seq<Carried>) -> Seq<CarriedM> {
    v.map_values(|c: Carried| c@)
}

pub open spec fn references_model(v: Seq<Reference>) -> Seq<ReferenceM> {
    v.map_values(|r: Reference| r@)
}

pub open spec fn graphs_model(v: Seq<SavedGraph>) -> Seq<SavedGraphM> {
    v.map_values(|g: SavedGraph| g@)
}

impl View for Plan {
    type V = PlanM;

    open spec fn view(&self) -> PlanM {
        PlanM {
            carry: carried_model(self.carry@),
            references: references_model(self.references@),
            graphs: graphs_model(self.graphs@),
        }
    }
}

/// What the facts say of `path`: the first fact about it.
pub open spec fn fact_of(facts: Seq<(Seq<char>, Option<u64>)>, path: Seq<char>) -> Option<u64>
    decreases facts.len(),
{
    if facts.len() == 0 {
        None
    } else if facts[0].0 == path {
        facts[0].1
    } else {
        fact_of(facts.drop_first(), path)
    }
}

pub open spec fn facts_model(v: Seq<FileFact>) -> Seq<(Seq<char>, Option<u64>)> {
    v.map_values(|f: FileFact| (f.path@, f.bytes))
}

/// The path a value names, as it is looked up: itself when it starts at the root, otherwise
/// joined to the directory the pipeline sits in, when there is one.
pub open spec fn looked_up(value: Seq<char>, dir: Option<Seq<char>>) -> Seq<char> {
    resolved_path(value, dir)
}

/// What a written value points at.
pub open spec fn kind_spec(value: Seq<char>, dir: Option<Seq<char>>, facts: Seq<(Seq<char>, Option<u64>)>) -> KindM {
    if url(value) {
        KindM::Remote
    } else {
        match fact_of(facts, looked_up(value, dir)) {
            Some(bytes) => KindM::Local(looked_up(value, dir), bytes),
            None => KindM::Missing(looked_up(value, dir)),
        }
    }
}

/// What the facts say of `path`.
fn fact_for(facts: &Vec<FileFact>, path: &str) -> (r: Option<u64>)
    ensures
        r == fact_of(facts_model(facts@), path@),
{
    let ghost all = facts_model(facts@);
    let mut i: usize = 0;
    proof {
        assert(all.skip(0) =~= all);
    }
    while i < facts.len()
        invariant
            i <= facts@.len(),
            all == facts_model(facts@),
            fact_of(all, path@) == fact_of(all.skip(i as int), path@),
        decreases facts@.len() - i,
    {
        proof {
            assert(all.skip(i as int).drop_first() =~= all.skip(i as int + 1));
            assert(all.skip(i as int)[0] == (facts@[i as int].path@, facts@[i as int].bytes));
        }
        if same_text(facts[i].path.as_str(), path) {
            return facts[i].bytes;
        }
        i = i + 1;
    }
    None
}

/// What a written value points at, by the facts gathered about the paths a plan looks up.
pub fn classify(value: &str, dir: Option<&str>, facts: &Vec<FileFact>) -> (r: ReferenceKind)
    ensures
        r@ == kind_spec(value@, opt_view(dir), facts_model(facts@)),
{
    if is_url(value) {
        return ReferenceKind::Remote;
    }
    let path = look_up_path(value, dir);
    match fact_for(facts, path.as_str()) {
        Some(bytes) => ReferenceKind::Local { path, bytes },
        None => ReferenceKind::Missing { path },
    }
}

/// The path `value` is looked up at; see [`looked_up`].
fn look_up_path(value: &str, dir: Option<&str>) -> (r: String)
    ensures
        r@ == looked_up(value@, opt_view(dir)),
{
    let chars = chars_of(value);
    if chars.len() > 0 && chars[0] == '/' {
        owned(value)
    } else {
        match dir {
            Some(d) => join_path(d, value),
            None => owned(value),
        }
    }
}

/// The name a carried file is known by: its file name, or `source` when its path has none.
pub open spec fn base_name(path: Seq<char>) -> Seq<char> {
    match file_name(path) {
        Some(n) => n,
        None => "source"@,
    }
}

/// How many of the carried files go by `name`.
pub open spec fn sharing(carry: Seq<CarriedM>, name: Seq<char>) -> nat
    decreases carry.len(),
{
    if carry.len() == 0 {
        0
    } else {
        sharing(carry.drop_last(), name) + (if base_name(carry.last().from) == name { 1nat } else { 0nat })
    }
}

/// Where the `count`-th file called `name` lands: `data/name` for the first, and the number
/// before the extension for the rest, so what lands in `data/` still reads as the file it came
/// from.
pub open spec fn landing(name: Seq<char>, count: nat) -> Seq<char> {
    if count == 1 {
        "data/"@ + name
    } else {
        "data/"@ + stem(name) + "-"@ + decimal(count) + match extension(name) {
            Some(e) => "."@ + e,
            None => seq![],
        }
    }
}

/// Where in `carry` the file `path` already is.
pub open spec fn carried_at(carry: Seq<CarriedM>, path: Seq<char>) -> Option<int> {
    if exists|i: int| 0 <= i < carry.len() && #[trigger] carry[i].from == path {
        Some(choose|i: int| 0 <= i < carry.len() && #[trigger] carry[i].from == path)
    } else {
        None
    }
}

/// Whether some carried file already lands at `to`.
pub open spec fn lands_at(carry: Seq<CarriedM>, to: Seq<char>) -> bool {
    exists|i: int| 0 <= i < carry.len() && #[trigger] carry[i].to == to
}

/// The first of the places [`landing`] gives `name` for `count`, `count + 1` … `last` that no
/// carried file lands at; `None` when each is taken or the count would not fit the counter.
pub open spec fn free_landing(carry: Seq<CarriedM>, name: Seq<char>, count: nat, last: nat) -> Option<Seq<char>>
    decreases last + 1 - count,
{
    if count > last || count > u32::MAX {
        None
    } else if !lands_at(carry, landing(name, count)) {
        Some(landing(name, count))
    } else {
        free_landing(carry, name, count + 1, last)
    }
}

/// Where `path` lands and the carry list after it: where it already lands if it is carried, or
/// else a new place, distinct from every one handed out before it - the first free one numbered
/// from one past the count of carried files with its name. `None` when no free place is found
/// among as many numbers as there are carried files, or the number would not fit the counter.
pub open spec fn destination(carry: Seq<CarriedM>, path: Seq<char>, bytes: u64) -> Option<(Seq<CarriedM>, Seq<char>)> {
    match carried_at(carry, path) {
        Some(i) => Some((carry, carry[i].to)),
        None => {
            let count = sharing(carry, base_name(path)) + 1;
            match free_landing(carry, base_name(path), count, count + carry.len()) {
                None => None,
                Some(to) => Some((carry.push(CarriedM { from: path, to, bytes }), to)),
            }
        },
    }
}

proof fn lemma_free_landing_is_free(carry: Seq<CarriedM>, name: Seq<char>, count: nat, last: nat)
    ensures
        free_landing(carry, name, count, last) matches Some(to) ==> !lands_at(carry, to),
    decreases last + 1 - count,
{
    if count <= last && count <= u32::MAX && lands_at(carry, landing(name, count)) {
        lemma_free_landing_is_free(carry, name, count + 1, last);
    }
}

/// The name a carried file is known by; see [`base_name`].
fn base_name_of(path: &str) -> (r: String)
    ensures
        r@ == base_name(path@),
{
    let chars = chars_of(path);
    match file_name_bounds(&chars) {
        Some((a, b)) => string_between(&chars, a, b),
        None => owned("source"),
    }
}

/// Where the `count`-th file called `name` lands; see [`landing`].
fn landing_of(name: &str, count: u32) -> (r: String)
    requires
        count >= 1,
    ensures
        r@ == landing(name@, count as nat),
{
    let mut out = owned("data/");
    if count == 1 {
        push_str(&mut out, name);
        return out;
    }
    let chars = chars_of(name);
    let n = chars.len();
    let dot = find_last_dot(&chars, 0, n);
    proof {
        assert(chars@.subrange(0, n as int) =~= chars@);
    }
    match dot {
        Some(d) if d > 0 => {
            let stem_text = string_between(&chars, 0, d);
            let ext = string_between(&chars, d + 1, n);
            push_str(&mut out, stem_text.as_str());
            push_str(&mut out, "-");
            push_decimal(&mut out, count);
            push_str(&mut out, ".");
            push_str(&mut out, ext.as_str());
            proof {
                assert(stem_text@ =~= stem(name@));
                assert(ext@ =~= extension(name@)->0);
            }
        },
        _ => {
            push_str(&mut out, name);
            push_str(&mut out, "-");
            push_decimal(&mut out, count);
            proof {
                assert(stem(name@) == name@);
                assert(extension(name@) is None);
                assert(out@ =~= "data/"@ + stem(name@) + "-"@ + decimal(count as nat) + Seq::<char>::empty());
            }
        },
    }
    out
}

/// The place [`free_landing`] finds.
fn free_place(carry: &Vec<Carried>, name: &str, first: u128, last: u128) -> (r: Option<String>)
    requires
        first >= 1,
    ensures
        match free_landing(carried_model(carry@), name@, first as nat, last as nat) {
            None => r is None,
            Some(t) => r matches Some(x) && x@ == t,
        },
{
    let ghost cm = carried_model(carry@);
    let mut count: u128 = first;
    while count <= last
        invariant
            first <= count,
            first >= 1,
            cm == carried_model(carry@),
            free_landing(cm, name@, first as nat, last as nat) == free_landing(cm, name@, count as nat, last as nat),
        decreases last + 1 - count,
    {
        if count > 4294967295 {
            return None;
        }
        let candidate = landing_of(name, count as u32);
        let mut taken = false;
        let mut j: usize = 0;
        while j < carry.len()
            invariant
                j <= carry@.len(),
                cm == carried_model(carry@),
                taken == exists|a: int| 0 <= a < j && #[trigger] cm[a].to == candidate@,
            decreases carry@.len() - j,
        {
            proof {
                assert(cm[j as int] == carry@[j as int]@);
            }
            let same = same_text(carry[j].to.as_str(), candidate.as_str());
            proof {
                assert(same == (cm[j as int].to == candidate@));
                if same {
                    assert(cm[j as int].to == candidate@);
                }
                if !taken && !same {
                    assert forall|a: int| 0 <= a < j + 1 implies #[trigger] cm[a].to != candidate@ by {
                        if a < j {
                        }
                    }
                }
            }
            if same {
                taken = true;
            }
            j = j + 1;
        }
        if !taken {
            return Some(candidate);
        }
        count = count + 1;
    }
    None
}

/// Where `path` lands, recording it in `carry` if it is new; see [`destination`].
fn land(carry: &mut Vec<Carried>, path: &str, bytes: u64) -> (r: Option<String>)
    requires
        forall|i: int, j: int| 0 <= i < j < old(carry)@.len() ==> old(carry)@[i].from@ != old(carry)@[j].from@,
        forall|i: int, j: int| 0 <= i < j < old(carry)@.len() ==> old(carry)@[i].to@ != old(carry)@[j].to@,
    ensures
        forall|i: int, j: int| 0 <= i < j < final(carry)@.len() ==> final(carry)@[i].from@ != final(carry)@[j].from@,
        forall|i: int, j: int| 0 <= i < j < final(carry)@.len() ==> final(carry)@[i].to@ != final(carry)@[j].to@,
        match destination(carried_model(old(carry)@), path@, bytes) {
            None => r is None,
            Some((c, to)) => r matches Some(t) && t@ == to && carried_model(final(carry)@) == c,
        },
{
    let ghost cm = carried_model(carry@);
    let mut i: usize = 0;
    while i < carry.len()
        invariant
            i <= carry@.len(),
            cm == carried_model(carry@),
            forall|j: int| 0 <= j < i ==> cm[j].from != path@,
            forall|a: int, b: int| 0 <= a < b < carry@.len() ==> carry@[a].from@ != carry@[b].from@,
            forall|a: int, b: int| 0 <= a < b < carry@.len() ==> carry@[a].to@ != carry@[b].to@,
        decreases carry@.len() - i,
    {
        proof {
            assert(cm[i as int] == carry@[i as int]@);
        }
        if same_text(carry[i].from.as_str(), path) {
            proof {
                assert(cm[i as int].from == path@);
                let k = choose|k: int| 0 <= k < cm.len() && #[trigger] cm[k].from == path@;
                if k != i {
                    assert(cm[k] == carry@[k]@);
                    assert(carry@[k].from@ == carry@[i as int].from@);
                }
            }
            return Some(carry[i].to.clone());
        }
        i = i + 1;
    }
    let name = base_name_of(path);
    let mut n: u32 = 0;
    let mut over = false;
    let mut k: usize = 0;
    while k < carry.len()
        invariant
            k <= carry@.len(),
            cm == carried_model(carry@),
            !over ==> n == sharing(cm.take(k as int), name@),
            over ==> sharing(cm.take(k as int), name@) > u32::MAX,
        decreases carry@.len() - k,
    {
        proof {
            assert(cm.take(k as int + 1).drop_last() =~= cm.take(k as int));
            assert(cm.take(k as int + 1).last() == carry@[k as int]@);
        }
        let other = base_name_of(carry[k].from.as_str());
        if same_text(other.as_str(), name.as_str()) {
            if n == u32::MAX {
                over = true;
            } else if !over {
                n = n + 1;
            }
        }
        k = k + 1;
    }
    proof {
        assert(cm.take(k as int) =~= cm);
    }
    if over || n == u32::MAX {
        return None;
    }
    // The first place from `n + 1` on that no carried file has taken.
    let first: u128 = n as u128 + 1;
    let last: u128 = first + carry.len() as u128;
    let to = match free_place(carry, name.as_str(), first, last) {
        None => return None,
        Some(t) => t,
    };
    proof {
        lemma_free_landing_is_free(cm, name@, first as nat, last as nat);
        assert(!lands_at(cm, to@));
    }
    let ghost before = carry@;
    carry.push(Carried { from: owned(path), to: to.clone(), bytes });
    proof {
        assert(carried_model(carry@) =~= cm.push(CarriedM { from: path@, to: to@, bytes }));
        assert forall|a: int, b: int| 0 <= a < b < carry@.len() implies carry@[a].from@ != carry@[b].from@ by {
            if b == before.len() {
                assert(cm[a] == before[a]@);
            }
        }
        assert forall|a: int, b: int| 0 <= a < b < carry@.len() implies carry@[a].to@ != carry@[b].to@ by {
            if b == before.len() {
                assert(cm[a] == before[a]@);
                assert(cm[a].to != to@);
            } else {
                assert(carry@[a] == before[a]);
                assert(carry@[b] == before[b]);
            }
        }
    }
    Some(to)
}

/// The text after renaming, one at a time, the references the pairs name (by their place among
/// the file references, counted afresh after each edit) to the values beside them; `None` where a
/// pair names no reference or an edit cannot be made. No pairs: the text unchanged.
pub open spec fn rewriting(t: Seq<char>, rw: Seq<(usize, Seq<char>)>, j: nat) -> Option<Seq<char>>
    decreases rw.len() - j,
{
    if j >= rw.len() {
        Some(t)
    } else {
        match parsed(t) {
            Err(_) => None,
            Ok(d) => {
                let refs = file_refs(singles_nodes(d.pipeline, 0));
                let idx = rw[j as int].0 as int;
                if idx >= refs.len() {
                    None
                } else {
                    match quoted(rw[j as int].1) {
                        None => None,
                        Some(q) => match spliced(t, refs[idx].span, q) {
                            None => None,
                            Some(c) => match parsed(c) {
                                Err(_) => None,
                                Ok(_) => rewriting(c, rw, j + 1),
                            },
                        },
                    }
                }
            },
        }
    }
}

pub open spec fn pairs_model(v: Seq<(usize, String)>) -> Seq<(usize, Seq<char>)> {
    v.map_values(|p: (usize, String)| (p.0, p.1@))
}

/// `text` with the given references renamed; see [`rewriting`]. The quoting is the printer's, so a
/// path with a space or an apostrophe in it comes back written so that it parses.
pub fn rewrite(text: &str, rewrites: &Vec<(usize, String)>) -> (r: Result<String, ParseError>)
    ensures
        match rewriting(text@, pairs_model(rewrites@), 0) {
            Some(out) => r matches Ok(s) && s@ == out,
            None => r is Err,
        },
{
    let ghost rw = pairs_model(rewrites@);
    if rewrites.len() == 0 {
        return Ok(owned(text));
    }
    let mut doc = match Document::parse(text) {
        Ok(d) => d,
        Err(e) => return Err(e),
    };
    let mut j: usize = 0;
    while j < rewrites.len()
        invariant
            j <= rewrites@.len(),
            rw == pairs_model(rewrites@),
            parsed(doc@.text) == Ok::<DocumentM, ParseErrorM>(doc@),
            rewriting(text@, rw, 0) == rewriting(doc@.text, rw, j as nat),
        decreases rewrites@.len() - j,
    {
        let (index, value) = &rewrites[j];
        proof {
            assert(rw[j as int] == (*index, value@));
        }
        let refs = file_references(doc.pipeline());
        if *index >= refs.len() {
            return Err(ParseError { message: owned("the pipeline changed while it was being bundled"), span: Span::new(0, 0) });
        }
        let reference = &refs[*index];
        proof {
            assert(singles_model(refs@)[*index as int] == reference@);
            let k = choose|k: int| 0 <= k < singles_nodes(doc@.pipeline, 0).len()
                && singles_nodes(doc@.pipeline, 0)[k] == reference@;
            assert(singles_nodes(doc@.pipeline, 0)[k].span == reference.span);
        }
        match doc.set_value(reference.span, value.as_str()) {
            Ok(()) => {},
            Err(e) => return Err(e),
        }
        j = j + 1;
    }
    Ok(owned(doc.text()))
}

pub ghost struct SourceM {
    pub name: Seq<char>,
    pub text: Seq<char>,
    pub dir: Option<Seq<char>>,
    pub enabled: bool,
    pub disabled: Seq<Seq<u32>>,
}

impl View for Source {
    type V = SourceM;

    open spec fn view(&self) -> SourceM {
        SourceM {
            name: self.name@,
            text: self.text@,
            dir: match self.dir {
                Some(d) => Some(d@),
                None => None,
            },
            enabled: self.enabled,
            disabled: self.disabled.deep_view(),
        }
    }
}

pub open spec fn sources_model(v: Seq<Source>) -> Seq<SourceM> {
    v.map_values(|s: Source| s@)
}

/// The carry list, the references, and the renames for one graph, after its references from the
/// `k`-th on: each reference is recorded, and a file that is there is given its place in the copy.
pub open spec fn take_refs(
    carry: Seq<CarriedM>,
    refs: Seq<ReferenceM>,
    rw: Seq<(usize, Seq<char>)>,
    graph: Seq<char>,
    found: Seq<SingleM>,
    dir: Option<Seq<char>>,
    facts: Seq<(Seq<char>, Option<u64>)>,
    k: nat,
) -> Option<(Seq<CarriedM>, Seq<ReferenceM>, Seq<(usize, Seq<char>)>)>
    decreases found.len() - k,
{
    if k >= found.len() {
        Some((carry, refs, rw))
    } else {
        let r = found[k as int];
        let kind = kind_spec(r.value, dir, facts);
        let refs2 = refs.push(ReferenceM { graph, field: r.key, value: r.value, kind });
        match kind {
            KindM::Local(path, bytes) => match destination(carry, path, bytes) {
                None => None,
                Some((c, to)) => take_refs(c, refs2, rw.push((k as usize, to)), graph, found, dir, facts, k + 1),
            },
            _ => take_refs(carry, refs2, rw, graph, found, dir, facts, k + 1),
        }
    }
}

/// The plan for the graphs from the `i`-th on, continuing from `acc`.
pub open spec fn planning(sources: Seq<SourceM>, facts: Seq<(Seq<char>, Option<u64>)>, i: nat, acc: PlanM) -> Option<PlanM>
    decreases sources.len() - i,
{
    if i >= sources.len() {
        Some(acc)
    } else {
        let s = sources[i as int];
        match parsed(s.text) {
            Err(_) => None,
            Ok(d) => {
                let found = file_refs(singles_nodes(d.pipeline, 0));
                match take_refs(acc.carry, acc.references, seq![], s.name, found, s.dir, facts, 0) {
                    None => None,
                    Some((c, refs, rw)) => match rewriting(s.text, rw, 0) {
                        None => None,
                        Some(v) => planning(sources, facts, i + 1, PlanM { carry: c, references: refs, graphs: acc.graphs.push(
                            SavedGraphM { name: s.name, vpl: v, enabled: s.enabled, disabled: s.disabled },
                        ) }),
                    },
                }
            },
        }
    }
}

/// Records one graph's references and gives each file that is there its place in the copy; the
/// answer is the renames to make in the graph's text, or `None` when a place cannot be named.
fn gather(
    carry: &mut Vec<Carried>,
    references: &mut Vec<Reference>,
    graph: &String,
    found: &Vec<Single>,
    dir: Option<&str>,
    facts: &Vec<FileFact>,
) -> (r: Option<Vec<(usize, String)>>)
    requires
        forall|a: int, b: int| 0 <= a < b < old(carry)@.len() ==> old(carry)@[a].from@ != old(carry)@[b].from@,
        forall|a: int, b: int| 0 <= a < b < old(carry)@.len() ==> old(carry)@[a].to@ != old(carry)@[b].to@,
    ensures
        forall|a: int, b: int| 0 <= a < b < final(carry)@.len() ==> final(carry)@[a].from@ != final(carry)@[b].from@,
        forall|a: int, b: int| 0 <= a < b < final(carry)@.len() ==> final(carry)@[a].to@ != final(carry)@[b].to@,
        match take_refs(carried_model(old(carry)@), references_model(old(references)@), seq![], graph@,
            singles_model(found@), opt_view(dir), facts_model(facts@), 0) {
            None => r is None,
            Some((c, rs, rw)) => r matches Some(v) && pairs_model(v@) == rw && carried_model(final(carry)@) == c
                && references_model(final(references)@) == rs,
        },
{
    let ghost fdm = singles_model(found@);
    let ghost fm = facts_model(facts@);
    let mut rewrites: Vec<(usize, String)> = Vec::new();
    let ghost at_start = (carried_model(carry@), references_model(references@), pairs_model(rewrites@));
    proof {
        assert(pairs_model(rewrites@) =~= Seq::<(usize, Seq<char>)>::empty());
    }
    let mut k: usize = 0;
    while k < found.len()
        invariant
            k <= found@.len(),
            fdm == singles_model(found@),
            fm == facts_model(facts@),
            at_start.0 == carried_model(old(carry)@),
            at_start.1 == references_model(old(references)@),
            take_refs(at_start.0, at_start.1, seq![], graph@, fdm, opt_view(dir), fm, 0)
                == take_refs(carried_model(carry@), references_model(references@), pairs_model(rewrites@), graph@, fdm, opt_view(dir), fm, k as nat),
            forall|a: int, b: int| 0 <= a < b < carry@.len() ==> carry@[a].from@ != carry@[b].from@,
            forall|a: int, b: int| 0 <= a < b < carry@.len() ==> carry@[a].to@ != carry@[b].to@,
        decreases found@.len() - k,
    {
        let reference = &found[k];
        proof {
            assert(fdm[k as int] == reference@);
        }
        let kind = classify(reference.value.as_str(), dir, facts);
        let ghost refs_before = references_model(references@);
        let ghost rw_before = pairs_model(rewrites@);
        let ghost carry_before = carried_model(carry@);
        let ghost r2 = refs_before.push(ReferenceM { graph: graph@, field: reference.key@, value: reference.value@, kind: kind@ });
        match &kind {
            ReferenceKind::Local { path, bytes } => {
                match land(carry, path.as_str(), *bytes) {
                    None => {
                        proof {
                            assert(take_refs(carry_before, refs_before, rw_before, graph@, fdm, opt_view(dir), fm, k as nat) is None);
                            assert(take_refs(at_start.0, at_start.1, seq![], graph@, fdm, opt_view(dir), fm, 0) is None);
                            assert(at_start.0 == carried_model(old(carry)@));
                            assert(at_start.1 == references_model(old(references)@));
                        }
                        return None;
                    },
                    Some(to) => {
                        rewrites.push((k, to));
                        proof {
                            assert(pairs_model(rewrites@) =~= rw_before.push((k, to@)));
                        }
                    },
                }
            },
            _ => {},
        }
        references.push(Reference {
            graph: graph.clone(),
            field: reference.key.clone(),
            value: reference.value.clone(),
            kind,
        });
        proof {
            assert(references_model(references@) =~= r2);
        }
        k = k + 1;
    }
    proof {
        assert(take_refs(carried_model(carry@), references_model(references@), pairs_model(rewrites@), graph@, fdm,
            opt_view(dir), fm, k as nat) == Some((carried_model(carry@), references_model(references@), pairs_model(rewrites@))));
    }
    Some(rewrites)
}

/// Works out what a copy of these graphs would carry, without writing anything.
///
/// `facts` is what the file system says of each path the graphs name (see [`paths_to_check`]); a
/// path it does not mention counts as missing. Deterministic: the same graphs and facts give the
/// same plan, including the names collisions are resolved to, which is what makes it safe to show
/// a plan and then write it.
#[verifier::rlimit(40)]
pub fn plan(sources: &Vec<Source>, facts: &Vec<FileFact>) -> (r: Result<Plan, PlanError>)
    ensures
        match planning(sources_model(sources@), facts_model(facts@), 0, PlanM { carry: seq![], references: seq![], graphs: seq![] }) {
            Some(p) => r matches Ok(x) && x@ == p,
            None => r is Err,
        },
        r matches Ok(x) ==> forall|a: int, b: int| 0 <= a < b < x.carry@.len() ==> x.carry@[a].to@ != x.carry@[b].to@,
        r matches Ok(x) ==> forall|a: int, b: int| 0 <= a < b < x.carry@.len() ==> x.carry@[a].from@ != x.carry@[b].from@,
{
    let ghost sm = sources_model(sources@);
    let ghost fm = facts_model(facts@);
    let mut out = Plan { carry: Vec::new(), references: Vec::new(), graphs: Vec::new() };
    proof {
        assert(out@.carry =~= Seq::<CarriedM>::empty());
        assert(out@.references =~= Seq::<ReferenceM>::empty());
        assert(out@.graphs =~= Seq::<SavedGraphM>::empty());
        assert(out@ =~= PlanM { carry: seq![], references: seq![], graphs: seq![] });
    }
    let ghost start = out@;
    let mut i: usize = 0;
    while i < sources.len()
        invariant
            i <= sources@.len(),
            sm == sources_model(sources@),
            fm == facts_model(facts@),
            start == (PlanM { carry: seq![], references: seq![], graphs: seq![] }),
            planning(sm, fm, 0, start) == planning(sm, fm, i as nat, out@),
            forall|a: int, b: int| 0 <= a < b < out.carry@.len() ==> out.carry@[a].from@ != out.carry@[b].from@,
            forall|a: int, b: int| 0 <= a < b < out.carry@.len() ==> out.carry@[a].to@ != out.carry@[b].to@,
        decreases sources@.len() - i,
    {
        let source = &sources[i];
        proof {
            assert(sm[i as int] == source@);
        }
        let doc = match Document::parse(source.text.as_str()) {
            Ok(d) => d,
            Err(e) => {
                proof {
                    assert(planning(sm, fm, i as nat, out@) is None);
                }
                return Err(PlanError { graph: source.name.clone(), message: e.message });
            },
        };
        let found = file_references(doc.pipeline());
        let dir: Option<&str> = match &source.dir {
            Some(d) => Some(d.as_str()),
            None => None,
        };
        proof {
            assert(opt_view(dir) == source@.dir);
        }
        let ghost acc = out@;
        let rewrites = match gather(&mut out.carry, &mut out.references, &source.name, &found, dir, facts) {
            Some(rw) => rw,
            None => {
                proof {
                    assert(planning(sm, fm, i as nat, acc) is None);
                }
                return Err(PlanError { graph: source.name.clone(), message: owned("too many files share one name") });
            },
        };
        let vpl = match rewrite(source.text.as_str(), &rewrites) {
            Ok(v) => v,
            Err(e) => {
                proof {
                    assert(planning(sm, fm, i as nat, acc) is None);
                }
                return Err(PlanError { graph: source.name.clone(), message: e.message });
            },
        };
        let ghost before = out@.graphs;
        let disabled = source.disabled.clone();
        proof {
            assert(disabled.deep_view() =~= source.disabled.deep_view());
        }
        out.graphs.push(SavedGraph { name: source.name.clone(), vpl, enabled: source.enabled, disabled });
        proof {
            assert(out@.graphs =~= before.push(
                SavedGraphM { name: source@.name, vpl: vpl@, enabled: source@.enabled, disabled: source@.disabled },
            ));
            assert(before == acc.graphs);
            assert(planning(sm, fm, i as nat, acc) == planning(sm, fm, i as nat + 1, out@));
        }
        i = i + 1;
    }
    Ok(out)
}

/// Whether `to` is a place inside the copy's data directory.
pub open spec fn in_data(to: Seq<char>) -> bool {
    to.len() >= 5 && to.subrange(0, 5) == "data/"@
}

/// The graph `g` of a plan is the source `s`, carried: the same name, drawn or not as it was, and
/// with the same operations switched off.
pub open spec fn carries(g: SavedGraphM, s: SourceM) -> bool {
    &&& g.name == s.name
    &&& g.enabled == s.enabled
    &&& g.disabled == s.disabled
}

proof fn lemma_landing_in_data(name: Seq<char>, count: nat)
    ensures
        in_data(landing(name, count)),
{
    reveal_strlit("data/");
    reveal_strlit("-");
    reveal_strlit(".");
    let l = landing(name, count);
    if count == 1 {
        assert(l.subrange(0, 5) =~= "data/"@);
    } else {
        let tail = stem(name) + "-"@ + decimal(count) + match extension(name) {
            Some(e) => "."@ + e,
            None => seq![],
        };
        assert(l =~= "data/"@ + tail);
        assert(l.subrange(0, 5) =~= "data/"@);
    }
}

proof fn lemma_free_landing_in_data(carry: Seq<CarriedM>, name: Seq<char>, count: nat, last: nat)
    ensures
        free_landing(carry, name, count, last) matches Some(to) ==> in_data(to),
    decreases last + 1 - count,
{
    if count <= last && count <= u32::MAX {
        if lands_at(carry, landing(name, count)) {
            lemma_free_landing_in_data(carry, name, count + 1, last);
        } else {
            lemma_landing_in_data(name, count);
        }
    }
}

proof fn lemma_take_refs_in_data(
    carry: Seq<CarriedM>,
    refs: Seq<ReferenceM>,
    rw: Seq<(usize, Seq<char>)>,
    graph: Seq<char>,
    found: Seq<SingleM>,
    dir: Option<Seq<char>>,
    facts: Seq<(Seq<char>, Option<u64>)>,
    k: nat,
)
    requires
        forall|i: int| 0 <= i < carry.len() ==> in_data(#[trigger] carry[i].to),
    ensures
        take_refs(carry, refs, rw, graph, found, dir, facts, k) matches Some((c, _, _))
            ==> forall|i: int| 0 <= i < c.len() ==> in_data(#[trigger] c[i].to),
    decreases found.len() - k,
{
    if k < found.len() {
        let r = found[k as int];
        let kind = kind_spec(r.value, dir, facts);
        let refs2 = refs.push(ReferenceM { graph, field: r.key, value: r.value, kind });
        match kind {
            KindM::Local(path, bytes) => match destination(carry, path, bytes) {
                None => {},
                Some((c, to)) => {
                    if carried_at(carry, path) is None {
                        let count = sharing(carry, base_name(path)) + 1;
                        lemma_free_landing_in_data(carry, base_name(path), count, count + carry.len());
                        assert(forall|i: int| 0 <= i < c.len() ==> in_data(#[trigger] c[i].to)) by {
                            assert forall|i: int| 0 <= i < c.len() implies in_data(#[trigger] c[i].to) by {
                                if i < carry.len() {
                                    assert(c[i] == carry[i]);
                                }
                            }
                        }
                    }
                    lemma_take_refs_in_data(c, refs2, rw.push((k as usize, to)), graph, found, dir, facts, k + 1);
                },
            },
            _ => lemma_take_refs_in_data(carry, refs2, rw, graph, found, dir, facts, k + 1),
        }
    }
}

/// Whether `s` parses and none of the files it names is one the facts show to be there: a graph
/// with nothing to carry.
pub open spec fn names_no_file(s: SourceM, facts: Seq<(Seq<char>, Option<u64>)>) -> bool {
    match parsed(s.text) {
        Err(_) => false,
        Ok(d) => {
            let found = file_refs(singles_nodes(d.pipeline, 0));
            forall|k: int| 0 <= k < found.len() ==> !(kind_spec(#[trigger] found[k].value, s.dir, facts) is Local)
        },
    }
}

proof fn lemma_take_refs_no_local(
    carry: Seq<CarriedM>,
    refs: Seq<ReferenceM>,
    rw: Seq<(usize, Seq<char>)>,
    graph: Seq<char>,
    found: Seq<SingleM>,
    dir: Option<Seq<char>>,
    facts: Seq<(Seq<char>, Option<u64>)>,
    k: nat,
)
    requires
        forall|m: int| k <= m < found.len() ==> !(kind_spec(#[trigger] found[m].value, dir, facts) is Local),
    ensures
        take_refs(carry, refs, rw, graph, found, dir, facts, k) matches Some((_, _, rw2)) && rw2 == rw,
    decreases found.len() - k,
{
    if k < found.len() {
        let r = found[k as int];
        let refs2 = refs.push(ReferenceM { graph, field: r.key, value: r.value, kind: kind_spec(r.value, dir, facts) });
        lemma_take_refs_no_local(carry, refs2, rw, graph, found, dir, facts, k + 1);
    }
}

proof fn lemma_planning_carries(sources: Seq<SourceM>, facts: Seq<(Seq<char>, Option<u64>)>, i: nat, acc: PlanM)
    requires
        i <= sources.len(),
        acc.graphs.len() == i,
        forall|k: int| 0 <= k < i ==> carries(#[trigger] acc.graphs[k], sources[k]),
        forall|k: int| 0 <= k < acc.carry.len() ==> in_data(#[trigger] acc.carry[k].to),
        forall|k: int| 0 <= k < i && names_no_file(sources[k], facts) ==> (#[trigger] acc.graphs[k]).vpl == sources[k].text,
    ensures
        planning(sources, facts, i, acc) matches Some(p) ==> {
            &&& p.graphs.len() == sources.len()
            &&& forall|k: int| 0 <= k < sources.len() ==> carries(#[trigger] p.graphs[k], sources[k])
            &&& forall|k: int| 0 <= k < p.carry.len() ==> in_data(#[trigger] p.carry[k].to)
            &&& forall|k: int| 0 <= k < sources.len() && names_no_file(sources[k], facts)
                ==> (#[trigger] p.graphs[k]).vpl == sources[k].text
        },
    decreases sources.len() - i,
{
    if i < sources.len() {
        let s = sources[i as int];
        if let Ok(d) = parsed(s.text) {
            let found = file_refs(singles_nodes(d.pipeline, 0));
            lemma_take_refs_in_data(acc.carry, acc.references, seq![], s.name, found, s.dir, facts, 0);
            if names_no_file(s, facts) {
                lemma_take_refs_no_local(acc.carry, acc.references, seq![], s.name, found, s.dir, facts, 0);
            }
            if let Some((c, refs, rw)) = take_refs(acc.carry, acc.references, seq![], s.name, found, s.dir, facts, 0) {
                if let Some(v) = rewriting(s.text, rw, 0) {
                    let g = SavedGraphM { name: s.name, vpl: v, enabled: s.enabled, disabled: s.disabled };
                    let next = PlanM { carry: c, references: refs, graphs: acc.graphs.push(g) };
                    assert forall|k: int| 0 <= k < i + 1 implies carries(#[trigger] next.graphs[k], sources[k]) by {
                        if k < i {
                            assert(next.graphs[k] == acc.graphs[k]);
                        }
                    }
                    assert forall|k: int| 0 <= k < i + 1 && names_no_file(sources[k], facts)
                        implies (#[trigger] next.graphs[k]).vpl == sources[k].text by {
                        if k < i {
                            assert(next.graphs[k] == acc.graphs[k]);
                        }
                    }
                    lemma_planning_carries(sources, facts, i + 1, next);
                }
            }
        }
    }
}

/// A plan keeps every graph it was given, in order: each under its own name, drawn or not as it
/// was and with the same operations switched off, and a graph with nothing to carry keeps its
/// text byte for byte; and every file it carries lands inside the copy's `data/` directory.
pub proof fn lemma_plan_keeps_each_graph(sources: Seq<SourceM>, facts: Seq<(Seq<char>, Option<u64>)>)
    ensures
        planning(sources, facts, 0, PlanM { carry: seq![], references: seq![], graphs: seq![] }) matches Some(p) ==> {
            &&& p.graphs.len() == sources.len()
            &&& forall|k: int| 0 <= k < sources.len() ==> carries(#[trigger] p.graphs[k], sources[k])
            &&& forall|k: int| 0 <= k < p.carry.len() ==> in_data(#[trigger] p.carry[k].to)
            &&& forall|k: int| 0 <= k < sources.len() && names_no_file(sources[k], facts)
                ==> (#[trigger] p.graphs[k]).vpl == sources[k].text
        },
{
    lemma_planning_carries(sources, facts, 0, PlanM { carry: seq![], references: seq![], graphs: seq![] });
}

/// What the carried files weigh in all.
pub open spec fn total_bytes(carry: Seq<CarriedM>) -> nat
    decreases carry.len(),
{
    if carry.len() == 0 { 0 } else { total_bytes(carry.drop_last()) + (carry.last().bytes as nat) }
}

/// The references that name a file that is not there, in order.
pub open spec fn missing_refs(refs: Seq<ReferenceM>) -> Seq<ReferenceM>
    decreases refs.len(),
{
    if refs.len() == 0 {
        seq![]
    } else if refs.last().kind is Missing {
        missing_refs(refs.drop_last()).push(refs.last())
    } else {
        missing_refs(refs.drop_last())
    }
}

impl Plan {
    /// What the carried files weigh in total, so a surface can say what a copy costs before making
    /// it.
    pub fn bytes(&self) -> (n: u64)
        requires
            total_bytes(self@.carry) <= u64::MAX,
        ensures
            n == total_bytes(self@.carry),
    {
        let ghost cm = self@.carry;
        let mut sum: u64 = 0;
        let mut i: usize = 0;
        while i < self.carry.len()
            invariant
                i <= self.carry@.len(),
                cm == carried_model(self.carry@),
                total_bytes(cm) <= u64::MAX,
                sum == total_bytes(cm.take(i as int)),
            decreases self.carry@.len() - i,
        {
            proof {
                assert(cm.take(i as int + 1).drop_last() =~= cm.take(i as int));
                assert(cm.take(i as int + 1).last() == self.carry@[i as int]@);
                lemma_total_prefix(cm, i as int + 1);
            }
            sum = sum + self.carry[i].bytes;
            i = i + 1;
        }
        proof {
            assert(cm.take(i as int) =~= cm);
        }
        sum
    }

    /// The references that name a file that is not there.
    pub fn missing(&self) -> (r: Vec<&Reference>)
        ensures
            r@.map_values(|x: &Reference| x@) == missing_refs(self@.references),
    {
        let ghost rm = self@.references;
        let mut out: Vec<&Reference> = Vec::new();
        let mut i: usize = 0;
        while i < self.references.len()
            invariant
                i <= self.references@.len(),
                rm == references_model(self.references@),
                out@.map_values(|x: &Reference| x@) == missing_refs(rm.take(i as int)),
            decreases self.references@.len() - i,
        {
            proof {
                assert(rm.take(i as int + 1).drop_last() =~= rm.take(i as int));
                assert(rm.take(i as int + 1).last() == self.references@[i as int]@);
            }
            let ghost before = out@;
            match &self.references[i].kind {
                ReferenceKind::Missing { .. } => {
                    out.push(&self.references[i]);
                    proof {
                        assert(out@.map_values(|x: &Reference| x@) =~= before.map_values(|x: &Reference| x@).push(self.references@[i as int]@));
                    }
                },
                _ => {},
            }
            i = i + 1;
        }
        proof {
            assert(rm.take(i as int) =~= rm);
        }
        out
    }
}

proof fn lemma_total_prefix(carry: Seq<CarriedM>, k: int)
    requires
        0 <= k <= carry.len(),
    ensures
        total_bytes(carry.take(k)) <= total_bytes(carry),
    decreases carry.len() - k,
{
    if k < carry.len() {
        lemma_total_prefix(carry, k + 1);
        assert(carry.take(k + 1).drop_last() =~= carry.take(k));
    } else {
        assert(carry.take(k) =~= carry);
    }
}

/// The paths a value list names that a plan looks up: every reference that is not a URL.
pub open spec fn lookups(found: Seq<SingleM>, dir: Option<Seq<char>>) -> Seq<Seq<char>>
    decreases found.len(),
{
    if found.len() == 0 {
        seq![]
    } else if url(found.last().value) {
        lookups(found.drop_last(), dir)
    } else {
        lookups(found.drop_last(), dir).push(looked_up(found.last().value, dir))
    }
}

/// The paths [`plan`] will look up for one graph, so the caller can ask the file system about
/// each before planning.
pub fn paths_to_check(source: &Source) -> (r: Result<Vec<String>, ParseError>)
    ensures
        match parsed(source@.text) {
            Err(e) => r matches Err(x) && x@ == e,
            Ok(d) => r matches Ok(v) && texts(v@) == lookups(file_refs(singles_nodes(d.pipeline, 0)), source@.dir),
        },
{
    let doc = match Document::parse(source.text.as_str()) {
        Ok(d) => d,
        Err(e) => return Err(e),
    };
    let found = file_references(doc.pipeline());
    let ghost fdm = singles_model(found@);
    let dir: Option<&str> = match &source.dir {
        Some(d) => Some(d.as_str()),
        None => None,
    };
    let mut out: Vec<String> = Vec::new();
    let mut k: usize = 0;
    while k < found.len()
        invariant
            k <= found@.len(),
            fdm == singles_model(found@),
            opt_view(dir) == source@.dir,
            texts(out@) == lookups(fdm.take(k as int), source@.dir),
        decreases found@.len() - k,
    {
        proof {
            assert(fdm.take(k as int + 1).drop_last() =~= fdm.take(k as int));
            assert(fdm.take(k as int + 1).last() == found@[k as int]@);
        }
        let value = found[k].value.as_str();
        if !is_url(value) {
            let ghost before = texts(out@);
            out.push(look_up_path(value, dir));
            proof {
                assert(texts(out@) =~= before.push(looked_up(value@, source@.dir)));
            }
        }
        k = k + 1;
    }
    proof {
        assert(fdm.take(k as int) =~= fdm);
    }
    Ok(out)
}

} // verus!
