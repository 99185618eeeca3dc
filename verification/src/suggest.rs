//! Values a form can offer before anyone types them: a field the role table calls a column of a
//! sibling file is offered that file's column names.
//!
//! Which fields want suggestions, and which file each one reads, is decided here; reading the
//! files is the caller's, who hands back what it found for each path.

use vstd::prelude::*;
use crate::paths::joined;
use crate::server::{decimal, push_decimal};
use crate::text::{chars_of, owned, push_char, push_str, same_text};
use crate::vpl::ast::{lemma_node_model, lemma_pipeline_model, nodes_model, pipes_model, texts, values_for, Node, NodeM,
    Pipeline, PipelineM};
use crate::vpl::operations::{
    built_names, find_op, find_operation, known_shape, lemma_this_build_finds, operations, operations_model, shape,
    this_build, FieldInfo, FieldM, OperationInfo, OperationM,
};
use crate::vpl::semantics::{first_under, role_of, role_spec, role_table, Names, NamesM, Role, RoleM};

verus! {

/// The values one field can be offered.
#[derive(Debug, Clone, PartialEq, Eq)]
pub struct FieldSuggestion {
    pub field: String,
    pub values: Vec<String>,
}

pub ghost struct SuggestionM {
    pub field: Seq<char>,
    pub values: Seq<Seq<char>>,
}

impl View for FieldSuggestion {
    type V = SuggestionM;

    open spec fn view(&self) -> SuggestionM {
        SuggestionM { field: self.field@, values: texts(self.values@) }
    }
}

pub open spec fn suggestions_model(v: Seq<FieldSuggestion>) -> Seq<SuggestionM> {
    v.map_values(|s: FieldSuggestion| s@)
}

/// What reading one delimited file gave: its column names, or `None` when it could not be read.
#[derive(Debug)]
pub struct ColumnFact {
    pub path: String,
    pub columns: Option<Vec<String>>,
}

pub open spec fn column_facts_model(v: Seq<ColumnFact>) -> Seq<(Seq<char>, Option<Seq<Seq<char>>>)> {
    v.map_values(|f: ColumnFact| (f.path@, match f.columns { Some(c) => Some(texts(c@)), None => None }))
}

/// The columns the facts give for `path`: the first fact about it.
pub open spec fn columns_at(facts: Seq<(Seq<char>, Option<Seq<Seq<char>>>)>, path: Seq<char>) -> Option<Seq<Seq<char>>>
    decreases facts.len(),
{
    if facts.len() == 0 {
        None
    } else if facts[0].0 == path {
        facts[0].1
    } else {
        columns_at(facts.drop_first(), path)
    }
}

/// The sibling field whose file names `field`'s values, when the role table says it has one.
pub open spec fn sibling_of(operation: Seq<char>, field: Seq<char>) -> Option<Seq<char>> {
    match role_spec(operation, field) {
        Some(RoleM::Names(NamesM::ColumnOf(s))) => Some(s),
        _ => None,
    }
}

/// The file `sibling` names on node `n`: its first value, resolved against `dir` unless it starts
/// at the root - the rule the pipeline itself follows.
pub open spec fn column_file(n: NodeM, sibling: Seq<char>, dir: Seq<char>) -> Option<Seq<char>> {
    let values = values_for(n.properties, sibling);
    if values.len() == 0 {
        None
    } else if values[0].len() > 0 && values[0][0] == '/' {
        Some(values[0])
    } else {
        Some(joined(dir, values[0]))
    }
}

/// What a node's fields (`fields`, the operation's parameters) are offered.
pub open spec fn suggestions_for(
    n: NodeM,
    fields: Seq<FieldM>,
    dir: Seq<char>,
    facts: Seq<(Seq<char>, Option<Seq<Seq<char>>>)>,
) -> Seq<SuggestionM>
    decreases fields.len(),
{
    if fields.len() == 0 {
        seq![]
    } else {
        let earlier = suggestions_for(n, fields.drop_last(), dir, facts);
        let f = fields.last();
        match sibling_of(n.name, f.name) {
            None => earlier,
            Some(s) => match column_file(n, s, dir) {
                None => earlier,
                Some(path) => match columns_at(facts, path) {
                    None => earlier,
                    Some(names) => earlier.push(SuggestionM { field: f.name, values: names }),
                },
            },
        }
    }
}

/// The columns the facts give for `path`.
fn columns_for(facts: &Vec<ColumnFact>, path: &str) -> (r: Option<Vec<String>>)
    ensures
        match columns_at(column_facts_model(facts@), path@) {
            None => r is None,
            Some(c) => r matches Some(v) && texts(v@) == c,
        },
{
    let ghost all = column_facts_model(facts@);
    let mut i: usize = 0;
    proof {
        assert(all.skip(0) =~= all);
    }
    while i < facts.len()
        invariant
            i <= facts@.len(),
            all == column_facts_model(facts@),
            columns_at(all, path@) == columns_at(all.skip(i as int), path@),
        decreases facts@.len() - i,
    {
        proof {
            assert(all.skip(i as int).drop_first() =~= all.skip(i as int + 1));
            assert(all.skip(i as int)[0] == all[i as int]);
        }
        if same_text(facts[i].path.as_str(), path) {
            return match &facts[i].columns {
                Some(c) => Some(copy_texts(c)),
                None => None,
            };
        }
        i = i + 1;
    }
    None
}

/// The same strings, owned anew.
fn copy_texts(v: &Vec<String>) -> (r: Vec<String>)
    ensures
        texts(r@) == texts(v@),
{
    let mut out: Vec<String> = Vec::new();
    let mut i: usize = 0;
    while i < v.len()
        invariant
            i <= v@.len(),
            texts(out@) == texts(v@.take(i as int)),
        decreases v@.len() - i,
    {
        let ghost before = out@;
        out.push(v[i].clone());
        proof {
            assert(texts(out@) =~= texts(before).push(v@[i as int]@));
            assert(v@.take(i as int + 1) =~= v@.take(i as int).push(v@[i as int]));
            assert(texts(v@.take(i as int + 1)) =~= texts(v@.take(i as int)).push(v@[i as int]@));
        }
        i = i + 1;
    }
    proof {
        assert(v@.take(i as int) =~= v@);
    }
    out
}

/// The file `sibling` names on `node`; see [`column_file`].
pub fn file_for(node: &Node, sibling: &str, dir: &str) -> (r: Option<String>)
    ensures
        match column_file(node@, sibling@, dir@) {
            None => r is None,
            Some(p) => r matches Some(s) && s@ == p,
        },
{
    let values = node.property(sibling);
    if values.len() == 0 {
        return None;
    }
    let first = values[0].as_str();
    proof {
        assert(texts(values@)[0] == first@);
    }
    let chars = chars_of(first);
    if chars.len() > 0 && chars[0] == '/' {
        return Some(owned(first));
    }
    let d = chars_of(dir);
    let mut out = owned(dir);
    if d.len() > 0 && d[d.len() - 1] != '/' {
        push_char(&mut out, '/');
    }
    push_str(&mut out, first);
    proof {
        if d.len() > 0 {
            assert(dir@.last() == d@[d@.len() - 1]);
        }
    }
    Some(out)
}

/// The sibling of `field` on `operation`, when the role table calls the field a column of it.
fn sibling_for(operation: &str, field: &str) -> (r: Option<&'static str>)
    ensures
        match sibling_of(operation@, field@) {
            None => r is None,
            Some(s) => r matches Some(x) && x@ == s,
        },
{
    match role_of(operation, field) {
        Some(Role::Names(Names::ColumnOf(s))) => Some(s),
        _ => None,
    }
}

/// What a node's fields are offered, given its operation's parameters and what reading each file
/// gave; see [`suggestions_for`].
pub fn for_node_with(node: &Node, fields: &Vec<FieldInfo>, dir: &str, facts: &Vec<ColumnFact>) -> (r: Vec<FieldSuggestion>)
    ensures
        suggestions_model(r@) == suggestions_for(node@, fields@.map_values(|f: FieldInfo| f@), dir@, column_facts_model(facts@)),
{
    let ghost fm = fields@.map_values(|f: FieldInfo| f@);
    let ghost cf = column_facts_model(facts@);
    let mut out: Vec<FieldSuggestion> = Vec::new();
    let mut i: usize = 0;
    while i < fields.len()
        invariant
            i <= fields@.len(),
            fm == fields@.map_values(|f: FieldInfo| f@),
            cf == column_facts_model(facts@),
            suggestions_model(out@) == suggestions_for(node@, fm.take(i as int), dir@, cf),
        decreases fields@.len() - i,
    {
        let field = &fields[i];
        proof {
            assert(fm.take(i as int + 1).drop_last() =~= fm.take(i as int));
            assert(fm.take(i as int + 1).last() == field@);
        }
        match sibling_for(node.name.as_str(), field.name.as_str()) {
            None => {},
            Some(s) => match file_for(node, s, dir) {
                None => {},
                Some(path) => match columns_for(facts, path.as_str()) {
                    None => {},
                    Some(values) => {
                        let ghost before = suggestions_model(out@);
                        out.push(FieldSuggestion { field: field.name.clone(), values });
                        proof {
                            assert(suggestions_model(out@) =~= before.push(out@[out@.len() - 1]@));
                        }
                    },
                },
            },
        }
        i = i + 1;
    }
    proof {
        assert(fm.take(i as int) =~= fm);
    }
    out
}

/// What a node's fields are offered, its operation looked up in `ops` by name.
pub fn for_node_in(node: &Node, ops: &Vec<OperationInfo>, dir: &str, facts: &Vec<ColumnFact>) -> (r: Vec<FieldSuggestion>)
    ensures
        match find_op(operations_model(ops@), node@.name) {
            None => r@.len() == 0,
            Some(op) => suggestions_model(r@) == suggestions_for(node@, op.fields, dir@, column_facts_model(facts@)),
        },
{
    proof {
        lemma_node_model(*node);
    }
    match find_operation(ops, node.name.as_str()) {
        None => Vec::new(),
        Some(i) => for_node_with(node, &ops[i].fields, dir, facts),
    }
}

/// What a node's fields are offered, by the operations this build registers.
///
/// Every suggestion is for a field the role table calls a column of a sibling file, and offers the
/// columns read from that file. Only `from_csv` and `vector_update_properties` have such fields, and
/// [`this_build`] states theirs, so the answer is the same for every list it describes.
pub fn for_node(node: &Node, dir: &str, facts: &Vec<ColumnFact>) -> (r: Vec<FieldSuggestion>)
    ensures
        exists|ops: Seq<OperationM>| #[trigger] this_build(ops),
        forall|ops: Seq<OperationM>| #[trigger] this_build(ops)
            ==> suggestions_model(r@) == offered(node@, ops, dir@, column_facts_model(facts@)),
{
    let ops = operations();
    let r = for_node_in(node, &ops, dir, facts);
    proof {
        let mine = operations_model(ops@);
        if find_op(mine, node@.name) is None {
            assert(suggestions_model(r@) =~= Seq::<SuggestionM>::empty());
        }
        assert(this_build(mine));
        assert forall|other: Seq<OperationM>| #[trigger] this_build(other)
            implies suggestions_model(r@) == offered(node@, other, dir@, column_facts_model(facts@)) by {
            lemma_offered_fixed(node@, mine, other, dir@, column_facts_model(facts@));
        }
    }
    r
}

/// One node's suggestions, and the path that finds the node again.
#[derive(Debug, Clone, PartialEq, Eq)]
pub struct NodeSuggestions {
    /// The indices from the root, `.`-separated: a node, then a source and a node within it, and
    /// so on down.
    pub path: String,
    pub fields: Vec<FieldSuggestion>,
}

pub ghost struct NodeSuggestionsM {
    pub path: Seq<char>,
    pub fields: Seq<SuggestionM>,
}

impl View for NodeSuggestions {
    type V = NodeSuggestionsM;

    open spec fn view(&self) -> NodeSuggestionsM {
        NodeSuggestionsM { path: self.path@, fields: suggestions_model(self.fields@) }
    }
}

pub open spec fn node_suggestions_model(v: Seq<NodeSuggestions>) -> Seq<NodeSuggestionsM> {
    v.map_values(|s: NodeSuggestions| s@)
}

/// A path written with `.` between the indices.
pub open spec fn path_text(path: Seq<int>) -> Seq<char>
    decreases path.len(),
{
    if path.len() == 0 {
        seq![]
    } else if path.len() == 1 {
        decimal(path[0] as nat)
    } else {
        path_text(path.drop_last()) + seq!['.'] + decimal(path.last() as nat)
    }
}

/// What node `n`'s own fields are offered, its operation looked up in `ops`.
pub open spec fn offered(n: NodeM, ops: Seq<crate::vpl::operations::OperationM>, dir: Seq<char>,
    facts: Seq<(Seq<char>, Option<Seq<Seq<char>>>)>) -> Seq<SuggestionM> {
    match find_op(ops, n.name) {
        None => seq![],
        Some(op) => suggestions_for(n, op.fields, dir, facts),
    }
}

/// Every node under `n` (itself first) that is offered something, with its path.
pub open spec fn offered_node(n: NodeM, path: Seq<int>, ops: Seq<crate::vpl::operations::OperationM>, dir: Seq<char>,
    facts: Seq<(Seq<char>, Option<Seq<Seq<char>>>)>) -> Seq<NodeSuggestionsM>
    decreases n, 2int, 0int,
{
    let here = offered(n, ops, dir, facts);
    (if here.len() > 0 { seq![NodeSuggestionsM { path: path_text(path), fields: here }] } else { seq![] })
        + offered_sources(n, path, 0, ops, dir, facts)
}

pub open spec fn offered_sources(n: NodeM, path: Seq<int>, i: int, ops: Seq<crate::vpl::operations::OperationM>,
    dir: Seq<char>, facts: Seq<(Seq<char>, Option<Seq<Seq<char>>>)>) -> Seq<NodeSuggestionsM>
    decreases n, 1int, n.sources.len() - i,
{
    if 0 <= i < n.sources.len() {
        offered_nodes(n.sources[i], path.push(i), 0, ops, dir, facts) + offered_sources(n, path, i + 1, ops, dir, facts)
    } else {
        seq![]
    }
}

pub open spec fn offered_nodes(p: PipelineM, prefix: Seq<int>, j: int, ops: Seq<crate::vpl::operations::OperationM>,
    dir: Seq<char>, facts: Seq<(Seq<char>, Option<Seq<Seq<char>>>)>) -> Seq<NodeSuggestionsM>
    decreases p, 0int, p.nodes.len() - j,
{
    if 0 <= j < p.nodes.len() {
        offered_node(p.nodes[j], prefix.push(j), ops, dir, facts) + offered_nodes(p, prefix, j + 1, ops, dir, facts)
    } else {
        seq![]
    }
}

/// Appends `n` in decimal.
fn push_index(out: &mut String, n: usize)
    ensures
        final(out)@ == old(out)@ + decimal(n as nat),
    decreases n,
{
    if n >= 10 {
        push_index(out, n / 10);
    }
    let d = n % 10;
    let c = if d == 0 { '0' } else if d == 1 { '1' } else if d == 2 { '2' } else if d == 3 { '3' } else if d == 4 { '4' }
        else if d == 5 { '5' } else if d == 6 { '6' } else if d == 7 { '7' } else if d == 8 { '8' } else { '9' };
    push_char(out, c);
    proof {
        assert(c == crate::server::digit(d as nat));
        if n >= 10 {
            assert(decimal(n as nat) == decimal((n / 10) as nat).push(crate::server::digit((n % 10) as nat)));
        }
    }
}

/// A path written with `.` between the indices; see [`path_text`].
fn write_path(path: &Vec<usize>) -> (r: String)
    ensures
        r@ == path_text(crate::vpl::ast::ints(path@)),
{
    let ghost ip = crate::vpl::ast::ints(path@);
    let mut out = String::new();
    let mut i: usize = 0;
    while i < path.len()
        invariant
            i <= path@.len(),
            ip == crate::vpl::ast::ints(path@),
            out@ == path_text(ip.take(i as int)),
        decreases path@.len() - i,
    {
        proof {
            assert(ip.take(i as int + 1).drop_last() =~= ip.take(i as int));
            assert(ip.take(i as int + 1).last() == path@[i as int] as int);
            assert(ip.take(1)[0] == path@[0] as int);
        }
        if i > 0 {
            push_char(&mut out, '.');
        }
        push_index(&mut out, path[i]);
        i = i + 1;
    }
    proof {
        assert(ip.take(i as int) =~= ip);
    }
    out
}

/// `path` with `i` after it.
fn extended(path: &Vec<usize>, i: usize) -> (r: Vec<usize>)
    ensures
        crate::vpl::ast::ints(r@) == crate::vpl::ast::ints(path@).push(i as int),
{
    let mut out: Vec<usize> = Vec::new();
    let mut k: usize = 0;
    while k < path.len()
        invariant
            k <= path@.len(),
            out@ == path@.take(k as int),
        decreases path@.len() - k,
    {
        out.push(path[k]);
        proof {
            assert(path@.take(k as int + 1) =~= path@.take(k as int).push(path@[k as int]));
        }
        k = k + 1;
    }
    out.push(i);
    proof {
        assert(path@.take(k as int) =~= path@);
        assert(crate::vpl::ast::ints(out@) =~= crate::vpl::ast::ints(path@).push(i as int));
    }
    out
}

/// Adds what every node under `node` is offered to `out`, in walk order.
fn collect_node(node: &Node, path: &Vec<usize>, ops: &Vec<OperationInfo>, dir: &str, facts: &Vec<ColumnFact>,
    out: &mut Vec<NodeSuggestions>)
    ensures
        node_suggestions_model(final(out)@) == node_suggestions_model(old(out)@) + offered_node(node@,
            crate::vpl::ast::ints(path@), operations_model(ops@), dir@, column_facts_model(facts@)),
    decreases node,
{
    proof {
        lemma_node_model(*node);
    }
    let ghost start = node_suggestions_model(out@);
    let ghost ip = crate::vpl::ast::ints(path@);
    let ghost om = operations_model(ops@);
    let ghost cf = column_facts_model(facts@);
    let fields = for_node_in(node, ops, dir, facts);
    if fields.len() > 0 {
        let p = write_path(path);
        let ghost before = out@;
        out.push(NodeSuggestions { path: p, fields });
        proof {
            assert(node_suggestions_model(out@) =~= node_suggestions_model(before).push(out@[out@.len() - 1]@));
            assert(out@[out@.len() - 1]@ == NodeSuggestionsM { path: path_text(ip), fields: offered(node@, om, dir@, cf) });
        }
    } else {
        proof {
            assert(offered(node@, om, dir@, cf).len() == 0);
        }
    }
    let ghost mid = node_suggestions_model(out@);
    proof {
        let here = offered(node@, om, dir@, cf);
        assert(mid == start + (if here.len() > 0 { seq![NodeSuggestionsM { path: path_text(ip), fields: here }] } else { seq![] }));
    }
    let mut i: usize = 0;
    while i < node.sources.len()
        invariant
            i <= node.sources@.len(),
            node@.sources == pipes_model(node.sources@),
            ip == crate::vpl::ast::ints(path@),
            om == operations_model(ops@),
            cf == column_facts_model(facts@),
            offered_sources(node@, ip, 0, om, dir@, cf).len() >= offered_sources(node@, ip, i as int, om, dir@, cf).len(),
            offered_sources(node@, ip, 0, om, dir@, cf) == offered_sources(node@, ip, 0, om, dir@, cf).take(
                offered_sources(node@, ip, 0, om, dir@, cf).len() - offered_sources(node@, ip, i as int, om, dir@, cf).len())
                + offered_sources(node@, ip, i as int, om, dir@, cf),
            node_suggestions_model(out@) == mid + offered_sources(node@, ip, 0, om, dir@, cf).take(
                offered_sources(node@, ip, 0, om, dir@, cf).len() - offered_sources(node@, ip, i as int, om, dir@, cf).len()),
        decreases node.sources@.len() - i,
    {
        proof {
            assert(decreases_to!(node => node.sources));
            assert(decreases_to!(node.sources => node.sources@));
            assert(decreases_to!(node.sources@ => node.sources@[i as int]));
        }
        let sub = extended(path, i);
        collect_pipeline(&node.sources[i], &sub, ops, dir, facts, out);
        proof {
            let all = offered_sources(node@, ip, 0, om, dir@, cf);
            let here = offered_nodes(node@.sources[i as int], ip.push(i as int), 0, om, dir@, cf);
            let after = offered_sources(node@, ip, i as int + 1, om, dir@, cf);
            assert(offered_sources(node@, ip, i as int, om, dir@, cf) == here + after);
            let done = all.take(all.len() - (here + after).len());
            assert(all == done + (here + after));
            assert(all.take(all.len() - after.len()) =~= done + here);
            assert(all =~= (done + here) + after);
        }
        i = i + 1;
    }
    proof {
        let all = offered_sources(node@, ip, 0, om, dir@, cf);
        assert(offered_sources(node@, ip, i as int, om, dir@, cf) == Seq::<NodeSuggestionsM>::empty());
        assert(all.take(all.len() as int) =~= all);
    }
}

/// Adds what every node of `pipeline` is offered to `out`, in walk order.
fn collect_pipeline(pipeline: &Pipeline, prefix: &Vec<usize>, ops: &Vec<OperationInfo>, dir: &str, facts: &Vec<ColumnFact>,
    out: &mut Vec<NodeSuggestions>)
    ensures
        node_suggestions_model(final(out)@) == node_suggestions_model(old(out)@) + offered_nodes(pipeline@,
            crate::vpl::ast::ints(prefix@), 0, operations_model(ops@), dir@, column_facts_model(facts@)),
    decreases pipeline,
{
    proof {
        lemma_pipeline_model(*pipeline);
    }
    let ghost start = node_suggestions_model(out@);
    let ghost ip = crate::vpl::ast::ints(prefix@);
    let ghost om = operations_model(ops@);
    let ghost cf = column_facts_model(facts@);
    let mut j: usize = 0;
    while j < pipeline.nodes.len()
        invariant
            j <= pipeline.nodes@.len(),
            pipeline@.nodes == nodes_model(pipeline.nodes@),
            ip == crate::vpl::ast::ints(prefix@),
            om == operations_model(ops@),
            cf == column_facts_model(facts@),
            offered_nodes(pipeline@, ip, 0, om, dir@, cf).len() >= offered_nodes(pipeline@, ip, j as int, om, dir@, cf).len(),
            offered_nodes(pipeline@, ip, 0, om, dir@, cf) == offered_nodes(pipeline@, ip, 0, om, dir@, cf).take(
                offered_nodes(pipeline@, ip, 0, om, dir@, cf).len() - offered_nodes(pipeline@, ip, j as int, om, dir@, cf).len())
                + offered_nodes(pipeline@, ip, j as int, om, dir@, cf),
            node_suggestions_model(out@) == start + offered_nodes(pipeline@, ip, 0, om, dir@, cf).take(
                offered_nodes(pipeline@, ip, 0, om, dir@, cf).len() - offered_nodes(pipeline@, ip, j as int, om, dir@, cf).len()),
        decreases pipeline.nodes@.len() - j,
    {
        proof {
            assert(decreases_to!(pipeline => pipeline.nodes));
            assert(decreases_to!(pipeline.nodes => pipeline.nodes@));
            assert(decreases_to!(pipeline.nodes@ => pipeline.nodes@[j as int]));
        }
        let sub = extended(prefix, j);
        collect_node(&pipeline.nodes[j], &sub, ops, dir, facts, out);
        proof {
            let all = offered_nodes(pipeline@, ip, 0, om, dir@, cf);
            let here = offered_node(pipeline@.nodes[j as int], ip.push(j as int), om, dir@, cf);
            let after = offered_nodes(pipeline@, ip, j as int + 1, om, dir@, cf);
            assert(offered_nodes(pipeline@, ip, j as int, om, dir@, cf) == here + after);
            let done = all.take(all.len() - (here + after).len());
            assert(all == done + (here + after));
            assert(all.take(all.len() - after.len()) =~= done + here);
            assert(all =~= (done + here) + after);
        }
        j = j + 1;
    }
    proof {
        let all = offered_nodes(pipeline@, ip, 0, om, dir@, cf);
        assert(offered_nodes(pipeline@, ip, j as int, om, dir@, cf) == Seq::<NodeSuggestionsM>::empty());
        assert(all.take(all.len() as int) =~= all);
    }
}

/// What every node of a pipeline is offered, by the operations in `ops`, each with the path that
/// finds the node again; nodes offered nothing are left out.
pub fn for_pipeline_in(pipeline: &Pipeline, ops: &Vec<OperationInfo>, dir: &str, facts: &Vec<ColumnFact>) -> (r: Vec<NodeSuggestions>)
    ensures
        node_suggestions_model(r@) == offered_nodes(pipeline@, seq![], 0, operations_model(ops@), dir@, column_facts_model(facts@)),
{
    let mut out: Vec<NodeSuggestions> = Vec::new();
    let root: Vec<usize> = Vec::new();
    proof {
        assert(crate::vpl::ast::ints(root@) =~= Seq::<int>::empty());
    }
    collect_pipeline(pipeline, &root, ops, dir, facts, &mut out);
    proof {
        assert(node_suggestions_model(Seq::<NodeSuggestions>::empty()) =~= Seq::<NodeSuggestionsM>::empty());
        assert(node_suggestions_model(out@) =~= offered_nodes(pipeline@, seq![], 0, operations_model(ops@), dir@, column_facts_model(facts@)));
    }
    out
}

/// Whether a role names the columns of a sibling file.
pub open spec fn column_role(r: RoleM) -> bool {
    r matches RoleM::Names(NamesM::ColumnOf(_))
}

proof fn lemma_first_under_from<V>(t: Seq<(Seq<char>, V)>, name: Seq<char>)
    ensures
        first_under(t, name) matches Some(v) ==> exists|i: int| 0 <= i < t.len() && #[trigger] t[i] == (name, v),
    decreases t.len(),
{
    if t.len() > 0 && t[0].0 != name {
        lemma_first_under_from(t.drop_first(), name);
        if first_under(t, name) is Some {
            let v = first_under(t, name)->0;
            let i = choose|i: int| 0 <= i < t.drop_first().len() && #[trigger] t.drop_first()[i] == (name, v);
            assert(t[i + 1] == (name, v));
        }
    } else if t.len() > 0 {
        assert(t[0] == (name, t[0].1));
    }
}

/// Only `from_csv` and `vector_update_properties` have a field that names a sibling file's
/// columns.
proof fn lemma_siblings_belong_to_two(op: Seq<char>, field: Seq<char>)
    ensures
        sibling_of(op, field) is Some ==> op == "from_csv"@ || op == "vector_update_properties"@,
{
    let t = role_table();
    lemma_first_under_from(t, op);
    if sibling_of(op, field) is Some {
        let block = first_under(t, op)->0;
        let i = choose|i: int| 0 <= i < t.len() && #[trigger] t[i] == (op, block);
        lemma_first_under_from(block, field);
        let role = first_under(block, field)->0;
        let k = choose|k: int| 0 <= k < block.len() && #[trigger] block[k] == (field, role);
        assert(column_role(role));
        assert(i == 2 || i == 25) by {
            assert forall|j: int, m: int| 0 <= j < t.len() && j != 2 && j != 25 && 0 <= m < t[j].1.len()
                implies !column_role(#[trigger] t[j].1[m].1) by {
            }
        }
    }
}

proof fn lemma_suggestions_by_shape(n: NodeM, a: Seq<FieldM>, b: Seq<FieldM>, dir: Seq<char>,
    facts: Seq<(Seq<char>, Option<Seq<Seq<char>>>)>)
    requires
        shape(a) == shape(b),
    ensures
        suggestions_for(n, a, dir, facts) == suggestions_for(n, b, dir, facts),
    decreases a.len(),
{
    assert(a.len() == shape(a).len() && b.len() == shape(b).len());
    if a.len() > 0 {
        assert(shape(a.drop_last()) =~= shape(a).drop_last());
        assert(shape(b.drop_last()) =~= shape(b).drop_last());
        assert(shape(a)[a.len() - 1] == shape(b)[b.len() - 1]);
        lemma_suggestions_by_shape(n, a.drop_last(), b.drop_last(), dir, facts);
    }
}

proof fn lemma_no_siblings(n: NodeM, fields: Seq<FieldM>, dir: Seq<char>, facts: Seq<(Seq<char>, Option<Seq<Seq<char>>>)>)
    requires
        n.name != "from_csv"@,
        n.name != "vector_update_properties"@,
    ensures
        suggestions_for(n, fields, dir, facts) == Seq::<SuggestionM>::empty(),
    decreases fields.len(),
{
    if fields.len() > 0 {
        lemma_siblings_belong_to_two(n.name, fields.last().name);
        lemma_no_siblings(n, fields.drop_last(), dir, facts);
    }
}

proof fn lemma_offered_fixed(n: NodeM, a: Seq<OperationM>, b: Seq<OperationM>, dir: Seq<char>,
    facts: Seq<(Seq<char>, Option<Seq<Seq<char>>>)>)
    requires
        this_build(a),
        this_build(b),
    ensures
        offered(n, a, dir, facts) == offered(n, b, dir, facts),
{
    lemma_this_build_finds(a, n.name);
    lemma_this_build_finds(b, n.name);
    if built_names().contains(n.name) {
        let ya = find_op(a, n.name)->0;
        let yb = find_op(b, n.name)->0;
        if known_shape(n.name) is Some {
            lemma_suggestions_by_shape(n, ya.fields, yb.fields, dir, facts);
        } else {
            lemma_no_siblings(n, ya.fields, dir, facts);
            lemma_no_siblings(n, yb.fields, dir, facts);
        }
    }
}

proof fn lemma_offered_node_fixed(n: NodeM, path: Seq<int>, a: Seq<OperationM>, b: Seq<OperationM>, dir: Seq<char>,
    facts: Seq<(Seq<char>, Option<Seq<Seq<char>>>)>)
    requires
        this_build(a),
        this_build(b),
    ensures
        offered_node(n, path, a, dir, facts) == offered_node(n, path, b, dir, facts),
    decreases n, 2int, 0int,
{
    lemma_offered_fixed(n, a, b, dir, facts);
    lemma_offered_sources_fixed(n, path, 0, a, b, dir, facts);
}

proof fn lemma_offered_sources_fixed(n: NodeM, path: Seq<int>, i: int, a: Seq<OperationM>, b: Seq<OperationM>,
    dir: Seq<char>, facts: Seq<(Seq<char>, Option<Seq<Seq<char>>>)>)
    requires
        this_build(a),
        this_build(b),
    ensures
        offered_sources(n, path, i, a, dir, facts) == offered_sources(n, path, i, b, dir, facts),
    decreases n, 1int, n.sources.len() - i,
{
    if 0 <= i < n.sources.len() {
        lemma_offered_nodes_fixed(n.sources[i], path.push(i), 0, a, b, dir, facts);
        lemma_offered_sources_fixed(n, path, i + 1, a, b, dir, facts);
    }
}

/// What a pipeline's nodes are offered is the same for every list of operations that
/// [`this_build`] describes: the parameters it does not state are never offered anything.
pub proof fn lemma_offered_nodes_fixed(p: PipelineM, prefix: Seq<int>, j: int, a: Seq<OperationM>, b: Seq<OperationM>,
    dir: Seq<char>, facts: Seq<(Seq<char>, Option<Seq<Seq<char>>>)>)
    requires
        this_build(a),
        this_build(b),
    ensures
        offered_nodes(p, prefix, j, a, dir, facts) == offered_nodes(p, prefix, j, b, dir, facts),
    decreases p, 0int, p.nodes.len() - j,
{
    if 0 <= j < p.nodes.len() {
        lemma_offered_node_fixed(p.nodes[j], prefix.push(j), a, b, dir, facts);
        lemma_offered_nodes_fixed(p, prefix, j + 1, a, b, dir, facts);
    }
}

/// What every node of a pipeline is offered, by the operations this build registers.
pub fn for_pipeline(pipeline: &Pipeline, dir: &str, facts: &Vec<ColumnFact>) -> (r: Vec<NodeSuggestions>)
    ensures
        exists|ops: Seq<OperationM>| #[trigger] this_build(ops),
        forall|ops: Seq<OperationM>| #[trigger] this_build(ops)
            ==> node_suggestions_model(r@) == offered_nodes(pipeline@, seq![], 0, ops, dir@, column_facts_model(facts@)),
{
    let ops = operations();
    let r = for_pipeline_in(pipeline, &ops, dir, facts);
    proof {
        let mine = operations_model(ops@);
        assert(this_build(mine));
        assert forall|other: Seq<OperationM>| #[trigger] this_build(other)
            implies node_suggestions_model(r@) == offered_nodes(pipeline@, seq![], 0, other, dir@, column_facts_model(facts@)) by {
            lemma_offered_nodes_fixed(pipeline@, seq![], 0, mine, other, dir@, column_facts_model(facts@));
        }
    }
    r
}

/// The files a node's fields would read their columns from, in field order.
pub open spec fn wanted_for(n: NodeM, fields: Seq<FieldM>, dir: Seq<char>) -> Seq<Seq<char>>
    decreases fields.len(),
{
    if fields.len() == 0 {
        seq![]
    } else {
        let earlier = wanted_for(n, fields.drop_last(), dir);
        match sibling_of(n.name, fields.last().name) {
            None => earlier,
            Some(s) => match column_file(n, s, dir) {
                None => earlier,
                Some(path) => earlier.push(path),
            },
        }
    }
}

pub open spec fn wanted_here(n: NodeM, ops: Seq<crate::vpl::operations::OperationM>, dir: Seq<char>) -> Seq<Seq<char>> {
    match find_op(ops, n.name) {
        None => seq![],
        Some(op) => wanted_for(n, op.fields, dir),
    }
}

pub open spec fn wanted_node(n: NodeM, ops: Seq<crate::vpl::operations::OperationM>, dir: Seq<char>) -> Seq<Seq<char>>
    decreases n, 2int, 0int,
{
    wanted_here(n, ops, dir) + wanted_sources(n, 0, ops, dir)
}

pub open spec fn wanted_sources(n: NodeM, i: int, ops: Seq<crate::vpl::operations::OperationM>, dir: Seq<char>) -> Seq<Seq<char>>
    decreases n, 1int, n.sources.len() - i,
{
    if 0 <= i < n.sources.len() {
        wanted_nodes(n.sources[i], 0, ops, dir) + wanted_sources(n, i + 1, ops, dir)
    } else {
        seq![]
    }
}

pub open spec fn wanted_nodes(p: PipelineM, j: int, ops: Seq<crate::vpl::operations::OperationM>, dir: Seq<char>) -> Seq<Seq<char>>
    decreases p, 0int, p.nodes.len() - j,
{
    if 0 <= j < p.nodes.len() {
        wanted_node(p.nodes[j], ops, dir) + wanted_nodes(p, j + 1, ops, dir)
    } else {
        seq![]
    }
}

/// The files one node's fields would read, by the operations in `ops`.
fn wanted_by_node(node: &Node, ops: &Vec<OperationInfo>, dir: &str, out: &mut Vec<String>)
    ensures
        texts(final(out)@) == texts(old(out)@) + wanted_here(node@, operations_model(ops@), dir@),
{
    proof {
        lemma_node_model(*node);
    }
    let ghost start = texts(out@);
    match find_operation(ops, node.name.as_str()) {
        None => {
            proof {
                assert(texts(out@) =~= start + Seq::<Seq<char>>::empty());
            }
        },
        Some(k) => {
            let fields = &ops[k].fields;
            let ghost fm = fields@.map_values(|f: FieldInfo| f@);
            let mut i: usize = 0;
            proof {
                assert(fm.take(0) =~= Seq::<FieldM>::empty());
                assert(texts(out@) =~= start + Seq::<Seq<char>>::empty());
            }
            while i < fields.len()
                invariant
                    i <= fields@.len(),
                    fm == fields@.map_values(|f: FieldInfo| f@),
                    texts(out@) == start + wanted_for(node@, fm.take(i as int), dir@),
                decreases fields@.len() - i,
            {
                let field = &fields[i];
                proof {
                    assert(fm.take(i as int + 1).drop_last() =~= fm.take(i as int));
                    assert(fm.take(i as int + 1).last() == field@);
                }
                match sibling_for(node.name.as_str(), field.name.as_str()) {
                    None => {},
                    Some(s) => match file_for(node, s, dir) {
                        None => {},
                        Some(path) => {
                            let ghost before = texts(out@);
                            out.push(path);
                            proof {
                                assert(texts(out@) =~= before.push(out@[out@.len() - 1]@));
                            }
                        },
                    },
                }
                i = i + 1;
            }
            proof {
                assert(fm.take(i as int) =~= fm);
            }
        },
    }
}

fn wanted_in_node(node: &Node, ops: &Vec<OperationInfo>, dir: &str, out: &mut Vec<String>)
    ensures
        texts(final(out)@) == texts(old(out)@) + wanted_node(node@, operations_model(ops@), dir@),
    decreases node,
{
    proof {
        lemma_node_model(*node);
    }
    let ghost start = texts(out@);
    let ghost om = operations_model(ops@);
    wanted_by_node(node, ops, dir, out);
    let ghost mid = texts(out@);
    let mut i: usize = 0;
    while i < node.sources.len()
        invariant
            i <= node.sources@.len(),
            node@.sources == pipes_model(node.sources@),
            om == operations_model(ops@),
            wanted_sources(node@, 0, om, dir@).len() >= wanted_sources(node@, i as int, om, dir@).len(),
            wanted_sources(node@, 0, om, dir@) == wanted_sources(node@, 0, om, dir@).take(
                wanted_sources(node@, 0, om, dir@).len() - wanted_sources(node@, i as int, om, dir@).len())
                + wanted_sources(node@, i as int, om, dir@),
            texts(out@) == mid + wanted_sources(node@, 0, om, dir@).take(
                wanted_sources(node@, 0, om, dir@).len() - wanted_sources(node@, i as int, om, dir@).len()),
        decreases node.sources@.len() - i,
    {
        proof {
            assert(decreases_to!(node => node.sources));
            assert(decreases_to!(node.sources => node.sources@));
            assert(decreases_to!(node.sources@ => node.sources@[i as int]));
        }
        wanted_in_pipeline(&node.sources[i], ops, dir, out);
        proof {
            let all = wanted_sources(node@, 0, om, dir@);
            let here = wanted_nodes(node@.sources[i as int], 0, om, dir@);
            let after = wanted_sources(node@, i as int + 1, om, dir@);
            assert(wanted_sources(node@, i as int, om, dir@) == here + after);
            let done = all.take(all.len() - (here + after).len());
            assert(all == done + (here + after));
            assert(all.take(all.len() - after.len()) =~= done + here);
            assert(all =~= (done + here) + after);
        }
        i = i + 1;
    }
    proof {
        let all = wanted_sources(node@, 0, om, dir@);
        assert(wanted_sources(node@, i as int, om, dir@) == Seq::<Seq<char>>::empty());
        assert(all.take(all.len() as int) =~= all);
    }
}

fn wanted_in_pipeline(pipeline: &Pipeline, ops: &Vec<OperationInfo>, dir: &str, out: &mut Vec<String>)
    ensures
        texts(final(out)@) == texts(old(out)@) + wanted_nodes(pipeline@, 0, operations_model(ops@), dir@),
    decreases pipeline,
{
    proof {
        lemma_pipeline_model(*pipeline);
    }
    let ghost start = texts(out@);
    let ghost om = operations_model(ops@);
    let mut j: usize = 0;
    while j < pipeline.nodes.len()
        invariant
            j <= pipeline.nodes@.len(),
            pipeline@.nodes == nodes_model(pipeline.nodes@),
            om == operations_model(ops@),
            wanted_nodes(pipeline@, 0, om, dir@).len() >= wanted_nodes(pipeline@, j as int, om, dir@).len(),
            wanted_nodes(pipeline@, 0, om, dir@) == wanted_nodes(pipeline@, 0, om, dir@).take(
                wanted_nodes(pipeline@, 0, om, dir@).len() - wanted_nodes(pipeline@, j as int, om, dir@).len())
                + wanted_nodes(pipeline@, j as int, om, dir@),
            texts(out@) == start + wanted_nodes(pipeline@, 0, om, dir@).take(
                wanted_nodes(pipeline@, 0, om, dir@).len() - wanted_nodes(pipeline@, j as int, om, dir@).len()),
        decreases pipeline.nodes@.len() - j,
    {
        proof {
            assert(decreases_to!(pipeline => pipeline.nodes));
            assert(decreases_to!(pipeline.nodes => pipeline.nodes@));
            assert(decreases_to!(pipeline.nodes@ => pipeline.nodes@[j as int]));
        }
        wanted_in_node(&pipeline.nodes[j], ops, dir, out);
        proof {
            let all = wanted_nodes(pipeline@, 0, om, dir@);
            let here = wanted_node(pipeline@.nodes[j as int], om, dir@);
            let after = wanted_nodes(pipeline@, j as int + 1, om, dir@);
            assert(wanted_nodes(pipeline@, j as int, om, dir@) == here + after);
            let done = all.take(all.len() - (here + after).len());
            assert(all == done + (here + after));
            assert(all.take(all.len() - after.len()) =~= done + here);
            assert(all =~= (done + here) + after);
        }
        j = j + 1;
    }
    proof {
        let all = wanted_nodes(pipeline@, 0, om, dir@);
        assert(wanted_nodes(pipeline@, j as int, om, dir@) == Seq::<Seq<char>>::empty());
        assert(all.take(all.len() as int) =~= all);
    }
}

/// The files whose columns a pipeline's fields would be offered, in walk order, by the
/// operations in `ops`: what the caller reads before asking [`for_pipeline_in`].
pub fn files_wanted_in(pipeline: &Pipeline, ops: &Vec<OperationInfo>, dir: &str) -> (r: Vec<String>)
    ensures
        texts(r@) == wanted_nodes(pipeline@, 0, operations_model(ops@), dir@),
{
    let mut out: Vec<String> = Vec::new();
    wanted_in_pipeline(pipeline, ops, dir, &mut out);
    proof {
        assert(texts(Seq::<String>::empty()) + wanted_nodes(pipeline@, 0, operations_model(ops@), dir@)
            =~= wanted_nodes(pipeline@, 0, operations_model(ops@), dir@));
    }
    out
}

} // verus!
