//! The VPL that reads a source: the node an opened file corresponds to.
//!
//! An opened file *is* a read node at the head of the pipeline; there is no separate list of
//! sources. The text is printed by the pipeline runner's own syntax tree, so a path with spaces or
//! apostrophes is quoted by the same rules the runner's printer uses.

use vstd::prelude::*;
use crate::import::{lemma_built_source_params, lemma_source_param_fixed, source_param, source_parameter_in};
use super::operations::{built_names, operations_model, operations, this_build, OperationInfo, OperationM};
use super::ast::values_for;
use super::grammar::document;
use super::print::{is_ident, lemma_parameter_parses, one_parameter, quoted};

verus! {

/// Parameters as the texts they pair.
pub open spec fn pairs(v: Seq<(&str, &str)>) -> Seq<(Seq<char>, Seq<char>)> {
    v.map_values(|p: (&str, &str)| (p.0@, p.1@))
}

/// The index of the first of `props`, from `i` on, whose key is `key`.
pub open spec fn first_with_key(props: Seq<(Seq<char>, Seq<char>)>, key: Seq<char>, i: int) -> Option<int>
    decreases props.len() - i,
{
    if 0 <= i < props.len() {
        if props[i].0 == key { Some(i) } else { first_with_key(props, key, i + 1) }
    } else {
        None
    }
}

/// The parameters after setting `key` to `value`: the first with that key takes the value, or the
/// pair is appended when there is none.
pub open spec fn set_in(props: Seq<(Seq<char>, Seq<char>)>, key: Seq<char>, value: Seq<char>) -> Seq<(Seq<char>, Seq<char>)> {
    match first_with_key(props, key, 0) {
        Some(i) => props.update(i, (key, value)),
        None => props.push((key, value)),
    }
}

/// The parameters after setting each pair of `pairs` in turn, starting from none.
pub open spec fn settled(pairs: Seq<(Seq<char>, Seq<char>)>) -> Seq<(Seq<char>, Seq<char>)>
    decreases pairs.len(),
{
    if pairs.len() == 0 {
        seq![]
    } else {
        set_in(settled(pairs.drop_last()), pairs.last().0, pairs.last().1)
    }
}

/// Each parameter written ` key=value`, the value spelled as [`quoted`] spells it.
pub open spec fn rendered(props: Seq<(Seq<char>, Seq<char>)>) -> Seq<char>
    decreases props.len(),
{
    if props.len() == 0 {
        seq![]
    } else {
        rendered(props.drop_last()) + seq![' '] + props.last().0 + seq!['='] + quoted(props.last().1)->0
    }
}

/// The text the pipeline runner's syntax tree prints for a one-node pipeline called `operation`,
/// built by setting each `(key, value)` of `properties` in turn: the name, then each parameter.
pub open spec fn node_text(operation: Seq<char>, properties: Seq<(Seq<char>, Seq<char>)>) -> Seq<char> {
    operation + rendered(settled(properties))
}

/// `versatiles_pipeline::vpl::CstNode::new(operation)`, then `set_property` for each pair, wrapped
/// in a one-node `CstFile` and printed. `set_property` updates the first parameter with that key
/// (re-quoting it) or appends ` key=value`; the value is quoted by the runner's `quote`, whose rules
/// (bare when it may stand bare and is not empty, single quotes when it holds no `'` and no control
/// character, double quotes escaping `\\`, `\"`, newline and tab otherwise) are [`quoted`]'s.
#[verifier::external_body]
fn print_node(operation: &str, properties: &[(&str, &str)]) -> (text: String)
    ensures
        text@ == node_text(operation@, pairs(properties@)),
{
    let mut node = versatiles_pipeline::vpl::CstNode::new(operation);
    for (key, value) in properties {
        node.set_property(key, value);
    }
    let separator = versatiles_pipeline::vpl::CstToken::new(" | ");
    let nodes = versatiles_pipeline::vpl::Punctuated::new([node], &separator);
    versatiles_pipeline::vpl::CstFile::new(versatiles_pipeline::vpl::CstPipeline { nodes }).to_string()
}

/// [`read_node_with`], for an operation of `available`: which parameter the source answers is the
/// operation's to say, so `from_tilejson` gets a `url` and everything that reads a file a
/// `filename`.
pub fn read_node_with_in(available: &Vec<OperationInfo>, operation: &str, source: &str, extra: &[(&str, &str)]) -> (text: String)
    ensures
        text@ == node_text(
            operation@,
            seq![(source_param(operations_model(available@), operation@), source@)] + pairs(extra@),
        ),
{
    let param = source_parameter_in(available, operation);
    let mut all: Vec<(&str, &str)> = Vec::new();
    all.push((param.as_str(), source));
    let mut i: usize = 0;
    while i < extra.len()
        invariant
            i <= extra@.len(),
            pairs(all@) == seq![(param@, source@)] + pairs(extra@.take(i as int)),
        decreases extra@.len() - i,
    {
        let ghost before = all@;
        let pair = extra[i];
        all.push(pair);
        proof {
            assert(pairs(all@) =~= pairs(before).push((pair.0@, pair.1@)));
            assert(extra@.take(i + 1) =~= extra@.take(i as int).push(pair));
            assert(pairs(extra@.take(i + 1)) =~= pairs(extra@.take(i as int)).push((pair.0@, pair.1@)));
        }
        i = i + 1;
    }
    proof {
        assert(extra@.take(i as int) =~= extra@);
    }
    print_node(operation, all.as_slice())
}

/// The parameter this build's `operation` fills from a chosen source, where the operations the
/// import catalogue names fix it: `url` for the tile server, `filename` for the file readers and
/// for a name this build does not register.
pub open spec fn fixed_param(operation: Seq<char>) -> Option<Seq<char>> {
    if operation == "from_tilejson"@ {
        Some("url"@)
    } else if operation == "from_container"@ || operation == "from_geo"@ || operation == "from_csv"@
        || !built_names().contains(operation) {
        Some("filename"@)
    } else {
        None
    }
}

/// [`read_node`], plus parameters the caller already knows the answers to, such as the coordinate
/// columns a CSV's header names.
pub fn read_node_with(operation: &str, source: &str, extra: &[(&str, &str)]) -> (text: String)
    ensures
        exists|ops: Seq<OperationM>| #[trigger] this_build(ops),
        forall|ops: Seq<OperationM>| #[trigger] this_build(ops) ==> text@ == node_text(
            operation@,
            seq![(source_param(ops, operation@), source@)] + pairs(extra@),
        ),
        fixed_param(operation@) matches Some(param) ==> text@ == node_text(
            operation@,
            seq![(param, source@)] + pairs(extra@),
        ),
{
    let available = operations();
    let text = read_node_with_in(&available, operation, source, extra);
    proof {
        let mine = operations_model(available@);
        lemma_built_source_params(mine, operation@);
        assert(this_build(mine));
        assert forall|ops: Seq<OperationM>| #[trigger] this_build(ops) implies text@ == node_text(
            operation@,
            seq![(source_param(ops, operation@), source@)] + pairs(extra@),
        ) by {
            lemma_source_param_fixed(mine, ops, operation@);
        }
    }
    text
}

/// The VPL that reads `source` with `operation`.
pub fn read_node(operation: &str, source: &str) -> (text: String)
    ensures
        exists|ops: Seq<OperationM>| #[trigger] this_build(ops),
        forall|ops: Seq<OperationM>| #[trigger] this_build(ops) ==> text@ == node_text(
            operation@,
            seq![(source_param(ops, operation@), source@)],
        ),
        fixed_param(operation@) matches Some(param) ==> text@ == node_text(operation@, seq![(param, source@)]),
{
    let none: Vec<(&str, &str)> = Vec::new();
    let text = read_node_with(operation, source, none.as_slice());
    proof {
        assert(pairs(none@) =~= Seq::<(Seq<char>, Seq<char>)>::empty());
        assert forall|ops: Seq<OperationM>| #[trigger] this_build(ops) implies text@ == node_text(
            operation@,
            seq![(source_param(ops, operation@), source@)],
        ) by {
            assert(seq![(source_param(ops, operation@), source@)] + pairs(none@) =~= seq![(source_param(ops, operation@), source@)]);
        }
        if fixed_param(operation@) is Some {
            let param = fixed_param(operation@)->0;
            assert(seq![(param, source@)] + pairs(none@) =~= seq![(param, source@)]);
        }
    }
    text
}

/// A read node parses back with its source intact: the text of a node called `op` with the one
/// parameter `key` set to `v` is a whole document, one node called `op` whose `key` is exactly `v`.
/// With [`read_node`]'s contract this says that the node an opened file becomes names that file.
pub proof fn lemma_read_node_parses_back(op: Seq<char>, key: Seq<char>, v: Seq<char>)
    requires
        is_ident(op),
        is_ident(key),
    ensures
        document(node_text(op, seq![(key, v)])) matches Ok((pipe, _)) && pipe.nodes.len() == 1
            && pipe.nodes[0].name == op && values_for(pipe.nodes[0].properties, key) == seq![v],
{
    let pairs1 = seq![(key, v)];
    assert(pairs1.drop_last() =~= Seq::<(Seq<char>, Seq<char>)>::empty());
    assert(settled(Seq::<(Seq<char>, Seq<char>)>::empty()) == Seq::<(Seq<char>, Seq<char>)>::empty());
    assert(first_with_key(Seq::<(Seq<char>, Seq<char>)>::empty(), key, 0) is None);
    assert(settled(pairs1) =~= pairs1);
    assert(pairs1.drop_last() =~= Seq::<(Seq<char>, Seq<char>)>::empty());
    assert(rendered(Seq::<(Seq<char>, Seq<char>)>::empty()) == Seq::<char>::empty());
    assert(node_text(op, pairs1) =~= one_parameter(op, key, quoted(v)->0));
    lemma_parameter_parses(op, key, v);
}

} // verus!
