//! What holds of every document.

use vstd::prelude::*;
use crate::number::is_float_literal;
use crate::path::{lemma_split_segments, split_dots};
use crate::tree::{lemma_collect_err, lemma_collect_ok, lemma_collect_push, Tree};
use super::model::{
    document_of, entry_of, is_entry, is_pair, is_value, lemma_values_collect, pair_of, pairs_of,
    section_of, value_of, values_of,
};
use super::{Failure, Model, Rule};

verus! {

/// What a value node resolves to is a value.
pub proof fn lemma_value_is_value(node: Tree<Rule>)
    ensures
        value_of(node) matches Ok(value) ==> is_value(value),
    decreases node,
{
    if node.rule == Rule::Array {
        lemma_values_are_values(node.children);
    }
}

/// Each value that a sequence of value nodes resolves to is a value.
pub proof fn lemma_values_are_values(nodes: Seq<Tree<Rule>>)
    ensures
        values_of(nodes) matches Ok(values) ==> forall|i: int|
            0 <= i < values.len() ==> is_value(#[trigger] values[i]),
    decreases nodes,
{
    if nodes.len() > 0 {
        lemma_values_are_values(nodes.drop_last());
        lemma_value_is_value(nodes.last());
    }
}

/// What a key/value node builds is a pair.
pub proof fn lemma_pair_is_pair(node: Tree<Rule>)
    ensures
        pair_of(node) matches Ok(pair) ==> is_pair(pair),
{
    if node.children.len() >= 2 {
        lemma_value_is_value(node.children[1]);
        lemma_split_segments(node.children[0].text);
    }
}

/// Everything that a sequence of key/value nodes builds is a pair.
pub proof fn lemma_pairs_are_pairs(nodes: Seq<Tree<Rule>>)
    ensures
        pairs_of(nodes) matches Ok(pairs) ==> pairs.len() == nodes.len() && forall|i: int|
            0 <= i < pairs.len() ==> is_pair(#[trigger] pairs[i]),
{
    let results = nodes.map_values(|node: Tree<Rule>| pair_of(node));
    lemma_collect_ok(results);
    if let Ok(pairs) = pairs_of(nodes) {
        assert forall|i: int| 0 <= i < pairs.len() implies is_pair(#[trigger] pairs[i]) by {
            lemma_pair_is_pair(nodes[i]);
            assert(results[i] == Ok::<Model, Failure>(pairs[i]));
        }
    }
}

/// What a top-level node adds to a document is an entry: a section holds pairs and
/// nothing else.
pub proof fn lemma_entry_is_entry(node: Tree<Rule>)
    ensures
        entry_of(node) matches Ok(Some(entry)) ==> is_entry(entry),
{
    match node.rule {
        Rule::Header | Rule::ArrayHeader => {
            lemma_split_segments(node.inner);
        },
        Rule::Section | Rule::ArraySection => {
            if section_of(node) is Ok {
                lemma_pairs_are_pairs(node.children[1].children);
                lemma_split_segments(node.children[0].children[0].text);
            }
        },
        Rule::Pair => {
            lemma_pair_is_pair(node);
        },
        _ => {},
    }
}

/// Every entry of a document is a top-level entry, and the sections among them hold
/// pairs and nothing else.
pub proof fn lemma_document_entries(nodes: Seq<Tree<Rule>>)
    ensures
        document_of(nodes) matches Ok(entries) ==> forall|i: int|
            0 <= i < entries.len() ==> is_entry(#[trigger] entries[i]),
    decreases nodes.len(),
{
    if nodes.len() > 0 {
        lemma_document_entries(nodes.drop_last());
        lemma_entry_is_entry(nodes.last());
    }
}

/// The document of one node is the entry of that node, if it has one.
pub proof fn lemma_document_single(node: Tree<Rule>)
    ensures
        document_of(seq![node]) == match entry_of(node) {
            Err(failure) => Err(failure),
            Ok(None) => Ok(Seq::empty()),
            Ok(Some(entry)) => Ok(seq![entry]),
        },
{
    assert(seq![node].drop_last() == Seq::<Tree<Rule>>::empty());
    assert(seq![node].last() == node);
    reveal_with_fuel(document_of, 2);
    if let Ok(Some(entry)) = entry_of(node) {
        assert(Seq::<Model>::empty().push(entry) == seq![entry]);
    }
}

/// Nodes build their entries independently of their neighbours: the document of two
/// runs of nodes is the document of the first followed by the document of the second,
/// and fails where either fails, the first one first.
pub proof fn lemma_document_concat(first: Seq<Tree<Rule>>, second: Seq<Tree<Rule>>)
    ensures
        document_of(first + second) == match document_of(first) {
            Err(failure) => Err(failure),
            Ok(head) => match document_of(second) {
                Err(failure) => Err(failure),
                Ok(tail) => Ok(head + tail),
            },
        },
    decreases second.len(),
{
    if second.len() == 0 {
        assert(first + second == first);
        if let Ok(head) = document_of(first) {
            assert(head + Seq::<Model>::empty() == head);
        }
    } else {
        assert((first + second).drop_last() == first + second.drop_last());
        assert((first + second).last() == second.last());
        lemma_document_concat(first, second.drop_last());
        if let Ok(head) = document_of(first) {
            if let Ok(tail) = document_of(second.drop_last()) {
                if let Ok(Some(entry)) = entry_of(second.last()) {
                    assert((head + tail).push(entry) == head + tail.push(entry));
                }
            }
        }
    }
}

/// Two nodes that each build an entry build two entries, in their order, whatever
/// they hold: two sections under one header stay two sections.
pub proof fn lemma_entries_stay_apart(first: Tree<Rule>, second: Tree<Rule>)
    requires
        entry_of(first) matches Ok(Some(_)),
        entry_of(second) matches Ok(Some(_)),
    ensures
        document_of(seq![first, second]) == Ok::<Seq<Model>, Failure>(
            seq![entry_of(first)->Ok_0->Some_0, entry_of(second)->Ok_0->Some_0],
        ),
{
    lemma_document_single(first);
    lemma_document_single(second);
    lemma_document_concat(seq![first], seq![second]);
    assert(seq![first] + seq![second] == seq![first, second]);
    assert(seq![entry_of(first)->Ok_0->Some_0] + seq![entry_of(second)->Ok_0->Some_0] == seq![
        entry_of(first)->Ok_0->Some_0,
        entry_of(second)->Ok_0->Some_0,
    ]);
}

/// A section whose header names a path and whose pairs-container is empty builds a
/// section without pairs; it is no failure.
pub proof fn lemma_section_without_pairs(node: Tree<Rule>)
    requires
        node.rule == Rule::Section || node.rule == Rule::ArraySection,
        node.children.len() >= 2,
        node.children[0].children.len() >= 1,
        node.children[1].children.len() == 0,
    ensures
        node.rule == Rule::Section ==> entry_of(node) == Ok::<Option<Model>, Failure>(
            Some(Model::Section(split_dots(node.children[0].children[0].text), Seq::empty())),
        ),
        node.rule == Rule::ArraySection ==> entry_of(node) == Ok::<Option<Model>, Failure>(
            Some(Model::ArraySection(split_dots(node.children[0].children[0].text), Seq::empty())),
        ),
{
    let results = node.children[1].children.map_values(|child: Tree<Rule>| pair_of(child));
    assert(results == Seq::<Result<Model, Failure>>::empty());
}

/// The first node that fails decides: where every node before `first` builds and the
/// node at `first` fails, the whole document fails with that node's failure.
pub proof fn lemma_first_failure(nodes: Seq<Tree<Rule>>, first: int)
    requires
        0 <= first < nodes.len(),
        entry_of(nodes[first]) is Err,
        forall|i: int| 0 <= i < first ==> (#[trigger] entry_of(nodes[i])) is Ok,
    ensures
        document_of(nodes) == Err::<Seq<Model>, Failure>(entry_of(nodes[first])->Err_0),
    decreases nodes.len(),
{
    let init = nodes.drop_last();
    if first == nodes.len() - 1 {
        lemma_document_builds(init);
        assert forall|i: int| 0 <= i < init.len() implies (#[trigger] entry_of(init[i])) is Ok by {
            assert(init[i] == nodes[i]);
        }
    } else {
        assert(init[first] == nodes[first]);
        assert forall|i: int| 0 <= i < first implies (#[trigger] entry_of(init[i])) is Ok by {
            assert(init[i] == nodes[i]);
        }
        lemma_first_failure(init, first);
    }
}

/// A number leaf whose text is no floating-point literal fails with a coercion error
/// that names the text.
pub proof fn lemma_malformed_number(node: Tree<Rule>)
    requires
        node.rule == Rule::Number,
        !is_float_literal(node.text),
    ensures
        value_of(node) == Err::<Model, Failure>(
            Failure::TypeCoercion { rule: Rule::Number, text: node.text },
        ),
{
}

/// The first value that fails decides for an array, and the first pair that fails for
/// a section: where every node before `first` resolves and the node at `first` fails,
/// all of them together fail with that node's failure.
pub proof fn lemma_first_failure_within(nodes: Seq<Tree<Rule>>, first: int)
    requires
        0 <= first < nodes.len(),
    ensures
        value_of(nodes[first]) is Err && (forall|i: int|
            0 <= i < first ==> (#[trigger] value_of(nodes[i])) is Ok) ==> values_of(nodes)
            == Err::<Seq<Model>, Failure>(value_of(nodes[first])->Err_0),
        pair_of(nodes[first]) is Err && (forall|i: int|
            0 <= i < first ==> (#[trigger] pair_of(nodes[i])) is Ok) ==> pairs_of(nodes) == Err::<
            Seq<Model>,
            Failure,
        >(pair_of(nodes[first])->Err_0),
{
    let values = nodes.map_values(|node: Tree<Rule>| value_of(node));
    let pairs = nodes.map_values(|node: Tree<Rule>| pair_of(node));
    lemma_values_collect(nodes);
    if value_of(nodes[first]) is Err && (forall|i: int|
        0 <= i < first ==> (#[trigger] value_of(nodes[i])) is Ok) {
        assert forall|i: int| 0 <= i < first implies (#[trigger] values[i]) is Ok by {
            assert(value_of(nodes[i]) is Ok);
        }
        lemma_collect_err(values, first);
    }
    if pair_of(nodes[first]) is Err && (forall|i: int|
        0 <= i < first ==> (#[trigger] pair_of(nodes[i])) is Ok) {
        assert forall|i: int| 0 <= i < first implies (#[trigger] pairs[i]) is Ok by {
            assert(pair_of(nodes[i]) is Ok);
        }
        lemma_collect_err(pairs, first);
    }
}

/// A document builds exactly when each of its nodes builds.
pub proof fn lemma_document_builds(nodes: Seq<Tree<Rule>>)
    ensures
        document_of(nodes) is Ok <==> forall|i: int|
            0 <= i < nodes.len() ==> (#[trigger] entry_of(nodes[i])) is Ok,
    decreases nodes.len(),
{
    if nodes.len() > 0 {
        let init = nodes.drop_last();
        lemma_document_builds(init);
        if document_of(nodes) is Ok {
            assert forall|i: int| 0 <= i < nodes.len() implies (#[trigger] entry_of(
                nodes[i],
            )) is Ok by {
                if i < init.len() {
                    assert(init[i] == nodes[i]);
                }
            }
        } else if document_of(init) is Ok {
            assert(!(entry_of(nodes[nodes.len() - 1]) is Ok));
        } else {
            let i = choose|i: int| 0 <= i < init.len() && !((#[trigger] entry_of(init[i])) is Ok);
            assert(init[i] == nodes[i]);
        }
    }
}

/// The pair nodes among `nodes`, in their order.
pub open spec fn pair_nodes(nodes: Seq<Tree<Rule>>) -> Seq<Tree<Rule>> {
    nodes.filter(|node: Tree<Rule>| node.rule == Rule::Pair)
}

/// The pairs among `entries`, in their order.
pub open spec fn pair_entries(entries: Seq<Model>) -> Seq<Model> {
    entries.filter(|entry: Model| entry is Pair)
}

/// Top-level pairs keep their source order: the pairs of a document, in the order in
/// which they stand there, are the pairs built from the pair nodes of the source, in
/// the order in which those stand there.
pub proof fn lemma_pairs_keep_order(nodes: Seq<Tree<Rule>>)
    requires
        document_of(nodes) is Ok,
    ensures
        pairs_of(pair_nodes(nodes)) == Ok::<Seq<Model>, Failure>(
            pair_entries(document_of(nodes)->Ok_0),
        ),
    decreases nodes.len(),
{
    let is_pair_node = |node: Tree<Rule>| node.rule == Rule::Pair;
    let is_pair_entry = |entry: Model| entry is Pair;
    let build = |node: Tree<Rule>| pair_of(node);
    reveal(Seq::filter);
    if nodes.len() == 0 {
        assert(pair_nodes(nodes).map_values(build) == Seq::<Result<Model, Failure>>::empty());
        assert(pair_entries(Seq::<Model>::empty()) == Seq::<Model>::empty());
    } else {
        let init = nodes.drop_last();
        let last = nodes.last();
        lemma_pairs_keep_order(init);
        let entries = document_of(init)->Ok_0;
        assert(nodes == init.push(last));
        init.lemma_filter_push(last, is_pair_node);
        if last.rule == Rule::Pair {
            let pair = pair_of(last)->Ok_0;
            entries.lemma_filter_push(pair, is_pair_entry);
            assert(pair_nodes(nodes).map_values(build) == pair_nodes(init).map_values(build).push(
                pair_of(last),
            ));
            lemma_collect_push(pair_nodes(init).map_values(build), pair_of(last));
        } else {
            match entry_of(last) {
                Ok(Some(entry)) => {
                    entries.lemma_filter_push(entry, is_pair_entry);
                },
                _ => {},
            }
        }
    }
}

} // verus!
