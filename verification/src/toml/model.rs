//! What the builders compute, stated over trees and models.

use vstd::prelude::*;
use crate::number::is_float_literal;
use crate::path::split_dots;
use crate::tree::{collect, Tree};
use super::{Failure, Model, Rule};

verus! {

/// The value that a value node resolves to.
///
/// A boolean or number leaf must spell a literal of its kind; a string hands over the
/// text of its first child; dates and times are kept as written; an array resolves
/// its children in order; a node of any other rule is `Null`.
pub open spec fn value_of(node: Tree<Rule>) -> Result<Model, Failure>
    decreases node,
{
    match node.rule {
        Rule::Boolean => if node.text == "true"@ {
            Ok(Model::Boolean(true))
        } else if node.text == "false"@ {
            Ok(Model::Boolean(false))
        } else {
            Err(Failure::TypeCoercion { rule: Rule::Boolean, text: node.text })
        },
        Rule::Number => if is_float_literal(node.text) {
            Ok(Model::Number(node.text))
        } else {
            Err(Failure::TypeCoercion { rule: Rule::Number, text: node.text })
        },
        Rule::String => if node.children.len() > 0 {
            Ok(Model::String(node.children[0].text))
        } else {
            Err(Failure::MalformedTree { rule: Rule::String })
        },
        Rule::OffsetDateTime => Ok(Model::OffsetDateTime(node.text)),
        Rule::Date => Ok(Model::Date(node.text)),
        Rule::Time => Ok(Model::Time(node.text)),
        Rule::Array => match values_of(node.children) {
            Ok(items) => Ok(Model::Array(items)),
            Err(failure) => Err(failure),
        },
        _ => Ok(Model::Null),
    }
}

/// The values that a sequence of value nodes resolves to: all of them in order, or
/// the failure of the first node that fails.
pub open spec fn values_of(nodes: Seq<Tree<Rule>>) -> Result<Seq<Model>, Failure>
    decreases nodes,
{
    if nodes.len() == 0 {
        Ok(Seq::empty())
    } else {
        match values_of(nodes.drop_last()) {
            Err(failure) => Err(failure),
            Ok(values) => match value_of(nodes.last()) {
                Err(failure) => Err(failure),
                Ok(value) => Ok(values.push(value)),
            },
        }
    }
}

/// The pair that a key/value node builds: the path of its first child's text, bound
/// to the value of its second child.
pub open spec fn pair_of(node: Tree<Rule>) -> Result<Model, Failure> {
    if node.children.len() < 2 {
        Err(Failure::MalformedTree { rule: node.rule })
    } else {
        match value_of(node.children[1]) {
            Ok(value) => Ok(Model::Pair(split_dots(node.children[0].text), Box::new(value))),
            Err(failure) => Err(failure),
        }
    }
}

/// The pairs that a sequence of key/value nodes builds: all of them in order, or the
/// failure of the first node that fails.
pub open spec fn pairs_of(nodes: Seq<Tree<Rule>>) -> Result<Seq<Model>, Failure> {
    collect(nodes.map_values(|node: Tree<Rule>| pair_of(node)))
}

/// The path and the pairs of a section node. Its first child is the header, whose own
/// first child holds the dotted path; its second child holds the pairs.
pub open spec fn section_of(node: Tree<Rule>) -> Result<(Seq<Seq<char>>, Seq<Model>), Failure> {
    if node.children.len() == 0 {
        Err(Failure::MalformedTree { rule: node.rule })
    } else if node.children[0].children.len() == 0 {
        Err(Failure::MalformedTree { rule: node.children[0].rule })
    } else if node.children.len() == 1 {
        Err(Failure::MalformedTree { rule: node.rule })
    } else {
        match pairs_of(node.children[1].children) {
            Ok(pairs) => Ok((split_dots(node.children[0].children[0].text), pairs)),
            Err(failure) => Err(failure),
        }
    }
}

/// What one top-level node adds to the document: one entry, or nothing for a node
/// that carries no meaning of its own.
pub open spec fn entry_of(node: Tree<Rule>) -> Result<Option<Model>, Failure> {
    match node.rule {
        Rule::ArrayHeader => Ok(Some(Model::ArrayHeader(split_dots(node.inner)))),
        Rule::Header => Ok(Some(Model::Header(split_dots(node.inner)))),
        Rule::Section => match section_of(node) {
            Ok((path, pairs)) => Ok(Some(Model::Section(path, pairs))),
            Err(failure) => Err(failure),
        },
        Rule::ArraySection => match section_of(node) {
            Ok((path, pairs)) => Ok(Some(Model::ArraySection(path, pairs))),
            Err(failure) => Err(failure),
        },
        Rule::Pair => match pair_of(node) {
            Ok(pair) => Ok(Some(pair)),
            Err(failure) => Err(failure),
        },
        _ => Ok(None),
    }
}

/// The document that a sequence of top-level nodes builds: the entries of its nodes
/// in source order, or the failure of the first node that fails.
pub open spec fn document_of(nodes: Seq<Tree<Rule>>) -> Result<Seq<Model>, Failure>
    decreases nodes.len(),
{
    if nodes.len() == 0 {
        Ok(Seq::empty())
    } else {
        match document_of(nodes.drop_last()) {
            Err(failure) => Err(failure),
            Ok(entries) => match entry_of(nodes.last()) {
                Err(failure) => Err(failure),
                Ok(None) => Ok(entries),
                Ok(Some(entry)) => Ok(entries.push(entry)),
            },
        }
    }
}

/// The values of a sequence of nodes are the values of its nodes, gathered.
pub proof fn lemma_values_collect(nodes: Seq<Tree<Rule>>)
    ensures
        values_of(nodes) == collect(nodes.map_values(|node: Tree<Rule>| value_of(node))),
    decreases nodes.len(),
{
    let results = nodes.map_values(|node: Tree<Rule>| value_of(node));
    if nodes.len() > 0 {
        lemma_values_collect(nodes.drop_last());
        assert(results.drop_last() == nodes.drop_last().map_values(
            |node: Tree<Rule>| value_of(node),
        ));
    }
}

/// A failure among the first nodes is the failure of the whole document.
pub proof fn lemma_document_prefix_fails(nodes: Seq<Tree<Rule>>, k: int)
    requires
        0 <= k <= nodes.len(),
        document_of(nodes.take(k)) is Err,
    ensures
        document_of(nodes) == document_of(nodes.take(k)),
    decreases nodes.len(),
{
    if k == nodes.len() {
        assert(nodes.take(k) == nodes);
    } else {
        assert(nodes.drop_last().take(k) == nodes.take(k));
        lemma_document_prefix_fails(nodes.drop_last(), k);
    }
}

/// A value: a scalar, or an array of values. A number is a floating-point literal.
pub open spec fn is_value(model: Model) -> bool
    decreases model,
{
    match model {
        Model::String(_) => true,
        Model::Number(text) => is_float_literal(text),
        Model::Boolean(_) => true,
        Model::Array(items) => forall|i: int| 0 <= i < items.len() ==> is_value(#[trigger] items[i]),
        Model::OffsetDateTime(_) => true,
        Model::Date(_) => true,
        Model::Time(_) => true,
        Model::Null => true,
        _ => false,
    }
}

/// A pair: a path of at least one segment, bound to a value.
pub open spec fn is_pair(model: Model) -> bool {
    model matches Model::Pair(path, value) && path.len() >= 1 && is_value(*value)
}

/// A top-level entry: a header, a pair, or a section that holds pairs and nothing
/// else.
pub open spec fn is_entry(model: Model) -> bool {
    match model {
        Model::Header(path) => path.len() >= 1,
        Model::ArrayHeader(path) => path.len() >= 1,
        Model::Section(path, pairs) => path.len() >= 1 && forall|i: int|
            0 <= i < pairs.len() ==> is_pair(#[trigger] pairs[i]),
        Model::ArraySection(path, pairs) => path.len() >= 1 && forall|i: int|
            0 <= i < pairs.len() ==> is_pair(#[trigger] pairs[i]),
        Model::Pair(_, _) => is_pair(model),
        _ => false,
    }
}

} // verus!
