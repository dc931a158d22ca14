//! What the builders compute, stated over trees and models.

use vstd::prelude::*;
use crate::number::is_float_literal;
use crate::tree::Tree;
use super::{Failure, Model, Rule};

verus! {

/// The value that a node builds.
///
/// An object builds its members in order and an array its elements; a string hands
/// over the text of its first child; a number or boolean leaf must spell a literal of
/// its kind. A node of a rule that is no value cannot be built.
pub open spec fn value_of(node: Tree<Rule>) -> Result<Model, Failure>
    decreases node, 0int,
{
    match node.rule {
        Rule::Object => match members_of(node.children) {
            Ok(members) => Ok(Model::Object(members)),
            Err(failure) => Err(failure),
        },
        Rule::Array => match values_of(node.children) {
            Ok(items) => Ok(Model::Array(items)),
            Err(failure) => Err(failure),
        },
        Rule::String => if node.children.len() > 0 {
            Ok(Model::String(node.children[0].text))
        } else {
            Err(Failure::MalformedTree { rule: node.rule })
        },
        Rule::Number => if is_float_literal(node.text) {
            Ok(Model::Number(node.text))
        } else {
            Err(Failure::TypeCoercion { rule: node.rule, text: node.text })
        },
        Rule::Boolean => if node.text == "true"@ {
            Ok(Model::Boolean(true))
        } else if node.text == "false"@ {
            Ok(Model::Boolean(false))
        } else {
            Err(Failure::TypeCoercion { rule: node.rule, text: node.text })
        },
        Rule::Null => Ok(Model::Null),
        _ => Err(Failure::UnexpectedRule { rule: node.rule }),
    }
}

/// The values that a sequence of nodes builds: all of them in order, or the failure
/// of the first node that fails.
pub open spec fn values_of(nodes: Seq<Tree<Rule>>) -> Result<Seq<Model>, Failure>
    decreases nodes, 1int,
{
    if nodes.len() == 0 {
        Ok(Seq::empty())
    } else {
        match values_of(nodes.drop_last()) {
            Err(failure) => Err(failure),
            Ok(values) => match value_of(nodes.last()) {
                Err(failure) => Err(failure),
                Ok(value) => Ok(values.push(value)),
            },
        }
    }
}

/// The member that a name/value node builds. Its first child is the name, a string
/// whose own first child holds the text; its second child is the value.
pub open spec fn member_of(node: Tree<Rule>) -> Result<(Seq<char>, Model), Failure>
    decreases node, 1int,
{
    if node.children.len() == 0 {
        Err(Failure::MalformedTree { rule: node.rule })
    } else if node.children[0].children.len() == 0 {
        Err(Failure::MalformedTree { rule: node.children[0].rule })
    } else if node.children.len() == 1 {
        Err(Failure::MalformedTree { rule: node.rule })
    } else {
        match value_of(node.children[1]) {
            Ok(value) => Ok((node.children[0].children[0].text, value)),
            Err(failure) => Err(failure),
        }
    }
}

/// The members that a sequence of name/value nodes builds: all of them in order, or
/// the failure of the first node that fails.
pub open spec fn members_of(nodes: Seq<Tree<Rule>>) -> Result<Seq<(Seq<char>, Model)>, Failure>
    decreases nodes, 2int,
{
    if nodes.len() == 0 {
        Ok(Seq::empty())
    } else {
        match members_of(nodes.drop_last()) {
            Err(failure) => Err(failure),
            Ok(members) => match member_of(nodes.last()) {
                Err(failure) => Err(failure),
                Ok(member) => Ok(members.push(member)),
            },
        }
    }
}

/// A failure among the first values is the failure of them all.
pub proof fn lemma_values_prefix_fails(nodes: Seq<Tree<Rule>>, k: int)
    requires
        0 <= k <= nodes.len(),
        values_of(nodes.take(k)) is Err,
    ensures
        values_of(nodes) == values_of(nodes.take(k)),
    decreases nodes.len(),
{
    if k == nodes.len() {
        assert(nodes.take(k) == nodes);
    } else {
        assert(nodes.drop_last().take(k) == nodes.take(k));
        lemma_values_prefix_fails(nodes.drop_last(), k);
    }
}

/// A failure among the first members is the failure of them all.
pub proof fn lemma_members_prefix_fails(nodes: Seq<Tree<Rule>>, k: int)
    requires
        0 <= k <= nodes.len(),
        members_of(nodes.take(k)) is Err,
    ensures
        members_of(nodes) == members_of(nodes.take(k)),
    decreases nodes.len(),
{
    if k == nodes.len() {
        assert(nodes.take(k) == nodes);
    } else {
        assert(nodes.drop_last().take(k) == nodes.take(k));
        lemma_members_prefix_fails(nodes.drop_last(), k);
    }
}

/// The text of a value: compact, with members and elements in their order. A number
/// is written as its literal stands.
pub open spec fn serialized(value: Model) -> Seq<char>
    decreases value, 0int,
{
    match value {
        Model::Object(members) => "{"@ + serialized_members(members) + "}"@,
        Model::Array(items) => "["@ + serialized_items(items) + "]"@,
        Model::String(text) => "\""@ + text + "\""@,
        Model::Number(text) => text,
        Model::Boolean(truth) => if truth {
            "true"@
        } else {
            "false"@
        },
        Model::Null => "null"@,
    }
}

/// The texts of the elements of an array, with a comma between neighbours.
pub open spec fn serialized_items(items: Seq<Model>) -> Seq<char>
    decreases items, 1int,
{
    if items.len() == 0 {
        Seq::empty()
    } else if items.len() == 1 {
        serialized(items[0])
    } else {
        serialized_items(items.drop_last()) + ","@ + serialized(items.last())
    }
}

/// The text of a member: its name in quotes, a colon, and the text of its value.
pub open spec fn serialized_member(member: (Seq<char>, Model)) -> Seq<char>
    decreases member, 1int,
{
    "\""@ + member.0 + "\":"@ + serialized(member.1)
}

/// The texts of the members of an object, with a comma between neighbours.
pub open spec fn serialized_members(members: Seq<(Seq<char>, Model)>) -> Seq<char>
    decreases members, 2int,
{
    if members.len() == 0 {
        Seq::empty()
    } else if members.len() == 1 {
        serialized_member(members[0])
    } else {
        serialized_members(members.drop_last()) + ","@ + serialized_member(members.last())
    }
}

} // verus!
