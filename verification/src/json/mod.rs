//! JSON values.
//!
//! A value is an object, an array, a string, a number, a boolean or null. Objects
//! keep their members in source order, and keep members of one name apart.

use vstd::prelude::*;
use crate::number::float_literal;
use crate::text::same_text;
use crate::tree::{lemma_trees, trees, Node, Tree};
use self::model::{
    lemma_members_prefix_fails, lemma_values_prefix_fails, member_of, members_of, serialized,
    serialized_items, serialized_member, serialized_members, value_of, values_of,
};

pub mod model;

verus! {

/// The grammar rules that label the nodes of a JSON text's parse tree.
#[derive(Debug, Clone, Copy, PartialEq, Eq)]
pub enum Rule {
    Json,
    Object,
    Pair,
    Array,
    Value,
    String,
    Inner,
    Char,
    Number,
    Boolean,
    Null,
    Whitespace,
    Eoi,
}

/// A JSON value.
#[derive(Debug, PartialEq, Eq)]
pub enum JSONValue<'a> {
    /// The members of an object, in source order.
    Object(Vec<(&'a str, JSONValue<'a>)>),
    Array(Vec<JSONValue<'a>>),
    /// The content of a string as written, without its quotes.
    String(&'a str),
    /// A floating-point literal, as written.
    Number(&'a str),
    Boolean(bool),
    Null,
}

/// Why a tree could not be built into a value.
#[derive(Debug, Clone, Copy, PartialEq, Eq)]
pub enum JsonError<'a> {
    /// A number or boolean leaf whose text is no literal of its kind.
    TypeCoercion { rule: Rule, text: &'a str },
    /// A node of the given rule lacks a child that the grammar promises.
    MalformedTree { rule: Rule },
    /// A node of a rule that is no value.
    UnexpectedRule { rule: Rule },
}

/// What a [`JSONValue`] stands for.
pub ghost enum Model {
    Object(Seq<(Seq<char>, Model)>),
    Array(Seq<Model>),
    String(Seq<char>),
    Number(Seq<char>),
    Boolean(bool),
    Null,
}

/// What a [`JsonError`] stands for.
pub ghost enum Failure {
    TypeCoercion { rule: Rule, text: Seq<char> },
    MalformedTree { rule: Rule },
    UnexpectedRule { rule: Rule },
}

impl<'a> View for JSONValue<'a> {
    type V = Model;

    open spec fn view(&self) -> Model {
        model_of(*self)
    }
}

impl<'a> View for JsonError<'a> {
    type V = Failure;

    open spec fn view(&self) -> Failure {
        match *self {
            JsonError::TypeCoercion { rule, text } => Failure::TypeCoercion { rule, text: text@ },
            JsonError::MalformedTree { rule } => Failure::MalformedTree { rule },
            JsonError::UnexpectedRule { rule } => Failure::UnexpectedRule { rule },
        }
    }
}

/// The model of one value.
pub open spec fn model_of<'a>(value: JSONValue<'a>) -> Model
    decreases value,
{
    match value {
        JSONValue::Object(members) => Model::Object(member_models(members@)),
        JSONValue::Array(items) => Model::Array(models(items@)),
        JSONValue::String(text) => Model::String(text@),
        JSONValue::Number(text) => Model::Number(text@),
        JSONValue::Boolean(truth) => Model::Boolean(truth),
        JSONValue::Null => Model::Null,
    }
}

/// The models of a sequence of values, one for one.
pub open spec fn models<'a>(values: Seq<JSONValue<'a>>) -> Seq<Model>
    decreases values,
{
    if values.len() == 0 {
        Seq::empty()
    } else {
        models(values.drop_last()).push(model_of(values.last()))
    }
}

/// The models of a sequence of members, one for one.
pub open spec fn member_models<'a>(members: Seq<(&'a str, JSONValue<'a>)>) -> Seq<
    (Seq<char>, Model),
>
    decreases members,
{
    if members.len() == 0 {
        Seq::empty()
    } else {
        member_models(members.drop_last()).push((members.last().0@, model_of(members.last().1)))
    }
}

/// The models of a sequence of values are the models of its values, place by place.
pub proof fn lemma_models<'a>(values: Seq<JSONValue<'a>>)
    ensures
        models(values).len() == values.len(),
        forall|i: int| 0 <= i < values.len() ==> (#[trigger] models(values)[i]) == values[i]@,
    decreases values.len(),
{
    if values.len() > 0 {
        lemma_models(values.drop_last());
    }
}

/// The models of a sequence of members are the models of its members, place by
/// place.
pub proof fn lemma_member_models<'a>(members: Seq<(&'a str, JSONValue<'a>)>)
    ensures
        member_models(members).len() == members.len(),
        forall|i: int|
            0 <= i < members.len() ==> (#[trigger] member_models(members)[i]) == (
                members[i].0@,
                members[i].1@,
            ),
    decreases members.len(),
{
    if members.len() > 0 {
        lemma_member_models(members.drop_last());
    }
}

/// Copies of the values of a sequence, one for one.
fn copy_all<'a>(values: &Vec<JSONValue<'a>>) -> (copies: Vec<JSONValue<'a>>)
    ensures
        models(copies@) == models(values@),
    decreases values,
{
    let mut copies: Vec<JSONValue<'a>> = Vec::new();
    let mut i: usize = 0;
    proof {
        assert(values@.take(0) == Seq::<JSONValue<'a>>::empty());
    }
    while i < values.len()
        invariant
            i <= values.len(),
            models(copies@) == models(values@.take(i as int)),
        decreases values.len() - i,
    {
        let copy = values[i].clone();
        let ghost before = copies@;
        copies.push(copy);
        proof {
            assert(copies@.drop_last() == before);
            assert(values@.take(i + 1).drop_last() == values@.take(i as int));
            assert(values@.take(i + 1).last() == values@[i as int]);
        }
        i += 1;
    }
    proof {
        assert(values@.take(i as int) == values@);
    }
    copies
}

/// Copies of the members of a sequence, one for one.
fn copy_members<'a>(members: &Vec<(&'a str, JSONValue<'a>)>) -> (copies: Vec<
    (&'a str, JSONValue<'a>),
>)
    ensures
        member_models(copies@) == member_models(members@),
    decreases members,
{
    let mut copies: Vec<(&'a str, JSONValue<'a>)> = Vec::new();
    let mut i: usize = 0;
    proof {
        assert(members@.take(0) == Seq::<(&'a str, JSONValue<'a>)>::empty());
    }
    while i < members.len()
        invariant
            i <= members.len(),
            member_models(copies@) == member_models(members@.take(i as int)),
        decreases members.len() - i,
    {
        let copy = members[i].1.clone();
        let ghost before = copies@;
        copies.push((members[i].0, copy));
        proof {
            assert(copies@.drop_last() == before);
            assert(members@.take(i + 1).drop_last() == members@.take(i as int));
            assert(members@.take(i + 1).last() == members@[i as int]);
        }
        i += 1;
    }
    proof {
        assert(members@.take(i as int) == members@);
    }
    copies
}

impl<'a> Clone for JSONValue<'a> {
    /// A copy that stands for the same value.
    fn clone(&self) -> (copy: Self)
        ensures
            copy@ == self@,
        decreases self,
    {
        match self {
            JSONValue::Object(members) => JSONValue::Object(copy_members(members)),
            JSONValue::Array(items) => JSONValue::Array(copy_all(items)),
            JSONValue::String(text) => JSONValue::String(*text),
            JSONValue::Number(text) => JSONValue::Number(*text),
            JSONValue::Boolean(truth) => JSONValue::Boolean(*truth),
            JSONValue::Null => JSONValue::Null,
        }
    }
}

/// Builds the member of a name/value node.
fn parse_member<'a>(pair: &Node<'a, Rule>) -> (result: Result<
    (&'a str, JSONValue<'a>),
    JsonError<'a>,
>)
    ensures
        match member_of(pair@) {
            Ok((name, value)) => result matches Ok((found, json)) && found@ == name && json@
                == value,
            Err(failure) => result matches Err(error) && error@ == failure,
        },
    decreases pair, 1int,
{
    proof {
        lemma_trees(pair.children@);
    }
    if pair.children.len() == 0 {
        return Err(JsonError::MalformedTree { rule: pair.rule });
    }
    let key = &pair.children[0];
    proof {
        lemma_trees(key.children@);
    }
    if key.children.len() == 0 {
        return Err(JsonError::MalformedTree { rule: key.rule });
    }
    if pair.children.len() == 1 {
        return Err(JsonError::MalformedTree { rule: pair.rule });
    }
    let name = key.children[0].text;
    match parse_value(&pair.children[1]) {
        Ok(value) => Ok((name, value)),
        Err(error) => Err(error),
    }
}

/// Builds the value of a node.
pub fn parse_value<'a>(pair: &Node<'a, Rule>) -> (result: Result<JSONValue<'a>, JsonError<'a>>)
    ensures
        match value_of(pair@) {
            Ok(value) => result matches Ok(json) && json@ == value,
            Err(failure) => result matches Err(error) && error@ == failure,
        },
    decreases pair, 0int,
{
    let ghost nodes = pair@.children;
    proof {
        lemma_trees(pair.children@);
        assert(nodes.take(0) == Seq::<Tree<Rule>>::empty());
    }
    match pair.rule {
        Rule::Object => {
            let mut members: Vec<(&'a str, JSONValue<'a>)> = Vec::new();
            let mut i: usize = 0;
            while i < pair.children.len()
                invariant
                    i <= pair.children.len(),
                    pair@.rule == Rule::Object,
                    nodes == pair@.children,
                    nodes == trees(pair.children@),
                    members_of(nodes.take(i as int)) == Ok::<Seq<(Seq<char>, Model)>, Failure>(
                        member_models(members@),
                    ),
                decreases pair.children.len() - i,
            {
                proof {
                    lemma_trees(pair.children@);
                    assert(nodes.take(i + 1).drop_last() == nodes.take(i as int));
                    assert(nodes.take(i + 1).last() == nodes[i as int]);
                }
                match parse_member(&pair.children[i]) {
                    Ok(member) => {
                        let ghost before = members@;
                        members.push(member);
                        proof {
                            assert(members@.drop_last() == before);
                        }
                    },
                    Err(error) => {
                        proof {
                            lemma_members_prefix_fails(nodes, i + 1);
                        }
                        return Err(error);
                    },
                }
                i += 1;
            }
            proof {
                assert(nodes.take(i as int) == nodes);
            }
            Ok(JSONValue::Object(members))
        },
        Rule::Array => {
            let mut items: Vec<JSONValue<'a>> = Vec::new();
            let mut i: usize = 0;
            while i < pair.children.len()
                invariant
                    i <= pair.children.len(),
                    pair@.rule == Rule::Array,
                    nodes == pair@.children,
                    nodes == trees(pair.children@),
                    values_of(nodes.take(i as int)) == Ok::<Seq<Model>, Failure>(models(items@)),
                decreases pair.children.len() - i,
            {
                proof {
                    lemma_trees(pair.children@);
                    assert(nodes.take(i + 1).drop_last() == nodes.take(i as int));
                    assert(nodes.take(i + 1).last() == nodes[i as int]);
                }
                match parse_value(&pair.children[i]) {
                    Ok(item) => {
                        let ghost before = items@;
                        items.push(item);
                        proof {
                            assert(items@.drop_last() == before);
                        }
                    },
                    Err(error) => {
                        proof {
                            lemma_values_prefix_fails(nodes, i + 1);
                        }
                        return Err(error);
                    },
                }
                i += 1;
            }
            proof {
                assert(nodes.take(i as int) == nodes);
            }
            Ok(JSONValue::Array(items))
        },
        Rule::String => {
            if pair.children.len() > 0 {
                Ok(JSONValue::String(pair.children[0].text))
            } else {
                Err(JsonError::MalformedTree { rule: pair.rule })
            }
        },
        Rule::Number => {
            if float_literal(pair.text) {
                Ok(JSONValue::Number(pair.text))
            } else {
                Err(JsonError::TypeCoercion { rule: pair.rule, text: pair.text })
            }
        },
        Rule::Boolean => {
            if same_text(pair.text, "true") {
                Ok(JSONValue::Boolean(true))
            } else if same_text(pair.text, "false") {
                Ok(JSONValue::Boolean(false))
            } else {
                Err(JsonError::TypeCoercion { rule: pair.rule, text: pair.text })
            }
        },
        Rule::Null => Ok(JSONValue::Null),
        _ => Err(JsonError::UnexpectedRule { rule: pair.rule }),
    }
}

/// Builds the value of a whole JSON text, given the node of that value.
pub fn parse_json_file<'a>(file: &Node<'a, Rule>) -> (result: Result<JSONValue<'a>, JsonError<'a>>)
    ensures
        match value_of(file@) {
            Ok(value) => result matches Ok(json) && json@ == value,
            Err(failure) => result matches Err(error) && error@ == failure,
        },
{
    parse_value(file)
}

/// Writes a value as compact JSON text.
pub fn serialize_jsonvalue(val: &JSONValue) -> (text: String)
    ensures
        text@ == serialized(val@),
    decreases val,
{
    match val {
        JSONValue::Object(obj) => {
            let ghost members = member_models(obj@);
            let mut text = "{".to_owned();
            let mut i: usize = 0;
            proof {
                lemma_member_models(obj@);
                assert(members.take(0) == Seq::<(Seq<char>, Model)>::empty());
                assert("{"@ + Seq::<char>::empty() == "{"@);
            }
            while i < obj.len()
                invariant
                    i <= obj.len(),
                    *val is Object,
                    val->Object_0 == *obj,
                    members == member_models(obj@),
                    members.len() == obj.len(),
                    forall|k: int|
                        0 <= k < obj.len() ==> (#[trigger] members[k]) == (obj[k].0@, obj[k].1@),
                    text@ == "{"@ + serialized_members(members.take(i as int)),
                decreases obj.len() - i,
            {
                let ghost before = text@;
                let ghost seen = members.take(i as int);
                let ghost next = members.take(i + 1);
                if i > 0 {
                    text.append(",");
                }
                text.append("\"");
                text.append(obj[i].0);
                text.append("\":");
                let value = serialize_jsonvalue(&obj[i].1);
                text.append(value.as_str());
                proof {
                    let member = serialized_member(members[i as int]);
                    assert(next.drop_last() == seen);
                    assert(next.last() == members[i as int]);
                    assert(member == "\""@ + obj[i as int].0@ + "\":"@ + value@);
                    if i == 0 {
                        assert(next[0] == members[0]);
                        assert(seen == Seq::<(Seq<char>, Model)>::empty());
                        assert(before == "{"@);
                        assert(text@ == "{"@ + member);
                    } else {
                        assert(text@ == "{"@ + (serialized_members(seen) + ","@ + member));
                    }
                }
                i += 1;
            }
            proof {
                assert(members.take(i as int) == members);
            }
            text.append("}");
            text
        },
        JSONValue::Array(arr) => {
            let ghost items = models(arr@);
            let mut text = "[".to_owned();
            let mut i: usize = 0;
            proof {
                lemma_models(arr@);
                assert(items.take(0) == Seq::<Model>::empty());
                assert("["@ + Seq::<char>::empty() == "["@);
            }
            while i < arr.len()
                invariant
                    i <= arr.len(),
                    *val is Array,
                    val->Array_0 == *arr,
                    items == models(arr@),
                    items.len() == arr.len(),
                    forall|k: int| 0 <= k < arr.len() ==> (#[trigger] items[k]) == arr[k]@,
                    text@ == "["@ + serialized_items(items.take(i as int)),
                decreases arr.len() - i,
            {
                let ghost before = text@;
                let ghost seen = items.take(i as int);
                let ghost next = items.take(i + 1);
                if i > 0 {
                    text.append(",");
                }
                let value = serialize_jsonvalue(&arr[i]);
                text.append(value.as_str());
                proof {
                    assert(next.drop_last() == seen);
                    assert(next.last() == items[i as int]);
                    if i == 0 {
                        assert(next[0] == items[0]);
                        assert(seen == Seq::<Model>::empty());
                        assert(before == "["@);
                        assert(text@ == "["@ + value@);
                    } else {
                        assert(text@ == "["@ + (serialized_items(seen) + ","@ + value@));
                    }
                }
                i += 1;
            }
            proof {
                assert(items.take(i as int) == items);
            }
            text.append("]");
            text
        },
        JSONValue::String(content) => {
            let mut text = "\"".to_owned();
            text.append(content);
            text.append("\"");
            text
        },
        JSONValue::Number(literal) => (*literal).to_owned(),
        JSONValue::Boolean(truth) => {
            if *truth {
                "true".to_owned()
            } else {
                "false".to_owned()
            }
        },
        JSONValue::Null => "null".to_owned(),
    }
}

} // verus!
