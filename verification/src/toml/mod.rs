//! Documents in a TOML-like configuration language.
//!
//! The parse tree of a configuration text lists, in source order, headers, sections
//! (a header and the key/value pairs under it), array-sections and pairs that stand
//! outside any section. [`parse_toml`] turns that list into a document of typed
//! entries in the same order. Hierarchy is expressed by dotted paths alone: a section
//! holds pairs and nothing else.

use vstd::prelude::*;
use crate::number::float_literal;
use crate::path::resolve_path;
use crate::text::same_text;
use crate::tree::{collect, lemma_collect_step, lemma_trees, trees, Node, Tree};
use self::laws::lemma_document_entries;
use self::model::{
    document_of, entry_of, is_entry, lemma_document_prefix_fails, lemma_values_collect, pair_of,
    pairs_of, section_of, value_of, values_of,
};

pub mod laws;
pub mod model;

verus! {

/// The grammar rules that label the nodes of a configuration's parse tree.
#[derive(Debug, Clone, Copy, PartialEq, Eq)]
pub enum Rule {
    /// The whole text.
    Toml,
    /// `[a.b]` on a line of its own.
    Header,
    /// `[[a.b]]` on a line of its own.
    ArrayHeader,
    /// A header together with the pairs that follow it.
    Section,
    /// An array header together with the pairs that follow it.
    ArraySection,
    /// `key = value`.
    Pair,
    Boolean,
    Number,
    String,
    OffsetDateTime,
    Date,
    Time,
    Array,
    /// Every rule that carries no meaning of its own: keys, containers, blank space,
    /// the end of the input.
    Other,
}

/// A typed piece of a document: a value, a pair, or a top-level entry.
#[derive(Debug, PartialEq)]
pub enum TOMLAst<'a> {
    /// A table: its path and its pairs.
    Section((Vec<&'a str>, Vec<TOMLAst<'a>>)),
    /// One instance of an array of tables: its path and its pairs.
    ArraySection((Vec<&'a str>, Vec<TOMLAst<'a>>)),
    /// The content of a quoted string, without its quotes.
    String(&'a str),
    /// A floating-point literal, as written.
    Number(&'a str),
    Boolean(bool),
    Array(Vec<TOMLAst<'a>>),
    /// A date and time with an offset, as written.
    OffsetDateTime(&'a str),
    /// A date, as written.
    Date(&'a str),
    /// A time of day, as written.
    Time(&'a str),
    /// The path of a table header.
    Header(Vec<&'a str>),
    /// The path of an array-of-tables header.
    ArrayHeader(Vec<&'a str>),
    /// A key path and the value bound to it.
    Pair((Vec<&'a str>, Box<TOMLAst<'a>>)),
    /// What a leaf of an unknown kind resolves to.
    Null(()),
}

/// Why a tree could not be built into a document.
#[derive(Debug, Clone, Copy, PartialEq, Eq)]
pub enum TomlError<'a> {
    /// A boolean or number leaf whose text is no literal of its kind.
    TypeCoercion { rule: Rule, text: &'a str },
    /// A node of the given rule lacks a child that the grammar promises.
    MalformedTree { rule: Rule },
}

/// The builder of configuration documents.
#[derive(Debug, Clone, Copy, PartialEq, Eq)]
pub struct TOMLParser;

impl TOMLParser {
    /// Builds the document of a whole parse tree, given its root.
    pub fn document<'a>(root: &Node<'a, Rule>) -> (result: Result<Vec<TOMLAst<'a>>, TomlError<'a>>)
        ensures
            match document_of(root@.children) {
                Ok(entries) => result matches Ok(document) && models(document@) == entries,
                Err(failure) => result matches Err(error) && error@ == failure,
            },
            result matches Ok(document) ==> forall|i: int|
                0 <= i < document.len() ==> is_entry(#[trigger] document[i]@),
    {
        let output: Vec<TOMLAst<'a>> = Vec::new();
        proof {
            assert(models(output@) == Seq::<Model>::empty());
            if let Ok(entries) = document_of(root@.children) {
                assert(Seq::<Model>::empty() + entries == entries);
            }
        }
        parse_toml(root, output)
    }
}

/// What a [`TOMLAst`] stands for.
pub ghost enum Model {
    Section(Seq<Seq<char>>, Seq<Model>),
    ArraySection(Seq<Seq<char>>, Seq<Model>),
    String(Seq<char>),
    Number(Seq<char>),
    Boolean(bool),
    Array(Seq<Model>),
    OffsetDateTime(Seq<char>),
    Date(Seq<char>),
    Time(Seq<char>),
    Header(Seq<Seq<char>>),
    ArrayHeader(Seq<Seq<char>>),
    Pair(Seq<Seq<char>>, Box<Model>),
    Null,
}

/// What a [`TomlError`] stands for.
pub ghost enum Failure {
    TypeCoercion { rule: Rule, text: Seq<char> },
    MalformedTree { rule: Rule },
}

impl<'a> View for TOMLAst<'a> {
    type V = Model;

    open spec fn view(&self) -> Model {
        model_of(*self)
    }
}

impl<'a> View for TomlError<'a> {
    type V = Failure;

    open spec fn view(&self) -> Failure {
        match *self {
            TomlError::TypeCoercion { rule, text } => Failure::TypeCoercion { rule, text: text@ },
            TomlError::MalformedTree { rule } => Failure::MalformedTree { rule },
        }
    }
}

/// The model of one piece.
pub open spec fn model_of<'a>(ast: TOMLAst<'a>) -> Model
    decreases ast,
{
    match ast {
        TOMLAst::Section((path, pairs)) => Model::Section(path.deep_view(), models(pairs@)),
        TOMLAst::ArraySection((path, pairs)) => Model::ArraySection(
            path.deep_view(),
            models(pairs@),
        ),
        TOMLAst::String(text) => Model::String(text@),
        TOMLAst::Number(text) => Model::Number(text@),
        TOMLAst::Boolean(truth) => Model::Boolean(truth),
        TOMLAst::Array(items) => Model::Array(models(items@)),
        TOMLAst::OffsetDateTime(text) => Model::OffsetDateTime(text@),
        TOMLAst::Date(text) => Model::Date(text@),
        TOMLAst::Time(text) => Model::Time(text@),
        TOMLAst::Header(path) => Model::Header(path.deep_view()),
        TOMLAst::ArrayHeader(path) => Model::ArrayHeader(path.deep_view()),
        TOMLAst::Pair((path, value)) => Model::Pair(path.deep_view(), Box::new(model_of(*value))),
        TOMLAst::Null(_) => Model::Null,
    }
}

/// The models of a sequence of pieces, one for one.
pub open spec fn models<'a>(asts: Seq<TOMLAst<'a>>) -> Seq<Model>
    decreases asts,
{
    if asts.len() == 0 {
        Seq::empty()
    } else {
        models(asts.drop_last()).push(model_of(asts.last()))
    }
}

/// The models of a sequence of pieces are the models of its pieces, place by place.
pub proof fn lemma_models<'a>(asts: Seq<TOMLAst<'a>>)
    ensures
        models(asts).len() == asts.len(),
        forall|i: int| 0 <= i < asts.len() ==> (#[trigger] models(asts)[i]) == asts[i]@,
    decreases asts.len(),
{
    if asts.len() > 0 {
        lemma_models(asts.drop_last());
    }
}

/// A copy of a path.
fn copy_path<'a>(path: &Vec<&'a str>) -> (copy: Vec<&'a str>)
    ensures
        copy@ == path@,
{
    let mut copy: Vec<&'a str> = Vec::new();
    let mut i: usize = 0;
    while i < path.len()
        invariant
            i <= path.len(),
            copy@ == path@.take(i as int),
        decreases path.len() - i,
    {
        copy.push(path[i]);
        assert(path@.take(i + 1) == path@.take(i as int).push(path@[i as int]));
        i += 1;
    }
    assert(path@.take(i as int) == path@);
    copy
}

/// Copies of the pieces of a sequence, one for one.
fn copy_all<'a>(asts: &Vec<TOMLAst<'a>>) -> (copies: Vec<TOMLAst<'a>>)
    ensures
        models(copies@) == models(asts@),
    decreases asts,
{
    let mut copies: Vec<TOMLAst<'a>> = Vec::new();
    let mut i: usize = 0;
    proof {
        assert(asts@.take(0) == Seq::<TOMLAst<'a>>::empty());
    }
    while i < asts.len()
        invariant
            i <= asts.len(),
            models(copies@) == models(asts@.take(i as int)),
        decreases asts.len() - i,
    {
        let copy = asts[i].clone();
        let ghost before = copies@;
        copies.push(copy);
        proof {
            assert(copies@.drop_last() == before);
            assert(asts@.take(i + 1).drop_last() == asts@.take(i as int));
            assert(asts@.take(i + 1).last() == asts@[i as int]);
        }
        i += 1;
    }
    proof {
        assert(asts@.take(i as int) == asts@);
    }
    copies
}

impl<'a> Clone for TOMLAst<'a> {
    /// A copy that stands for the same piece.
    fn clone(&self) -> (copy: Self)
        ensures
            copy@ == self@,
        decreases self,
    {
        match self {
            TOMLAst::Section((path, pairs)) => TOMLAst::Section((copy_path(path), copy_all(pairs))),
            TOMLAst::ArraySection((path, pairs)) => TOMLAst::ArraySection(
                (copy_path(path), copy_all(pairs)),
            ),
            TOMLAst::String(text) => TOMLAst::String(*text),
            TOMLAst::Number(text) => TOMLAst::Number(*text),
            TOMLAst::Boolean(truth) => TOMLAst::Boolean(*truth),
            TOMLAst::Array(items) => TOMLAst::Array(copy_all(items)),
            TOMLAst::OffsetDateTime(text) => TOMLAst::OffsetDateTime(*text),
            TOMLAst::Date(text) => TOMLAst::Date(*text),
            TOMLAst::Time(text) => TOMLAst::Time(*text),
            TOMLAst::Header(path) => TOMLAst::Header(copy_path(path)),
            TOMLAst::ArrayHeader(path) => TOMLAst::ArrayHeader(copy_path(path)),
            TOMLAst::Pair((path, value)) => {
                let copy: TOMLAst<'a> = (**value).clone();
                TOMLAst::Pair((copy_path(path), Box::new(copy)))
            },
            TOMLAst::Null(_) => TOMLAst::Null(()),
        }
    }
}

/// Resolves a value node to the value it stands for.
pub fn parse_type<'a>(toml_val: &Node<'a, Rule>) -> (result: Result<TOMLAst<'a>, TomlError<'a>>)
    ensures
        match value_of(toml_val@) {
            Ok(value) => result matches Ok(ast) && ast@ == value,
            Err(failure) => result matches Err(error) && error@ == failure,
        },
    decreases toml_val,
{
    match toml_val.rule {
        Rule::Boolean => {
            if same_text(toml_val.text, "true") {
                Ok(TOMLAst::Boolean(true))
            } else if same_text(toml_val.text, "false") {
                Ok(TOMLAst::Boolean(false))
            } else {
                Err(TomlError::TypeCoercion { rule: Rule::Boolean, text: toml_val.text })
            }
        },
        Rule::Number => {
            if float_literal(toml_val.text) {
                Ok(TOMLAst::Number(toml_val.text))
            } else {
                Err(TomlError::TypeCoercion { rule: Rule::Number, text: toml_val.text })
            }
        },
        Rule::String => {
            proof {
                lemma_trees(toml_val.children@);
            }
            if toml_val.children.len() > 0 {
                Ok(TOMLAst::String(toml_val.children[0].text))
            } else {
                Err(TomlError::MalformedTree { rule: Rule::String })
            }
        },
        Rule::OffsetDateTime => Ok(TOMLAst::OffsetDateTime(toml_val.text)),
        Rule::Date => Ok(TOMLAst::Date(toml_val.text)),
        Rule::Time => Ok(TOMLAst::Time(toml_val.text)),
        Rule::Array => {
            let ghost results = toml_val@.children.map_values(|node: Tree<Rule>| value_of(node));
            let mut items: Vec<TOMLAst<'a>> = Vec::new();
            let mut i: usize = 0;
            proof {
                lemma_trees(toml_val.children@);
                lemma_values_collect(toml_val@.children);
                assert(results.take(0) == Seq::<Result<Model, Failure>>::empty());
            }
            while i < toml_val.children.len()
                invariant
                    i <= toml_val.children.len(),
                    toml_val@.rule == Rule::Array,
                    toml_val@.children == trees(toml_val.children@),
                    results == toml_val@.children.map_values(|node: Tree<Rule>| value_of(node)),
                    values_of(toml_val@.children) == collect(results),
                    collect(results.take(i as int)) == Ok::<Seq<Model>, Failure>(models(items@)),
                decreases toml_val.children.len() - i,
            {
                proof {
                    lemma_trees(toml_val.children@);
                    lemma_collect_step(results, i as int);
                }
                match parse_type(&toml_val.children[i]) {
                    Ok(item) => {
                        let ghost before = items@;
                        items.push(item);
                        proof {
                            assert(items@.drop_last() == before);
                        }
                    },
                    Err(error) => {
                        return Err(error);
                    },
                }
                i += 1;
            }
            proof {
                assert(results.take(i as int) == results);
            }
            Ok(TOMLAst::Array(items))
        },
        _ => Ok(TOMLAst::Null(())),
    }
}

/// Builds the pair of a key/value node.
pub fn parse_pair<'a>(toml_val: &Node<'a, Rule>) -> (result: Result<TOMLAst<'a>, TomlError<'a>>)
    ensures
        match pair_of(toml_val@) {
            Ok(pair) => result matches Ok(ast) && ast@ == pair,
            Err(failure) => result matches Err(error) && error@ == failure,
        },
{
    proof {
        lemma_trees(toml_val.children@);
    }
    if toml_val.children.len() < 2 {
        return Err(TomlError::MalformedTree { rule: toml_val.rule });
    }
    let name = resolve_path(toml_val.children[0].text);
    match parse_type(&toml_val.children[1]) {
        Ok(value) => Ok(TOMLAst::Pair((name, Box::new(value)))),
        Err(error) => Err(error),
    }
}

/// Builds the pairs of the nodes under a section, in order.
fn parse_pairs<'a>(nodes: &Vec<Node<'a, Rule>>) -> (result: Result<
    Vec<TOMLAst<'a>>,
    TomlError<'a>,
>)
    ensures
        match pairs_of(trees(nodes@)) {
            Ok(pairs) => result matches Ok(asts) && models(asts@) == pairs,
            Err(failure) => result matches Err(error) && error@ == failure,
        },
{
    let ghost results = trees(nodes@).map_values(|node: Tree<Rule>| pair_of(node));
    let mut pairs: Vec<TOMLAst<'a>> = Vec::new();
    let mut i: usize = 0;
    proof {
        assert(results.take(0) == Seq::<Result<Model, Failure>>::empty());
    }
    while i < nodes.len()
        invariant
            i <= nodes.len(),
            results == trees(nodes@).map_values(|node: Tree<Rule>| pair_of(node)),
            collect(results.take(i as int)) == Ok::<Seq<Model>, Failure>(models(pairs@)),
        decreases nodes.len() - i,
    {
        proof {
            lemma_trees(nodes@);
            lemma_collect_step(results, i as int);
        }
        match parse_pair(&nodes[i]) {
            Ok(pair) => {
                let ghost before = pairs@;
                pairs.push(pair);
                proof {
                    assert(pairs@.drop_last() == before);
                }
            },
            Err(error) => {
                return Err(error);
            },
        }
        i += 1;
    }
    proof {
        lemma_trees(nodes@);
        assert(results.take(i as int) == results);
    }
    Ok(pairs)
}

/// Builds the path and the pairs of a section or array-section node.
fn parse_section<'a>(node: &Node<'a, Rule>) -> (result: Result<
    (Vec<&'a str>, Vec<TOMLAst<'a>>),
    TomlError<'a>,
>)
    ensures
        match section_of(node@) {
            Ok((path, pairs)) => result matches Ok((names, asts)) && names.deep_view() == path
                && models(asts@) == pairs,
            Err(failure) => result matches Err(error) && error@ == failure,
        },
{
    proof {
        lemma_trees(node.children@);
    }
    if node.children.len() == 0 {
        return Err(TomlError::MalformedTree { rule: node.rule });
    }
    let header = &node.children[0];
    proof {
        lemma_trees(header.children@);
    }
    if header.children.len() == 0 {
        return Err(TomlError::MalformedTree { rule: header.rule });
    }
    if node.children.len() == 1 {
        return Err(TomlError::MalformedTree { rule: node.rule });
    }
    let path = resolve_path(header.children[0].text);
    match parse_pairs(&node.children[1].children) {
        Ok(pairs) => Ok((path, pairs)),
        Err(error) => Err(error),
    }
}

/// Builds what one top-level node adds to the document.
pub fn parse_entry<'a>(node: &Node<'a, Rule>) -> (result: Result<
    Option<TOMLAst<'a>>,
    TomlError<'a>,
>)
    ensures
        match entry_of(node@) {
            Ok(Some(entry)) => result matches Ok(Some(ast)) && ast@ == entry,
            Ok(None) => result == Ok::<Option<TOMLAst<'a>>, TomlError<'a>>(None),
            Err(failure) => result matches Err(error) && error@ == failure,
        },
{
    match node.rule {
        Rule::ArrayHeader => Ok(Some(TOMLAst::ArrayHeader(resolve_path(node.inner)))),
        Rule::Header => Ok(Some(TOMLAst::Header(resolve_path(node.inner)))),
        Rule::Section => match parse_section(node) {
            Ok((path, pairs)) => Ok(Some(TOMLAst::Section((path, pairs)))),
            Err(error) => Err(error),
        },
        Rule::ArraySection => match parse_section(node) {
            Ok((path, pairs)) => Ok(Some(TOMLAst::ArraySection((path, pairs)))),
            Err(error) => Err(error),
        },
        Rule::Pair => match parse_pair(node) {
            Ok(pair) => Ok(Some(pair)),
            Err(error) => Err(error),
        },
        _ => Ok(None),
    }
}

/// Builds the document of a parse tree: the entries of the root's children, in source
/// order, appended to `output`.
///
/// The build is all or nothing. The first node that cannot be built, in tree order,
/// ends it with that node's error, and no document is handed back.
pub fn parse_toml<'a>(toml_val: &Node<'a, Rule>, output: Vec<TOMLAst<'a>>) -> (result: Result<
    Vec<TOMLAst<'a>>,
    TomlError<'a>,
>)
    ensures
        match document_of(toml_val@.children) {
            Ok(entries) => result matches Ok(document) && models(document@) == models(output@)
                + entries,
            Err(failure) => result matches Err(error) && error@ == failure,
        },
        result matches Ok(document) ==> forall|i: int|
            output.len() <= i < document.len() ==> is_entry(#[trigger] document[i]@),
{
    let ghost nodes = toml_val@.children;
    let ghost given = models(output@);
    let ghost old_len = output.len();
    proof {
        lemma_models(output@);
    }
    let mut output = output;
    let mut i: usize = 0;
    proof {
        assert(nodes.take(0) == Seq::<Tree<Rule>>::empty());
        assert(given + Seq::<Model>::empty() == given);
    }
    while i < toml_val.children.len()
        invariant
            i <= toml_val.children.len(),
            nodes == toml_val@.children,
            nodes == trees(toml_val.children@),
            document_of(nodes.take(i as int)) is Ok,
            models(output@) == given + document_of(nodes.take(i as int))->Ok_0,
        decreases toml_val.children.len() - i,
    {
        proof {
            lemma_trees(toml_val.children@);
            assert(nodes.take(i + 1).drop_last() == nodes.take(i as int));
            assert(nodes.take(i + 1).last() == nodes[i as int]);
        }
        match parse_entry(&toml_val.children[i]) {
            Ok(Some(entry)) => {
                let ghost before = output@;
                output.push(entry);
                proof {
                    assert(output@.drop_last() == before);
                    assert(models(output@) == given + document_of(nodes.take(i + 1))->Ok_0);
                }
            },
            Ok(None) => {},
            Err(error) => {
                proof {
                    lemma_document_prefix_fails(nodes, i + 1);
                }
                return Err(error);
            },
        }
        i += 1;
    }
    proof {
        lemma_trees(toml_val.children@);
        assert(nodes.take(i as int) == nodes);
        let entries = document_of(nodes)->Ok_0;
        lemma_document_entries(nodes);
        lemma_models(output@);
        assert(given.len() == old_len);
        assert forall|k: int| old_len <= k < output.len() implies is_entry(
            #[trigger] output[k]@,
        ) by {
            assert(models(output@)[k] == entries[k - old_len]);
        }
    }
    Ok(output)
}

} // verus!
