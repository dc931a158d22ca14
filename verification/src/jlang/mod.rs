//! Syntax trees of a small array language.
//!
//! A program is a list of expressions, each of which is printed when the program
//! runs. An expression applies a verb to one operand (monadic) or to two (dyadic),
//! binds a name, quotes a string, or lists terms: integers, decimals, names and
//! bracketed expressions. A leading underscore marks a negative number.

use vstd::prelude::*;
use crate::number::{float_literal_chars, parse_i32_chars};
use crate::text::{chars_of, same_text};
use crate::tree::{lemma_trees, trees, Node, Tree};
use self::model::{
    decimal_of, dyadic_verb_of, expr_of, integer_of, lemma_program_prefix_fails,
    lemma_terms_prefix_fails, monadic_verb_of, program_of, string_of, term_of, terms_of, unescape,
};

pub mod model;

verus! {

/// The grammar rules that label the nodes of a program's parse tree.
#[derive(Debug, Clone, Copy, PartialEq, Eq)]
pub enum Rule {
    Expr,
    DyadicExpr,
    MonadicExpr,
    AssgmtExpr,
    Terms,
    String,
    Integer,
    Decimal,
    Ident,
    Verb,
    /// Every rule that no builder reads: the end of the input and the like.
    Other,
}

/// The builder of programs.
#[derive(Debug, Clone, Copy, PartialEq, Eq)]
pub struct JLangParser;

/// A verb applied to one operand.
#[derive(Debug, Clone, Copy, PartialEq, Eq)]
pub enum MonadicVerb {
    Increment,
    Square,
    Negate,
    Reciprocal,
    Tally,
    Ceiling,
    ShapeOf,
}

/// A verb applied to two operands.
#[derive(Debug, Clone, Copy, PartialEq, Eq)]
pub enum DyadicVerb {
    Plus,
    Times,
    LessThan,
    LargerThan,
    Equal,
    Minus,
    Divide,
    Power,
    Residue,
    Copy,
    LargerOf,
    LargerOrEqual,
    Shape,
}

/// A decimal number as written: a floating-point literal, and whether the negative
/// mark stood before it. The mark negates every value but zero.
#[derive(Debug, PartialEq, Eq)]
pub struct Decimal {
    pub negative: bool,
    pub literal: String,
}

/// A node of a program's syntax tree.
#[derive(Debug, PartialEq, Eq)]
pub enum AstNode {
    Print(Box<AstNode>),
    Integer(i32),
    DoublePrecisionFloat(Decimal),
    MonadicOp { verb: MonadicVerb, expr: Box<AstNode> },
    DyadicOp { verb: DyadicVerb, lhs: Box<AstNode>, rhs: Box<AstNode> },
    Terms(Vec<AstNode>),
    IsGlobal { ident: String, expr: Box<AstNode> },
    Ident(String),
    /// The content of a quoted string; it holds no NUL character.
    Str(String),
}

/// Why a tree could not be built into a program.
#[derive(Debug, Clone, Copy, PartialEq, Eq)]
pub enum JLangError<'a> {
    /// A leaf whose text is no literal of its kind.
    TypeCoercion { rule: Rule, text: &'a str },
    /// A node of the given rule lacks a child that the grammar promises.
    MalformedTree { rule: Rule },
    /// A verb that the language does not have in this position.
    UnknownVerb { text: &'a str },
    /// A node of a rule that cannot stand where it was found.
    UnexpectedRule { rule: Rule },
}

/// What an [`AstNode`] stands for.
pub ghost enum Model {
    Print(Box<Model>),
    Integer(i32),
    DoublePrecisionFloat { negative: bool, literal: Seq<char> },
    MonadicOp { verb: MonadicVerb, expr: Box<Model> },
    DyadicOp { verb: DyadicVerb, lhs: Box<Model>, rhs: Box<Model> },
    Terms(Seq<Model>),
    IsGlobal { ident: Seq<char>, expr: Box<Model> },
    Ident(Seq<char>),
    Str(Seq<char>),
}

/// What a [`JLangError`] stands for.
pub ghost enum Failure {
    TypeCoercion { rule: Rule, text: Seq<char> },
    MalformedTree { rule: Rule },
    UnknownVerb { text: Seq<char> },
    UnexpectedRule { rule: Rule },
}

impl View for AstNode {
    type V = Model;

    open spec fn view(&self) -> Model {
        model_of(*self)
    }
}

impl<'a> View for JLangError<'a> {
    type V = Failure;

    open spec fn view(&self) -> Failure {
        match *self {
            JLangError::TypeCoercion { rule, text } => Failure::TypeCoercion { rule, text: text@ },
            JLangError::MalformedTree { rule } => Failure::MalformedTree { rule },
            JLangError::UnknownVerb { text } => Failure::UnknownVerb { text: text@ },
            JLangError::UnexpectedRule { rule } => Failure::UnexpectedRule { rule },
        }
    }
}

/// The model of one node.
pub open spec fn model_of(ast: AstNode) -> Model
    decreases ast,
{
    match ast {
        AstNode::Print(expr) => Model::Print(Box::new(model_of(*expr))),
        AstNode::Integer(value) => Model::Integer(value),
        AstNode::DoublePrecisionFloat(decimal) => Model::DoublePrecisionFloat {
            negative: decimal.negative,
            literal: decimal.literal@,
        },
        AstNode::MonadicOp { verb, expr } => Model::MonadicOp {
            verb,
            expr: Box::new(model_of(*expr)),
        },
        AstNode::DyadicOp { verb, lhs, rhs } => Model::DyadicOp {
            verb,
            lhs: Box::new(model_of(*lhs)),
            rhs: Box::new(model_of(*rhs)),
        },
        AstNode::Terms(terms) => Model::Terms(models(terms@)),
        AstNode::IsGlobal { ident, expr } => Model::IsGlobal {
            ident: ident@,
            expr: Box::new(model_of(*expr)),
        },
        AstNode::Ident(name) => Model::Ident(name@),
        AstNode::Str(content) => Model::Str(content@),
    }
}

/// The models of a sequence of nodes, one for one.
pub open spec fn models(asts: Seq<AstNode>) -> Seq<Model>
    decreases asts,
{
    if asts.len() == 0 {
        Seq::empty()
    } else {
        models(asts.drop_last()).push(model_of(asts.last()))
    }
}

/// The models of a sequence of nodes are the models of its nodes, place by place.
pub proof fn lemma_models(asts: Seq<AstNode>)
    ensures
        models(asts).len() == asts.len(),
        forall|i: int| 0 <= i < asts.len() ==> (#[trigger] models(asts)[i]) == asts[i]@,
    decreases asts.len(),
{
    if asts.len() > 0 {
        lemma_models(asts.drop_last());
    }
}

impl Clone for Decimal {
    /// A copy that stands for the same number.
    fn clone(&self) -> (copy: Self)
        ensures
            copy.negative == self.negative,
            copy.literal@ == self.literal@,
    {
        Decimal { negative: self.negative, literal: self.literal.clone() }
    }
}

/// Copies of the nodes of a sequence, one for one.
fn copy_all(asts: &Vec<AstNode>) -> (copies: Vec<AstNode>)
    ensures
        models(copies@) == models(asts@),
    decreases asts,
{
    let mut copies: Vec<AstNode> = Vec::new();
    let mut i: usize = 0;
    proof {
        assert(asts@.take(0) == Seq::<AstNode>::empty());
    }
    while i < asts.len()
        invariant
            i <= asts.len(),
            models(copies@) == models(asts@.take(i as int)),
        decreases asts.len() - i,
    {
        let copy = asts[i].clone();
        let ghost before = copies@;
        copies.push(copy);
        proof {
            assert(copies@.drop_last() == before);
            assert(asts@.take(i + 1).drop_last() == asts@.take(i as int));
            assert(asts@.take(i + 1).last() == asts@[i as int]);
        }
        i += 1;
    }
    proof {
        assert(asts@.take(i as int) == asts@);
    }
    copies
}

impl Clone for AstNode {
    /// A copy that stands for the same node.
    fn clone(&self) -> (copy: Self)
        ensures
            copy@ == self@,
        decreases self,
    {
        match self {
            AstNode::Print(expr) => {
                let expr: AstNode = (**expr).clone();
                AstNode::Print(Box::new(expr))
            },
            AstNode::Integer(value) => AstNode::Integer(*value),
            AstNode::DoublePrecisionFloat(decimal) => AstNode::DoublePrecisionFloat(
                decimal.clone(),
            ),
            AstNode::MonadicOp { verb, expr } => {
                let expr: AstNode = (**expr).clone();
                AstNode::MonadicOp { verb: *verb, expr: Box::new(expr) }
            },
            AstNode::DyadicOp { verb, lhs, rhs } => {
                let lhs: AstNode = (**lhs).clone();
                let rhs: AstNode = (**rhs).clone();
                AstNode::DyadicOp { verb: *verb, lhs: Box::new(lhs), rhs: Box::new(rhs) }
            },
            AstNode::Terms(terms) => AstNode::Terms(copy_all(terms)),
            AstNode::IsGlobal { ident, expr } => {
                let expr: AstNode = (**expr).clone();
                AstNode::IsGlobal { ident: ident.clone(), expr: Box::new(expr) }
            },
            AstNode::Ident(name) => AstNode::Ident(name.clone()),
            AstNode::Str(content) => AstNode::Str(content.clone()),
        }
    }
}

/// The verb that `text` names before one operand.
pub fn monadic_verb(text: &str) -> (verb: Option<MonadicVerb>)
    ensures
        verb == monadic_verb_of(text@),
{
    if same_text(text, ">:") {
        Some(MonadicVerb::Increment)
    } else if same_text(text, "*:") {
        Some(MonadicVerb::Square)
    } else if same_text(text, "-") {
        Some(MonadicVerb::Negate)
    } else if same_text(text, "%") {
        Some(MonadicVerb::Reciprocal)
    } else if same_text(text, "#") {
        Some(MonadicVerb::Tally)
    } else if same_text(text, ">.") {
        Some(MonadicVerb::Ceiling)
    } else if same_text(text, "$") {
        Some(MonadicVerb::ShapeOf)
    } else {
        None
    }
}

/// The verb that `text` names between two operands.
pub fn dyadic_verb(text: &str) -> (verb: Option<DyadicVerb>)
    ensures
        verb == dyadic_verb_of(text@),
{
    if same_text(text, "+") {
        Some(DyadicVerb::Plus)
    } else if same_text(text, "*") {
        Some(DyadicVerb::Times)
    } else if same_text(text, "-") {
        Some(DyadicVerb::Minus)
    } else if same_text(text, "<") {
        Some(DyadicVerb::LessThan)
    } else if same_text(text, "=") {
        Some(DyadicVerb::Equal)
    } else if same_text(text, ">") {
        Some(DyadicVerb::LargerThan)
    } else if same_text(text, "%") {
        Some(DyadicVerb::Divide)
    } else if same_text(text, "^") {
        Some(DyadicVerb::Power)
    } else if same_text(text, "|") {
        Some(DyadicVerb::Residue)
    } else if same_text(text, "#") {
        Some(DyadicVerb::Copy)
    } else if same_text(text, ">.") {
        Some(DyadicVerb::LargerOf)
    } else if same_text(text, ">:") {
        Some(DyadicVerb::LargerOrEqual)
    } else if same_text(text, "$") {
        Some(DyadicVerb::Shape)
    } else {
        None
    }
}

/// Applies the verb named by `verb` to two operands.
pub fn parse_dyadic_verb<'a>(verb: &Node<'a, Rule>, lhs: AstNode, rhs: AstNode) -> (result: Result<
    AstNode,
    JLangError<'a>,
>)
    ensures
        match dyadic_verb_of(verb@.text) {
            Some(named) => result matches Ok(ast) && ast@ == (Model::DyadicOp {
                verb: named,
                lhs: Box::new(lhs@),
                rhs: Box::new(rhs@),
            }),
            None => result matches Err(error) && error@ == (Failure::UnknownVerb {
                text: verb@.text,
            }),
        },
{
    match dyadic_verb(verb.text) {
        Some(named) => Ok(AstNode::DyadicOp { verb: named, lhs: Box::new(lhs), rhs: Box::new(rhs) }),
        None => Err(JLangError::UnknownVerb { text: verb.text }),
    }
}

/// Applies the verb named by `verb` to one operand.
pub fn parse_monadic_verb<'a>(verb: &Node<'a, Rule>, expr: AstNode) -> (result: Result<
    AstNode,
    JLangError<'a>,
>)
    ensures
        match monadic_verb_of(verb@.text) {
            Some(named) => result matches Ok(ast) && ast@ == (Model::MonadicOp {
                verb: named,
                expr: Box::new(expr@),
            }),
            None => result matches Err(error) && error@ == (Failure::UnknownVerb {
                text: verb@.text,
            }),
        },
{
    match monadic_verb(verb.text) {
        Some(named) => Ok(AstNode::MonadicOp { verb: named, expr: Box::new(expr) }),
        None => Err(JLangError::UnknownVerb { text: verb.text }),
    }
}

/// Reading doubled quotes as one distributes over text that ends before a quote
/// pair starts: a stretch without two quotes in a row stays as it is.
proof fn lemma_unescape_plain(text: Seq<char>, k: int)
    requires
        0 <= k <= text.len(),
        forall|j: int| 0 <= j < k ==> !(#[trigger] text[j] == '\'' && j + 1 < text.len() && text[j + 1] == '\''),
    ensures
        unescape(text) == text.take(k) + unescape(text.skip(k)),
    decreases k,
{
    if k == 0 {
        assert(text.take(0) == Seq::<char>::empty());
        assert(text.skip(0) == text);
        assert(Seq::<char>::empty() + unescape(text) == unescape(text));
    } else {
        assert(!(text[0] == '\'' && 1 < text.len() && text[1] == '\''));
        let rest = text.skip(1);
        assert forall|j: int| 0 <= j < k - 1 implies !(#[trigger] rest[j] == '\'' && j + 1
            < rest.len() && rest[j + 1] == '\'') by {
            assert(rest[j] == text[j + 1]);
            assert(!(text[j + 1] == '\'' && j + 2 < text.len() && text[j + 2] == '\''));
        }
        lemma_unescape_plain(rest, k - 1);
        assert(rest.skip(k - 1) == text.skip(k));
        assert(seq![text[0]] + rest.take(k - 1) == text.take(k));
        assert(seq![text[0]] + (rest.take(k - 1) + unescape(rest.skip(k - 1))) == (seq![text[0]]
            + rest.take(k - 1)) + unescape(rest.skip(k - 1)));
    }
}

/// The content of the quoted string `text`.
pub fn string_content(text: &str) -> (content: Option<String>)
    ensures
        match string_of(text@) {
            Some(expected) => content matches Some(found) && found@ == expected,
            None => content is None,
        },
{
    let chars = chars_of(text);
    let n = chars.len();
    if n < 2 || (chars[0] as u32) >= 128 || (chars[n - 1] as u32) >= 128 {
        return None;
    }
    let ghost body = text@.subrange(1, n - 1);
    let mut content = String::new();
    let mut start: usize = 1;
    let mut i: usize = 1;
    let mut clean = true;
    proof {
        assert(body.skip(0) == body);
        assert(Seq::<char>::empty() + unescape(body) == unescape(body));
        assert(text@.subrange(1, 1) == Seq::<char>::empty());
    }
    while i < n - 1
        invariant
            chars@ == text@,
            n == chars.len(),
            n >= 2,
            1 <= start <= i <= n - 1,
            body == text@.subrange(1, n - 1),
            unescape(body) == content@ + unescape(body.skip(start - 1)),
            forall|j: int|
                start - 1 <= j < i - 1 ==> !(#[trigger] body[j] == '\'' && j + 1 < body.len()
                    && body[j + 1] == '\''),
            clean == !(content@ + body.subrange(start - 1, i - 1)).contains('\0'),
        decreases n - 1 - i,
    {
        let ghost tail = body.skip(start - 1);
        if chars[i] == '\0' {
            proof {
                let seen = content@ + body.subrange(start - 1, i as int);
                assert(seen[content@.len() + i - start] == '\0');
            }
            clean = false;
        } else {
            proof {
                let before = content@ + body.subrange(start - 1, i - 1);
                let seen = content@ + body.subrange(start - 1, i as int);
                assert(seen == before.push(text@[i as int]));
                if before.contains('\0') {
                    let at = choose|at: int| 0 <= at < before.len() && before[at] == '\0';
                    assert(seen[at] == '\0');
                }
                if seen.contains('\0') {
                    let at = choose|at: int| 0 <= at < seen.len() && seen[at] == '\0';
                    assert(before[at] == '\0');
                }
            }
        }
        if chars[i] == '\'' && i + 1 < n - 1 && chars[i + 1] == '\'' {
            let piece = text.substring_char(start, i + 1);
            proof {
                assert forall|j: int| 0 <= j < i - start implies !(#[trigger] tail[j] == '\'' && j
                    + 1 < tail.len() && tail[j + 1] == '\'') by {
                    assert(tail[j] == body[start - 1 + j]);
                    assert(!(body[start - 1 + j] == '\'' && start + j < body.len() && body[start
                        + j] == '\''));
                }
                lemma_unescape_plain(tail, i - start);
                let pair = tail.skip(i - start);
                assert(pair[0] == text@[i as int]);
                assert(pair[1] == text@[i + 1]);
                assert(pair.skip(2) == body.skip(i + 1));
                assert(tail.take(i - start) + seq!['\''] == piece@);
                assert(content@ + (tail.take(i - start) + (seq!['\''] + unescape(
                    body.skip(i + 1),
                ))) == (content@ + piece@) + unescape(body.skip(i + 1)));
                assert(body.subrange(start - 1, i as int) == piece@);
                assert(body.subrange(i + 1, i + 1) == Seq::<char>::empty());
                assert((content@ + piece@) + body.subrange(i + 1, i + 1) == content@ + piece@);
            }
            content.append(piece);
            start = i + 2;
            i = i + 2;
        } else {
            i = i + 1;
        }
    }
    let piece = text.substring_char(start, n - 1);
    proof {
        let tail = body.skip(start - 1);
        assert forall|j: int| 0 <= j < tail.len() implies !(#[trigger] tail[j] == '\'' && j + 1
            < tail.len() && tail[j + 1] == '\'') by {
            assert(tail[j] == body[start - 1 + j]);
            assert(!(body[start - 1 + j] == '\'' && start + j < body.len() && body[start + j]
                == '\''));
        }
        lemma_unescape_plain(tail, tail.len() as int);
        assert(tail.take(tail.len() as int) == tail);
        assert(tail.skip(tail.len() as int) == Seq::<char>::empty());
        assert(tail + Seq::<char>::empty() == tail);
        assert(tail == piece@);
        assert(body.subrange(start - 1, i - 1) == tail);
    }
    content.append(piece);
    if clean {
        Some(content)
    } else {
        None
    }
}

/// The value of the integer term `text`.
pub fn integer_value(text: &str) -> (value: Option<i32>)
    ensures
        value == integer_of(text@),
{
    let chars = chars_of(text);
    if chars.len() > 0 && chars[0] == '_' {
        let digits = vstd::slice::slice_subrange(chars.as_slice(), 1, chars.len());
        proof {
            assert(digits@ == text@.skip(1));
        }
        match parse_i32_chars(digits) {
            Some(value) => if value != i32::MIN {
                Some(-value)
            } else {
                None
            },
            None => None,
        }
    } else {
        parse_i32_chars(chars.as_slice())
    }
}

/// The parts of the decimal term `text`.
pub fn decimal_parts(text: &str) -> (parts: Option<Decimal>)
    ensures
        match decimal_of(text@) {
            Some((negative, literal)) => parts matches Some(decimal) && decimal.negative
                == negative && decimal.literal@ == literal,
            None => parts is None,
        },
{
    let chars = chars_of(text);
    if chars.len() > 0 && chars[0] == '_' {
        let rest = vstd::slice::slice_subrange(chars.as_slice(), 1, chars.len());
        proof {
            assert(rest@ == text@.skip(1));
        }
        if float_literal_chars(rest) {
            let literal = text.substring_char(1, chars.len());
            proof {
                assert(literal@ == text@.skip(1));
            }
            Some(Decimal { negative: true, literal: literal.to_owned() })
        } else {
            None
        }
    } else if float_literal_chars(chars.as_slice()) {
        Some(Decimal { negative: false, literal: text.to_owned() })
    } else {
        None
    }
}

/// Builds the node of a term.
pub fn build_ast_from_term<'a>(pair: &Node<'a, Rule>) -> (result: Result<AstNode, JLangError<'a>>)
    ensures
        match term_of(pair@) {
            Ok(model) => result matches Ok(ast) && ast@ == model,
            Err(failure) => result matches Err(error) && error@ == failure,
        },
    decreases pair, 2int,
{
    match pair.rule {
        Rule::Integer => match integer_value(pair.text) {
            Some(value) => Ok(AstNode::Integer(value)),
            None => Err(JLangError::TypeCoercion { rule: pair.rule, text: pair.text }),
        },
        Rule::Decimal => match decimal_parts(pair.text) {
            Some(decimal) => Ok(AstNode::DoublePrecisionFloat(decimal)),
            None => Err(JLangError::TypeCoercion { rule: pair.rule, text: pair.text }),
        },
        Rule::Expr => build_ast_from_expr(pair),
        Rule::Ident => Ok(AstNode::Ident(pair.text.to_owned())),
        _ => Err(JLangError::UnexpectedRule { rule: pair.rule }),
    }
}

/// Builds the nodes of the terms under a list of terms, in order.
fn build_terms<'a>(pair: &Node<'a, Rule>) -> (result: Result<Vec<AstNode>, JLangError<'a>>)
    ensures
        match terms_of(pair@.children) {
            Ok(terms) => result matches Ok(asts) && models(asts@) == terms,
            Err(failure) => result matches Err(error) && error@ == failure,
        },
    decreases pair, 0int,
{
    let ghost nodes = pair@.children;
    let mut terms: Vec<AstNode> = Vec::new();
    let mut i: usize = 0;
    proof {
        assert(nodes.take(0) == Seq::<Tree<Rule>>::empty());
    }
    while i < pair.children.len()
        invariant
            i <= pair.children.len(),
            nodes == pair@.children,
            nodes == trees(pair.children@),
            terms_of(nodes.take(i as int)) == Ok::<Seq<Model>, Failure>(models(terms@)),
        decreases pair.children.len() - i,
    {
        proof {
            lemma_trees(pair.children@);
            assert(nodes.take(i + 1).drop_last() == nodes.take(i as int));
            assert(nodes.take(i + 1).last() == nodes[i as int]);
        }
        match build_ast_from_term(&pair.children[i]) {
            Ok(term) => {
                let ghost before = terms@;
                terms.push(term);
                proof {
                    assert(terms@.drop_last() == before);
                }
            },
            Err(error) => {
                proof {
                    lemma_terms_prefix_fails(nodes, i + 1);
                }
                return Err(error);
            },
        }
        i += 1;
    }
    proof {
        lemma_trees(pair.children@);
        assert(nodes.take(i as int) == nodes);
    }
    Ok(terms)
}

/// Builds the node of an expression.
pub fn build_ast_from_expr<'a>(pair: &Node<'a, Rule>) -> (result: Result<AstNode, JLangError<'a>>)
    ensures
        match expr_of(pair@) {
            Ok(model) => result matches Ok(ast) && ast@ == model,
            Err(failure) => result matches Err(error) && error@ == failure,
        },
    decreases pair, 1int,
{
    proof {
        lemma_trees(pair.children@);
    }
    match pair.rule {
        Rule::Expr => {
            if pair.children.len() == 0 {
                return Err(JLangError::MalformedTree { rule: pair.rule });
            }
            build_ast_from_expr(&pair.children[0])
        },
        Rule::DyadicExpr => {
            if pair.children.len() == 0 {
                return Err(JLangError::MalformedTree { rule: pair.rule });
            }
            let lhs = match build_ast_from_expr(&pair.children[0]) {
                Ok(lhs) => lhs,
                Err(error) => {
                    return Err(error);
                },
            };
            if pair.children.len() < 3 {
                return Err(JLangError::MalformedTree { rule: pair.rule });
            }
            let rhs = match build_ast_from_expr(&pair.children[2]) {
                Ok(rhs) => rhs,
                Err(error) => {
                    return Err(error);
                },
            };
            parse_dyadic_verb(&pair.children[1], lhs, rhs)
        },
        Rule::Terms => {
            let mut terms = match build_terms(pair) {
                Ok(terms) => terms,
                Err(error) => {
                    return Err(error);
                },
            };
            proof {
                lemma_models(terms@);
            }
            if terms.len() == 1 {
                match terms.pop() {
                    Some(term) => Ok(term),
                    None => Ok(AstNode::Terms(terms)),
                }
            } else {
                Ok(AstNode::Terms(terms))
            }
        },
        Rule::MonadicExpr => {
            if pair.children.len() < 2 {
                return Err(JLangError::MalformedTree { rule: pair.rule });
            }
            let expr = match build_ast_from_expr(&pair.children[1]) {
                Ok(expr) => expr,
                Err(error) => {
                    return Err(error);
                },
            };
            parse_monadic_verb(&pair.children[0], expr)
        },
        Rule::AssgmtExpr => {
            if pair.children.len() < 2 {
                return Err(JLangError::MalformedTree { rule: pair.rule });
            }
            let expr = match build_ast_from_expr(&pair.children[1]) {
                Ok(expr) => expr,
                Err(error) => {
                    return Err(error);
                },
            };
            Ok(AstNode::IsGlobal { ident: pair.children[0].text.to_owned(), expr: Box::new(expr) })
        },
        Rule::String => match string_content(pair.text) {
            Some(content) => Ok(AstNode::Str(content)),
            None => Err(JLangError::TypeCoercion { rule: pair.rule, text: pair.text }),
        },
        _ => Err(JLangError::UnexpectedRule { rule: pair.rule }),
    }
}

/// Builds the program of a parse: one printed expression for each expression among
/// the top-level nodes, in source order.
///
/// The build is all or nothing: the first node that cannot be built, in tree order,
/// ends it with that node's error.
pub fn parse<'a>(pairs: &Vec<Node<'a, Rule>>) -> (result: Result<Vec<AstNode>, JLangError<'a>>)
    ensures
        match program_of(trees(pairs@)) {
            Ok(statements) => result matches Ok(ast) && models(ast@) == statements,
            Err(failure) => result matches Err(error) && error@ == failure,
        },
{
    let ghost nodes = trees(pairs@);
    let mut ast: Vec<AstNode> = Vec::new();
    let mut i: usize = 0;
    proof {
        assert(nodes.take(0) == Seq::<Tree<Rule>>::empty());
    }
    while i < pairs.len()
        invariant
            i <= pairs.len(),
            nodes == trees(pairs@),
            program_of(nodes.take(i as int)) == Ok::<Seq<Model>, Failure>(models(ast@)),
        decreases pairs.len() - i,
    {
        proof {
            lemma_trees(pairs@);
            assert(nodes.take(i + 1).drop_last() == nodes.take(i as int));
            assert(nodes.take(i + 1).last() == nodes[i as int]);
            assert(nodes[i as int] == pairs[i as int]@);
        }
        match pairs[i].rule {
            Rule::Expr => match build_ast_from_expr(&pairs[i]) {
                Ok(expr) => {
                    let ghost before = ast@;
                    let statement = AstNode::Print(Box::new(expr));
                    assert(statement@ == Model::Print(Box::new(expr@)));
                    ast.push(statement);
                    proof {
                        assert(ast@.drop_last() == before);
                    }
                },
                Err(error) => {
                    proof {
                        lemma_program_prefix_fails(nodes, i + 1);
                    }
                    return Err(error);
                },
            },
            _ => {},
        }
        i += 1;
    }
    proof {
        lemma_trees(pairs@);
        assert(nodes.take(i as int) == nodes);
    }
    Ok(ast)
}

impl JLangParser {
    /// Builds the program of a parse, given its top-level nodes.
    pub fn program<'a>(pairs: &Vec<Node<'a, Rule>>) -> (result: Result<
        Vec<AstNode>,
        JLangError<'a>,
    >)
        ensures
            match program_of(trees(pairs@)) {
                Ok(statements) => result matches Ok(ast) && models(ast@) == statements,
                Err(failure) => result matches Err(error) && error@ == failure,
            },
    {
        parse(pairs)
    }
}

} // verus!
