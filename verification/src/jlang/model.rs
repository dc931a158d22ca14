//! What the builders compute, stated over trees and models.

use vstd::prelude::*;
use crate::number::{i32_literal, is_float_literal};
use crate::tree::Tree;
use super::{DyadicVerb, Failure, Model, MonadicVerb, Rule};

verus! {

/// The verb that a text names when it stands before its only operand.
pub open spec fn monadic_verb_of(text: Seq<char>) -> Option<MonadicVerb> {
    if text == ">:"@ {
        Some(MonadicVerb::Increment)
    } else if text == "*:"@ {
        Some(MonadicVerb::Square)
    } else if text == "-"@ {
        Some(MonadicVerb::Negate)
    } else if text == "%"@ {
        Some(MonadicVerb::Reciprocal)
    } else if text == "#"@ {
        Some(MonadicVerb::Tally)
    } else if text == ">."@ {
        Some(MonadicVerb::Ceiling)
    } else if text == "$"@ {
        Some(MonadicVerb::ShapeOf)
    } else {
        None
    }
}

/// The verb that a text names when it stands between two operands.
pub open spec fn dyadic_verb_of(text: Seq<char>) -> Option<DyadicVerb> {
    if text == "+"@ {
        Some(DyadicVerb::Plus)
    } else if text == "*"@ {
        Some(DyadicVerb::Times)
    } else if text == "-"@ {
        Some(DyadicVerb::Minus)
    } else if text == "<"@ {
        Some(DyadicVerb::LessThan)
    } else if text == "="@ {
        Some(DyadicVerb::Equal)
    } else if text == ">"@ {
        Some(DyadicVerb::LargerThan)
    } else if text == "%"@ {
        Some(DyadicVerb::Divide)
    } else if text == "^"@ {
        Some(DyadicVerb::Power)
    } else if text == "|"@ {
        Some(DyadicVerb::Residue)
    } else if text == "#"@ {
        Some(DyadicVerb::Copy)
    } else if text == ">."@ {
        Some(DyadicVerb::LargerOf)
    } else if text == ">:"@ {
        Some(DyadicVerb::LargerOrEqual)
    } else if text == "$"@ {
        Some(DyadicVerb::Shape)
    } else {
        None
    }
}

/// `text` starts with the underscore that marks a negative number.
pub open spec fn has_negative_mark(text: Seq<char>) -> bool {
    text.len() > 0 && text[0] == '_'
}

/// `text` without its negative mark, where it has one.
pub open spec fn unmarked(text: Seq<char>) -> Seq<char> {
    if has_negative_mark(text) {
        text.skip(1)
    } else {
        text
    }
}

/// The value of an integer term: the integer literal after the optional negative
/// mark, negated under the mark. There is none where the text is no such literal or
/// the value does not fit in 32 bits.
pub open spec fn integer_of(text: Seq<char>) -> Option<i32> {
    match i32_literal(unmarked(text)) {
        Some(value) => if !has_negative_mark(text) {
            Some(value)
        } else if value != i32::MIN {
            Some((-value) as i32)
        } else {
            None
        },
        None => None,
    }
}

/// The parts of a decimal term: whether it bears the negative mark, and the
/// floating-point literal after the mark. There are none where no such literal
/// follows.
pub open spec fn decimal_of(text: Seq<char>) -> Option<(bool, Seq<char>)> {
    if is_float_literal(unmarked(text)) {
        Some((has_negative_mark(text), unmarked(text)))
    } else {
        None
    }
}

/// `text` with each doubled quote read as one quote, from left to right.
pub open spec fn unescape(text: Seq<char>) -> Seq<char>
    decreases text.len(),
{
    if text.len() >= 2 && text[0] == '\'' && text[1] == '\'' {
        seq!['\''] + unescape(text.skip(2))
    } else if text.len() >= 1 {
        seq![text[0]] + unescape(text.skip(1))
    } else {
        Seq::empty()
    }
}

/// `c` takes one byte in UTF-8.
pub open spec fn is_ascii_char(c: char) -> bool {
    (c as u32) < 128
}

/// The content of a quoted string: what stands between its first and its last
/// character, with doubled quotes read as one. There is none where the text is
/// shorter than two characters, where one of the two delimiters takes more than one
/// byte, or where the content holds a NUL character.
pub open spec fn string_of(text: Seq<char>) -> Option<Seq<char>> {
    if text.len() >= 2 && is_ascii_char(text[0]) && is_ascii_char(text.last()) {
        let content = unescape(text.subrange(1, text.len() - 1));
        if content.contains('\0') {
            None
        } else {
            Some(content)
        }
    } else {
        None
    }
}

/// The node that an expression node builds.
pub open spec fn expr_of(node: Tree<Rule>) -> Result<Model, Failure>
    decreases node, 0int,
{
    match node.rule {
        Rule::Expr => if node.children.len() == 0 {
            Err(Failure::MalformedTree { rule: node.rule })
        } else {
            expr_of(node.children[0])
        },
        Rule::DyadicExpr => if node.children.len() == 0 {
            Err(Failure::MalformedTree { rule: node.rule })
        } else {
            match expr_of(node.children[0]) {
                Err(failure) => Err(failure),
                Ok(lhs) => if node.children.len() < 3 {
                    Err(Failure::MalformedTree { rule: node.rule })
                } else {
                    match expr_of(node.children[2]) {
                        Err(failure) => Err(failure),
                        Ok(rhs) => match dyadic_verb_of(node.children[1].text) {
                            None => Err(Failure::UnknownVerb { text: node.children[1].text }),
                            Some(verb) => Ok(
                                Model::DyadicOp { verb, lhs: Box::new(lhs), rhs: Box::new(rhs) },
                            ),
                        },
                    }
                },
            }
        },
        Rule::Terms => match terms_of(node.children) {
            Err(failure) => Err(failure),
            Ok(terms) => if terms.len() == 1 {
                Ok(terms[0])
            } else {
                Ok(Model::Terms(terms))
            },
        },
        Rule::MonadicExpr => if node.children.len() < 2 {
            Err(Failure::MalformedTree { rule: node.rule })
        } else {
            match expr_of(node.children[1]) {
                Err(failure) => Err(failure),
                Ok(expr) => match monadic_verb_of(node.children[0].text) {
                    None => Err(Failure::UnknownVerb { text: node.children[0].text }),
                    Some(verb) => Ok(Model::MonadicOp { verb, expr: Box::new(expr) }),
                },
            }
        },
        Rule::AssgmtExpr => if node.children.len() < 2 {
            Err(Failure::MalformedTree { rule: node.rule })
        } else {
            match expr_of(node.children[1]) {
                Err(failure) => Err(failure),
                Ok(expr) => Ok(
                    Model::IsGlobal { ident: node.children[0].text, expr: Box::new(expr) },
                ),
            }
        },
        Rule::String => match string_of(node.text) {
            Some(content) => Ok(Model::Str(content)),
            None => Err(Failure::TypeCoercion { rule: node.rule, text: node.text }),
        },
        _ => Err(Failure::UnexpectedRule { rule: node.rule }),
    }
}

/// The node that a term node builds.
pub open spec fn term_of(node: Tree<Rule>) -> Result<Model, Failure>
    decreases node, 1int,
{
    match node.rule {
        Rule::Integer => match integer_of(node.text) {
            Some(value) => Ok(Model::Integer(value)),
            None => Err(Failure::TypeCoercion { rule: node.rule, text: node.text }),
        },
        Rule::Decimal => match decimal_of(node.text) {
            Some((negative, literal)) => Ok(Model::DoublePrecisionFloat { negative, literal }),
            None => Err(Failure::TypeCoercion { rule: node.rule, text: node.text }),
        },
        Rule::Expr => expr_of(node),
        Rule::Ident => Ok(Model::Ident(node.text)),
        _ => Err(Failure::UnexpectedRule { rule: node.rule }),
    }
}

/// The nodes that a sequence of term nodes builds: all of them in order, or the
/// failure of the first that fails.
pub open spec fn terms_of(nodes: Seq<Tree<Rule>>) -> Result<Seq<Model>, Failure>
    decreases nodes, 2int,
{
    if nodes.len() == 0 {
        Ok(Seq::empty())
    } else {
        match terms_of(nodes.drop_last()) {
            Err(failure) => Err(failure),
            Ok(terms) => match term_of(nodes.last()) {
                Err(failure) => Err(failure),
                Ok(term) => Ok(terms.push(term)),
            },
        }
    }
}

/// What one top-level node adds to a program: the printing of its expression, or
/// nothing where it is no expression.
pub open spec fn statement_of(node: Tree<Rule>) -> Result<Option<Model>, Failure> {
    if node.rule == Rule::Expr {
        match expr_of(node) {
            Ok(expr) => Ok(Some(Model::Print(Box::new(expr)))),
            Err(failure) => Err(failure),
        }
    } else {
        Ok(None)
    }
}

/// The program that a sequence of top-level nodes builds: the statements of its
/// expressions in source order, or the failure of the first node that fails.
pub open spec fn program_of(nodes: Seq<Tree<Rule>>) -> Result<Seq<Model>, Failure>
    decreases nodes.len(),
{
    if nodes.len() == 0 {
        Ok(Seq::empty())
    } else {
        match program_of(nodes.drop_last()) {
            Err(failure) => Err(failure),
            Ok(statements) => match statement_of(nodes.last()) {
                Err(failure) => Err(failure),
                Ok(None) => Ok(statements),
                Ok(Some(statement)) => Ok(statements.push(statement)),
            },
        }
    }
}

/// A failure among the first nodes is the failure of the whole program.
pub proof fn lemma_program_prefix_fails(nodes: Seq<Tree<Rule>>, k: int)
    requires
        0 <= k <= nodes.len(),
        program_of(nodes.take(k)) is Err,
    ensures
        program_of(nodes) == program_of(nodes.take(k)),
    decreases nodes.len(),
{
    if k == nodes.len() {
        assert(nodes.take(k) == nodes);
    } else {
        assert(nodes.drop_last().take(k) == nodes.take(k));
        lemma_program_prefix_fails(nodes.drop_last(), k);
    }
}

/// A failure among the first terms is the failure of them all.
pub proof fn lemma_terms_prefix_fails(nodes: Seq<Tree<Rule>>, k: int)
    requires
        0 <= k <= nodes.len(),
        terms_of(nodes.take(k)) is Err,
    ensures
        terms_of(nodes) == terms_of(nodes.take(k)),
    decreases nodes.len(),
{
    if k == nodes.len() {
        assert(nodes.take(k) == nodes);
    } else {
        assert(nodes.drop_last().take(k) == nodes.take(k));
        lemma_terms_prefix_fails(nodes.drop_last(), k);
    }
}

} // verus!
