use ast_builders::jlang::{
    build_ast_from_expr, build_ast_from_term, decimal_parts, dyadic_verb, integer_value,
    monadic_verb, parse, parse_dyadic_verb, parse_monadic_verb, string_content,
};
use ast_builders::jlang::{
    AstNode, Decimal, DyadicVerb, JLangError, JLangParser, MonadicVerb, Rule,
};
use ast_builders::tree::Node;

fn leaf(rule: Rule, text: &str) -> Node<'_, Rule> {
    Node::leaf(rule, text)
}

fn branch<'a>(rule: Rule, children: Vec<Node<'a, Rule>>) -> Node<'a, Rule> {
    Node::parent(rule, "", "", children)
}

fn terms<'a>(children: Vec<Node<'a, Rule>>) -> Node<'a, Rule> {
    branch(Rule::Expr, vec![branch(Rule::Terms, children)])
}

fn integer(text: &str) -> Node<'_, Rule> {
    leaf(Rule::Integer, text)
}

#[test]
fn monadic_verbs_are_named() {
    assert_eq!(monadic_verb(">:"), Some(MonadicVerb::Increment));
    assert_eq!(monadic_verb("*:"), Some(MonadicVerb::Square));
    assert_eq!(monadic_verb("-"), Some(MonadicVerb::Negate));
    assert_eq!(monadic_verb("%"), Some(MonadicVerb::Reciprocal));
    assert_eq!(monadic_verb("#"), Some(MonadicVerb::Tally));
    assert_eq!(monadic_verb(">."), Some(MonadicVerb::Ceiling));
    assert_eq!(monadic_verb("$"), Some(MonadicVerb::ShapeOf));
}

#[test]
fn dyadic_verbs_are_named() {
    assert_eq!(dyadic_verb("+"), Some(DyadicVerb::Plus));
    assert_eq!(dyadic_verb("*"), Some(DyadicVerb::Times));
    assert_eq!(dyadic_verb("-"), Some(DyadicVerb::Minus));
    assert_eq!(dyadic_verb("<"), Some(DyadicVerb::LessThan));
    assert_eq!(dyadic_verb("="), Some(DyadicVerb::Equal));
    assert_eq!(dyadic_verb(">"), Some(DyadicVerb::LargerThan));
    assert_eq!(dyadic_verb("%"), Some(DyadicVerb::Divide));
    assert_eq!(dyadic_verb("^"), Some(DyadicVerb::Power));
    assert_eq!(dyadic_verb("|"), Some(DyadicVerb::Residue));
    assert_eq!(dyadic_verb("#"), Some(DyadicVerb::Copy));
    assert_eq!(dyadic_verb(">."), Some(DyadicVerb::LargerOf));
    assert_eq!(dyadic_verb(">:"), Some(DyadicVerb::LargerOrEqual));
    assert_eq!(dyadic_verb("$"), Some(DyadicVerb::Shape));
}

#[test]
fn other_texts_name_no_verb() {
    for text in ["", "+ ", "++", "*:", "<:", "x"] {
        assert_eq!(dyadic_verb(text), None, "{:?}", text);
    }
    for text in ["", "+", "*", "<", "=", "^", "|", ">", ">: "] {
        assert_eq!(monadic_verb(text), None, "{:?}", text);
    }
}

#[test]
fn verb_nodes_wrap_their_operands() {
    assert_eq!(
        parse_monadic_verb(&leaf(Rule::Verb, "-"), AstNode::Integer(1)),
        Ok(AstNode::MonadicOp { verb: MonadicVerb::Negate, expr: Box::new(AstNode::Integer(1)) })
    );
    assert_eq!(
        parse_dyadic_verb(&leaf(Rule::Verb, "-"), AstNode::Integer(1), AstNode::Integer(2)),
        Ok(AstNode::DyadicOp {
            verb: DyadicVerb::Minus,
            lhs: Box::new(AstNode::Integer(1)),
            rhs: Box::new(AstNode::Integer(2)),
        })
    );
    assert_eq!(
        parse_monadic_verb(&leaf(Rule::Verb, "+"), AstNode::Integer(1)),
        Err(JLangError::UnknownVerb { text: "+" })
    );
    assert_eq!(
        parse_dyadic_verb(&leaf(Rule::Verb, "*:"), AstNode::Integer(1), AstNode::Integer(2)),
        Err(JLangError::UnknownVerb { text: "*:" })
    );
}

#[test]
fn integers_take_the_negative_mark() {
    assert_eq!(integer_value("0"), Some(0));
    assert_eq!(integer_value("42"), Some(42));
    assert_eq!(integer_value("_42"), Some(-42));
    assert_eq!(integer_value("_0"), Some(0));
    assert_eq!(integer_value("007"), Some(7));
    assert_eq!(integer_value("+5"), Some(5));
    assert_eq!(integer_value("-5"), Some(-5));
    assert_eq!(integer_value("_-5"), Some(5));
    assert_eq!(integer_value("2147483647"), Some(2147483647));
    assert_eq!(integer_value("_2147483647"), Some(-2147483647));
    assert_eq!(integer_value("-2147483648"), Some(-2147483648));
}

#[test]
fn integers_out_of_range_or_malformed_have_no_value() {
    for text in [
        "", "_", "-", "+", "__1", "1_", "1.0", "x", "2147483648", "_2147483648", "-2147483649",
        "_-2147483648", "99999999999999999999", " 1", "١",
    ] {
        assert_eq!(integer_value(text), None, "{:?}", text);
    }
}

#[test]
fn integer_values_match_the_standard_conversion() {
    for text in ["0", "1", "-1", "+1", "0000000000000000000000012", "2147483647", "-2147483648", "2147483648", "-2147483649", "", "-", "+", "1a", "a1", "--1", "4294967296"] {
        assert_eq!(integer_value(text), text.parse::<i32>().ok(), "{:?}", text);
    }
}

#[test]
fn decimals_keep_their_literal_and_mark() {
    assert_eq!(
        decimal_parts("3.14"),
        Some(Decimal { negative: false, literal: "3.14".to_string() })
    );
    assert_eq!(
        decimal_parts("_3.14"),
        Some(Decimal { negative: true, literal: "3.14".to_string() })
    );
    assert_eq!(decimal_parts("_0."), Some(Decimal { negative: true, literal: "0.".to_string() }));
    assert_eq!(decimal_parts("_"), None);
    assert_eq!(decimal_parts(""), None);
    assert_eq!(decimal_parts("1.2.3"), None);
    assert_eq!(decimal_parts("__1.0"), None);
    let parts = decimal_parts("_2.50").unwrap();
    let mut value: f64 = parts.literal.parse().unwrap();
    if value != 0.0 && parts.negative {
        value = -value;
    }
    assert_eq!(value, -2.5);
}

#[test]
fn strings_lose_their_quotes_and_doubled_quotes() {
    assert_eq!(string_content("''"), Some("".to_string()));
    assert_eq!(string_content("'abc'"), Some("abc".to_string()));
    assert_eq!(string_content("'it''s'"), Some("it's".to_string()));
    assert_eq!(string_content("''''"), Some("'".to_string()));
    assert_eq!(string_content("'''''"), Some("''".to_string()));
    assert_eq!(string_content("''''''"), Some("''".to_string()));
    assert_eq!(string_content("'a''''b'"), Some("a''b".to_string()));
    assert_eq!(string_content("'é ''ü'''"), Some("é 'ü'".to_string()));
    assert_eq!(string_content("xabcx"), Some("abc".to_string()));
}

#[test]
fn string_content_matches_slicing_and_replacing() {
    for text in ["''", "'a'", "'a''b'", "'''a'", "'a'''", "''''''''", "'a'''''b''c'", "'x''''''y'"] {
        let expected = text[1..text.len() - 1].replace("''", "'");
        assert_eq!(string_content(text), Some(expected), "{:?}", text);
    }
}

#[test]
fn strings_that_cannot_be_cut_or_hold_nul_have_no_content() {
    assert_eq!(string_content(""), None);
    assert_eq!(string_content("'"), None);
    assert_eq!(string_content("é'"), None);
    assert_eq!(string_content("'é"), None);
    assert_eq!(string_content("'a\0b'"), None);
    assert_eq!(string_content("'\0'"), None);
    assert_eq!(string_content("'''\0'"), None);
}

#[test]
fn terms_build_their_nodes() {
    assert_eq!(build_ast_from_term(&integer("_7")), Ok(AstNode::Integer(-7)));
    assert_eq!(
        build_ast_from_term(&leaf(Rule::Decimal, "_1.5")),
        Ok(AstNode::DoublePrecisionFloat(Decimal { negative: true, literal: "1.5".to_string() }))
    );
    assert_eq!(
        build_ast_from_term(&leaf(Rule::Ident, "x_1")),
        Ok(AstNode::Ident("x_1".to_string()))
    );
    assert_eq!(build_ast_from_term(&terms(vec![integer("1")])), Ok(AstNode::Integer(1)));
}

#[test]
fn terms_of_other_rules_are_unexpected() {
    for rule in [
        Rule::Terms,
        Rule::String,
        Rule::Verb,
        Rule::Other,
        Rule::DyadicExpr,
        Rule::MonadicExpr,
        Rule::AssgmtExpr,
    ] {
        assert_eq!(
            build_ast_from_term(&leaf(rule, "1")),
            Err(JLangError::UnexpectedRule { rule })
        );
    }
}

#[test]
fn bad_terms_are_coercion_errors() {
    assert_eq!(
        build_ast_from_term(&integer("12x")),
        Err(JLangError::TypeCoercion { rule: Rule::Integer, text: "12x" })
    );
    assert_eq!(
        build_ast_from_term(&leaf(Rule::Decimal, "1..2")),
        Err(JLangError::TypeCoercion { rule: Rule::Decimal, text: "1..2" })
    );
    assert_eq!(
        build_ast_from_expr(&leaf(Rule::String, "'")),
        Err(JLangError::TypeCoercion { rule: Rule::String, text: "'" })
    );
}

#[test]
fn single_term_is_not_wrapped() {
    assert_eq!(build_ast_from_expr(&branch(Rule::Terms, vec![integer("5")])), Ok(AstNode::Integer(5)));
}

#[test]
fn several_terms_are_listed_in_order() {
    assert_eq!(
        build_ast_from_expr(&branch(Rule::Terms, vec![integer("1"), integer("2"), integer("3")])),
        Ok(AstNode::Terms(vec![AstNode::Integer(1), AstNode::Integer(2), AstNode::Integer(3)]))
    );
    assert_eq!(build_ast_from_expr(&leaf(Rule::Terms, "")), Ok(AstNode::Terms(vec![])));
}

#[test]
fn terms_fail_with_their_first_bad_term() {
    assert_eq!(
        build_ast_from_expr(&branch(
            Rule::Terms,
            vec![integer("1"), leaf(Rule::Verb, "+"), integer("x")]
        )),
        Err(JLangError::UnexpectedRule { rule: Rule::Verb })
    );
}

#[test]
fn monadic_expression_applies_its_verb() {
    let node = branch(Rule::MonadicExpr, vec![leaf(Rule::Verb, "*:"), terms(vec![integer("3")])]);
    assert_eq!(
        build_ast_from_expr(&node),
        Ok(AstNode::MonadicOp { verb: MonadicVerb::Square, expr: Box::new(AstNode::Integer(3)) })
    );
}

#[test]
fn dyadic_expression_applies_its_verb() {
    let node = branch(
        Rule::DyadicExpr,
        vec![
            branch(Rule::Terms, vec![integer("1"), integer("2")]),
            leaf(Rule::Verb, "+"),
            terms(vec![integer("3")]),
        ],
    );
    assert_eq!(
        build_ast_from_expr(&node),
        Ok(AstNode::DyadicOp {
            verb: DyadicVerb::Plus,
            lhs: Box::new(AstNode::Terms(vec![AstNode::Integer(1), AstNode::Integer(2)])),
            rhs: Box::new(AstNode::Integer(3)),
        })
    );
}

#[test]
fn assignment_binds_a_name() {
    let node = branch(Rule::AssgmtExpr, vec![leaf(Rule::Ident, "x"), terms(vec![integer("1")])]);
    assert_eq!(
        build_ast_from_expr(&node),
        Ok(AstNode::IsGlobal { ident: "x".to_string(), expr: Box::new(AstNode::Integer(1)) })
    );
}

#[test]
fn string_expression_holds_its_content() {
    assert_eq!(
        build_ast_from_expr(&leaf(Rule::String, "'it''s'")),
        Ok(AstNode::Str("it's".to_string()))
    );
}

#[test]
fn expressions_missing_a_child_are_malformed() {
    for rule in [Rule::Expr, Rule::DyadicExpr, Rule::MonadicExpr, Rule::AssgmtExpr] {
        assert_eq!(
            build_ast_from_expr(&leaf(rule, "")),
            Err(JLangError::MalformedTree { rule })
        );
    }
    let two = branch(Rule::DyadicExpr, vec![terms(vec![integer("1")]), leaf(Rule::Verb, "+")]);
    assert_eq!(
        build_ast_from_expr(&two),
        Err(JLangError::MalformedTree { rule: Rule::DyadicExpr })
    );
    let one = branch(Rule::MonadicExpr, vec![leaf(Rule::Verb, "-")]);
    assert_eq!(
        build_ast_from_expr(&one),
        Err(JLangError::MalformedTree { rule: Rule::MonadicExpr })
    );
}

#[test]
fn failures_come_in_tree_order() {
    let bad_left = branch(Rule::DyadicExpr, vec![integer("1")]);
    assert_eq!(
        build_ast_from_expr(&bad_left),
        Err(JLangError::UnexpectedRule { rule: Rule::Integer })
    );
    let bad_verb_and_right = branch(
        Rule::DyadicExpr,
        vec![terms(vec![integer("1")]), leaf(Rule::Verb, "?"), terms(vec![integer("x")])],
    );
    assert_eq!(
        build_ast_from_expr(&bad_verb_and_right),
        Err(JLangError::TypeCoercion { rule: Rule::Integer, text: "x" })
    );
    let bad_verb = branch(
        Rule::DyadicExpr,
        vec![terms(vec![integer("1")]), leaf(Rule::Verb, "?"), terms(vec![integer("2")])],
    );
    assert_eq!(build_ast_from_expr(&bad_verb), Err(JLangError::UnknownVerb { text: "?" }));
}

#[test]
fn expressions_of_other_rules_are_unexpected() {
    for rule in [Rule::Integer, Rule::Decimal, Rule::Ident, Rule::Verb, Rule::Other] {
        assert_eq!(
            build_ast_from_expr(&leaf(rule, "1")),
            Err(JLangError::UnexpectedRule { rule })
        );
    }
}

#[test]
fn program_prints_each_expression() {
    let program = vec![
        terms(vec![integer("1")]),
        branch(
            Rule::Expr,
            vec![branch(Rule::AssgmtExpr, vec![leaf(Rule::Ident, "x"), terms(vec![integer("2")])])],
        ),
        leaf(Rule::Other, ""),
    ];
    let expected = vec![
        AstNode::Print(Box::new(AstNode::Integer(1))),
        AstNode::Print(Box::new(AstNode::IsGlobal {
            ident: "x".to_string(),
            expr: Box::new(AstNode::Integer(2)),
        })),
    ];
    assert_eq!(parse(&program), Ok(expected));
    assert_eq!(JLangParser::program(&program).map(|ast| ast.len()), Ok(2));
}

#[test]
fn program_ignores_what_is_no_expression() {
    let program = vec![integer("x"), leaf(Rule::Verb, "?"), leaf(Rule::Other, "")];
    assert_eq!(parse(&program), Ok(vec![]));
    assert_eq!(parse(&vec![]), Ok(vec![]));
}

#[test]
fn program_fails_with_its_first_bad_expression() {
    let program = vec![
        terms(vec![integer("1")]),
        terms(vec![integer("x")]),
        leaf(Rule::Expr, ""),
    ];
    assert_eq!(parse(&program), Err(JLangError::TypeCoercion { rule: Rule::Integer, text: "x" }));
}

#[test]
fn copied_nodes_are_equal_to_what_they_copy() {
    let node = branch(
        Rule::DyadicExpr,
        vec![
            branch(Rule::Terms, vec![integer("1"), leaf(Rule::Decimal, "_2.5")]),
            leaf(Rule::Verb, "+"),
            branch(
                Rule::Expr,
                vec![branch(
                    Rule::AssgmtExpr,
                    vec![leaf(Rule::Ident, "x"), leaf(Rule::String, "'s'")],
                )],
            ),
        ],
    );
    let ast = build_ast_from_expr(&node).unwrap();
    assert_eq!(ast.clone(), ast);
    let printed = AstNode::Print(Box::new(ast));
    assert_eq!(printed.clone(), printed);
}
