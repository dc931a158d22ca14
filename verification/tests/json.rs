use ast_builders::json::{parse_json_file, parse_value, serialize_jsonvalue};
use ast_builders::json::{JSONValue, JsonError, Rule};
use ast_builders::tree::Node;

fn leaf(rule: Rule, text: &str) -> Node<'_, Rule> {
    Node::leaf(rule, text)
}

fn branch<'a>(rule: Rule, children: Vec<Node<'a, Rule>>) -> Node<'a, Rule> {
    Node::parent(rule, "", "", children)
}

fn string(content: &str) -> Node<'_, Rule> {
    branch(Rule::String, vec![leaf(Rule::Inner, content)])
}

fn member<'a>(name: &'a str, value: Node<'a, Rule>) -> Node<'a, Rule> {
    branch(Rule::Pair, vec![string(name), value])
}

#[test]
fn scalars_build_their_values() {
    assert_eq!(parse_value(&leaf(Rule::Null, "null")), Ok(JSONValue::Null));
    assert_eq!(parse_value(&leaf(Rule::Boolean, "true")), Ok(JSONValue::Boolean(true)));
    assert_eq!(parse_value(&leaf(Rule::Boolean, "false")), Ok(JSONValue::Boolean(false)));
    assert_eq!(parse_value(&leaf(Rule::Number, "-1.5e3")), Ok(JSONValue::Number("-1.5e3")));
    assert_eq!(parse_value(&string("a \\\"b")), Ok(JSONValue::String("a \\\"b")));
}

#[test]
fn number_literal_has_the_value_it_spells() {
    match parse_value(&leaf(Rule::Number, "-273.15")) {
        Ok(JSONValue::Number(text)) => assert_eq!(text.parse::<f64>(), Ok(-273.15)),
        other => panic!("not a number: {:?}", other),
    }
}

#[test]
fn bad_json_literals_are_coercion_errors() {
    assert_eq!(
        parse_value(&leaf(Rule::Number, "12x")),
        Err(JsonError::TypeCoercion { rule: Rule::Number, text: "12x" })
    );
    assert_eq!(
        parse_value(&leaf(Rule::Boolean, "TRUE")),
        Err(JsonError::TypeCoercion { rule: Rule::Boolean, text: "TRUE" })
    );
}

#[test]
fn json_string_without_inner_text_is_malformed() {
    assert_eq!(
        parse_value(&leaf(Rule::String, "\"\"")),
        Err(JsonError::MalformedTree { rule: Rule::String })
    );
}

#[test]
fn rules_that_are_no_value_are_unexpected() {
    for rule in [
        Rule::Json,
        Rule::Pair,
        Rule::Value,
        Rule::Inner,
        Rule::Char,
        Rule::Whitespace,
        Rule::Eoi,
    ] {
        assert_eq!(parse_value(&leaf(rule, "")), Err(JsonError::UnexpectedRule { rule }));
    }
}

#[test]
fn arrays_build_their_elements_in_order() {
    let node = branch(
        Rule::Array,
        vec![
            leaf(Rule::Number, "1"),
            branch(Rule::Array, vec![leaf(Rule::Number, "2"), leaf(Rule::Null, "null")]),
            string("x"),
        ],
    );
    assert_eq!(
        parse_value(&node),
        Ok(JSONValue::Array(vec![
            JSONValue::Number("1"),
            JSONValue::Array(vec![JSONValue::Number("2"), JSONValue::Null]),
            JSONValue::String("x"),
        ]))
    );
    assert_eq!(parse_value(&leaf(Rule::Array, "[]")), Ok(JSONValue::Array(vec![])));
}

#[test]
fn objects_keep_their_members_in_order() {
    let node = branch(
        Rule::Object,
        vec![
            member("b", leaf(Rule::Number, "1")),
            member("a", branch(Rule::Object, vec![member("c", leaf(Rule::Null, "null"))])),
            member("b", leaf(Rule::Boolean, "true")),
        ],
    );
    assert_eq!(
        parse_json_file(&node),
        Ok(JSONValue::Object(vec![
            ("b", JSONValue::Number("1")),
            ("a", JSONValue::Object(vec![("c", JSONValue::Null)])),
            ("b", JSONValue::Boolean(true)),
        ]))
    );
    assert_eq!(parse_value(&leaf(Rule::Object, "{}")), Ok(JSONValue::Object(vec![])));
}

#[test]
fn members_missing_a_child_are_malformed() {
    let no_children = branch(Rule::Object, vec![leaf(Rule::Pair, "")]);
    assert_eq!(parse_value(&no_children), Err(JsonError::MalformedTree { rule: Rule::Pair }));
    let name_without_text = branch(
        Rule::Object,
        vec![branch(Rule::Pair, vec![leaf(Rule::String, "\"\""), leaf(Rule::Null, "null")])],
    );
    assert_eq!(
        parse_value(&name_without_text),
        Err(JsonError::MalformedTree { rule: Rule::String })
    );
    let no_value = branch(Rule::Object, vec![branch(Rule::Pair, vec![string("a")])]);
    assert_eq!(parse_value(&no_value), Err(JsonError::MalformedTree { rule: Rule::Pair }));
}

#[test]
fn first_json_failure_in_tree_order_is_reported() {
    let node = branch(
        Rule::Array,
        vec![
            leaf(Rule::Number, "1"),
            branch(Rule::Object, vec![member("a", leaf(Rule::Boolean, "no"))]),
            leaf(Rule::Number, "x"),
        ],
    );
    assert_eq!(
        parse_value(&node),
        Err(JsonError::TypeCoercion { rule: Rule::Boolean, text: "no" })
    );
}

#[test]
fn scalars_are_written_compactly() {
    assert_eq!(serialize_jsonvalue(&JSONValue::Null), "null");
    assert_eq!(serialize_jsonvalue(&JSONValue::Boolean(true)), "true");
    assert_eq!(serialize_jsonvalue(&JSONValue::Boolean(false)), "false");
    assert_eq!(serialize_jsonvalue(&JSONValue::Number("3.14")), "3.14");
    assert_eq!(serialize_jsonvalue(&JSONValue::String("a b")), "\"a b\"");
    assert_eq!(serialize_jsonvalue(&JSONValue::String("")), "\"\"");
}

#[test]
fn containers_are_written_with_commas_between() {
    assert_eq!(serialize_jsonvalue(&JSONValue::Array(vec![])), "[]");
    assert_eq!(serialize_jsonvalue(&JSONValue::Object(vec![])), "{}");
    assert_eq!(serialize_jsonvalue(&JSONValue::Array(vec![JSONValue::Null])), "[null]");
    let value = JSONValue::Object(vec![
        ("a", JSONValue::Number("1")),
        (
            "b",
            JSONValue::Array(vec![
                JSONValue::Boolean(true),
                JSONValue::String("x"),
                JSONValue::Object(vec![("c", JSONValue::Null)]),
            ]),
        ),
        ("a", JSONValue::Array(vec![])),
    ]);
    assert_eq!(
        serialize_jsonvalue(&value),
        "{\"a\":1,\"b\":[true,\"x\",{\"c\":null}],\"a\":[]}"
    );
}

#[test]
fn built_value_is_written_back() {
    let node = branch(
        Rule::Object,
        vec![
            member("name", string("pest")),
            member("tags", branch(Rule::Array, vec![string("a"), leaf(Rule::Number, "2")])),
        ],
    );
    let value = parse_json_file(&node).unwrap();
    assert_eq!(serialize_jsonvalue(&value), "{\"name\":\"pest\",\"tags\":[\"a\",2]}");
}

#[test]
fn copied_values_are_equal_to_what_they_copy() {
    let value = JSONValue::Object(vec![
        ("a", JSONValue::Array(vec![JSONValue::Number("1"), JSONValue::Null])),
        ("b", JSONValue::Object(vec![("c", JSONValue::String("d"))])),
        ("e", JSONValue::Boolean(true)),
    ]);
    assert_eq!(value.clone(), value);
}
