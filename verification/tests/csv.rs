use ast_builders::csv::{parse_csv_to_map, CsvError, Rule};
use ast_builders::tree::Node;
use std::collections::HashMap;

fn record<'a>(fields: Vec<&'a str>) -> Node<'a, Rule> {
    let children = fields.into_iter().map(|text| Node::leaf(Rule::Field, text)).collect();
    Node::parent(Rule::Record, "", "", children)
}

fn file<'a>(children: Vec<Node<'a, Rule>>) -> Node<'a, Rule> {
    Node::parent(Rule::File, "", "", children)
}

fn row(fields: &[&str]) -> Vec<String> {
    fields.iter().map(|field| field.to_string()).collect()
}

#[test]
fn records_are_numbered_from_one() {
    let tree = file(vec![
        record(vec!["65279", "1179403647", "1463895090"]),
        record(vec!["3.1415927", "2.7182817", "1.618034"]),
        Node::leaf(Rule::Eoi, ""),
    ]);
    let map = parse_csv_to_map(&tree, 0, vec![], HashMap::new()).unwrap();
    let mut expected = HashMap::new();
    expected.insert(1, row(&["65279", "1179403647", "1463895090"]));
    expected.insert(2, row(&["3.1415927", "2.7182817", "1.618034"]));
    assert_eq!(map, expected);
}

#[test]
fn empty_table_maps_nothing() {
    let map = parse_csv_to_map(&file(vec![]), 0, vec![], HashMap::new()).unwrap();
    assert!(map.is_empty());
    let only_end = file(vec![Node::leaf(Rule::Eoi, "")]);
    assert!(parse_csv_to_map(&only_end, 0, vec![], HashMap::new()).unwrap().is_empty());
}

#[test]
fn numbering_goes_on_from_the_given_count() {
    let tree = file(vec![record(vec!["a"]), record(vec!["b"])]);
    let map = parse_csv_to_map(&tree, 10, vec![], HashMap::new()).unwrap();
    let mut expected = HashMap::new();
    expected.insert(11, row(&["a"]));
    expected.insert(12, row(&["b"]));
    assert_eq!(map, expected);
}

#[test]
fn pending_fields_go_in_front_of_the_first_record() {
    let tree = file(vec![record(vec!["a"]), record(vec!["b"])]);
    let map = parse_csv_to_map(&tree, 0, row(&["x", "y"]), HashMap::new()).unwrap();
    let mut expected = HashMap::new();
    expected.insert(1, row(&["x", "y", "a"]));
    expected.insert(2, row(&["b"]));
    assert_eq!(map, expected);
}

#[test]
fn record_without_fields_takes_a_number_and_adds_no_row() {
    let tree = file(vec![record(vec![]), record(vec!["b"])]);
    let map = parse_csv_to_map(&tree, 0, row(&["x"]), HashMap::new()).unwrap();
    let mut expected = HashMap::new();
    expected.insert(2, row(&["b"]));
    assert_eq!(map, expected);
}

#[test]
fn rows_are_added_to_the_given_map() {
    let mut given = HashMap::new();
    given.insert(1, row(&["old"]));
    given.insert(7, row(&["kept"]));
    let tree = file(vec![record(vec!["new"])]);
    let map = parse_csv_to_map(&tree, 0, vec![], given).unwrap();
    let mut expected = HashMap::new();
    expected.insert(1, row(&["new"]));
    expected.insert(7, row(&["kept"]));
    assert_eq!(map, expected);
}

#[test]
fn other_nodes_stop_the_walk() {
    let tree = file(vec![record(vec!["a"]), Node::leaf(Rule::Field, "b"), record(vec!["c"])]);
    assert_eq!(
        parse_csv_to_map(&tree, 0, vec![], HashMap::new()),
        Err(CsvError::UnexpectedRule { rule: Rule::Field })
    );
    let tree = file(vec![Node::leaf(Rule::File, "")]);
    assert_eq!(
        parse_csv_to_map(&tree, 0, vec![], HashMap::new()),
        Err(CsvError::UnexpectedRule { rule: Rule::File })
    );
}

#[test]
fn counter_at_its_limit_stops_the_walk() {
    let tree = file(vec![record(vec!["a"])]);
    assert_eq!(
        parse_csv_to_map(&tree, u64::MAX, vec![], HashMap::new()),
        Err(CsvError::TooManyRecords)
    );
    let tree = file(vec![record(vec!["a"]), record(vec!["b"])]);
    assert_eq!(
        parse_csv_to_map(&tree, u64::MAX - 1, vec![], HashMap::new()),
        Err(CsvError::TooManyRecords)
    );
    let tree = file(vec![Node::leaf(Rule::Eoi, "")]);
    assert!(parse_csv_to_map(&tree, u64::MAX, vec![], HashMap::new()).is_ok());
}
