use ast_builders::path::resolve_path;

#[test]
fn dotted_identifier_splits_into_segments() {
    assert_eq!(resolve_path("a.b.c"), vec!["a", "b", "c"]);
}

#[test]
fn text_without_dot_is_one_segment() {
    assert_eq!(resolve_path("server"), vec!["server"]);
}

#[test]
fn empty_text_is_one_empty_segment() {
    assert_eq!(resolve_path(""), vec![""]);
}

#[test]
fn neighbouring_dots_give_empty_segments() {
    assert_eq!(resolve_path("a..b"), vec!["a", "", "b"]);
    assert_eq!(resolve_path(".a."), vec!["", "a", ""]);
}

#[test]
fn segments_are_kept_verbatim() {
    assert_eq!(resolve_path(" a .B"), vec![" a ", "B"]);
    assert_eq!(resolve_path("\"a.b\".c"), vec!["\"a", "b\"", "c"]);
}

#[test]
fn segments_match_the_standard_split() {
    for text in ["", ".", "..", "a", "a.b", "a.b.c", "é.ü", "x.y.", ".x", "a b.c d"] {
        let expected: Vec<&str> = text.split(".").collect();
        assert_eq!(resolve_path(text), expected);
    }
}
