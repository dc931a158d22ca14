use ast_builders::text::{chars_of, same_chars, same_text};

#[test]
fn chars_are_listed_in_order() {
    assert_eq!(chars_of("a.b"), vec!['a', '.', 'b']);
    assert_eq!(chars_of(""), Vec::<char>::new());
    assert_eq!(chars_of("é√"), vec!['é', '√']);
}

#[test]
fn same_text_compares_character_for_character() {
    assert!(same_text("true", "true"));
    assert!(same_text("", ""));
    assert!(!same_text("true", "True"));
    assert!(!same_text("true", "tru"));
    assert!(!same_text("tru", "true"));
    assert!(!same_text("a", "b"));
}

#[test]
fn same_chars_compares_slices() {
    assert!(same_chars(&['a', 'b'], &['a', 'b']));
    assert!(!same_chars(&['a', 'b'], &['a', 'c']));
    assert!(!same_chars(&['a'], &['a', 'a']));
    assert!(same_chars(&[], &[]));
}
