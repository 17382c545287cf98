use cratelite::toml_table::{parse_feature_array, parse_inline_table};

#[test]
fn feature_array_around_the_cursor() {
    let text = b"[\"derive\", \"rc\", \"al\"]";
    let a = parse_feature_array(text, 0, text.len(), 19).unwrap();
    assert_eq!(a.selected_features, vec!["derive", "rc"]);
    assert_eq!(a.feature_prefix, "a");
    assert_eq!((a.content_start, a.content_end, a.next_offset), (18, 20, 22));
}

#[test]
fn feature_array_without_the_cursor() {
    let text = b"[\"derive\", \"rc\"]";
    assert!(parse_feature_array(text, 0, text.len(), 0).is_none());
    assert!(parse_feature_array(text, 0, text.len(), 10).is_none());
    assert!(parse_feature_array(b"\"derive\"", 0, 8, 3).is_none());
    assert!(parse_feature_array(b"[\"derive\"", 0, 9, 3).is_none());
    assert!(parse_feature_array(b"[", 1, 1, 1).is_none());
}

#[test]
fn feature_array_keeps_no_empty_features() {
    let text = b"[\"\", x \"a\", '' # \"b\"\n, 'c']";
    let a = parse_feature_array(text, 0, text.len(), 8).unwrap();
    assert_eq!(a.selected_features, vec!["c"]);
    assert_eq!(a.feature_prefix, "");
    let a = parse_feature_array(text, 0, text.len(), 2).unwrap();
    assert_eq!(a.selected_features, vec!["a", "c"]);
}

#[test]
fn inline_table_with_the_cursor_in_the_version() {
    let text = b"{ package = \"real\", version = \"1.2\", optional = true }";
    let t = parse_inline_table(text, 0, text.len() - 1, 33);
    assert_eq!(t.package_name.unwrap(), "real");
    assert_eq!(t.version.unwrap(), "1.2");
    assert_eq!(t.version_cursor.unwrap(), ("1.".to_string(), 31, 34));
    assert!(t.feature_array.is_none());
}

#[test]
fn inline_table_with_the_cursor_in_a_feature() {
    let text = b"{ version = '1', default-features = false, features = [\"de\", \"rc\"] }";
    let t = parse_inline_table(text, 0, text.len() - 1, 58);
    assert!(t.package_name.is_none());
    assert_eq!(t.version.unwrap(), "1");
    assert!(t.version_cursor.is_none());
    let a = t.feature_array.unwrap();
    assert_eq!(a.selected_features, vec!["rc"]);
    assert_eq!(a.feature_prefix, "de");
    assert_eq!((a.content_start, a.content_end, a.next_offset), (56, 58, 66));
}

#[test]
fn inline_table_takes_the_last_of_equal_keys() {
    let text = b"{ version = \"1\", version = \"2\" }";
    let t = parse_inline_table(text, 0, text.len() - 1, 13);
    assert_eq!(t.version.unwrap(), "2");
    // The cursor is in the first of them.
    assert_eq!(t.version_cursor.unwrap(), ("".to_string(), 13, 14));
}

#[test]
fn inline_table_skips_what_it_does_not_know() {
    let text = b"{ ? git = { version = \"9\" }, path, version = 3, features = \"x\" }";
    let t = parse_inline_table(text, 0, text.len() - 1, 0);
    assert!(t.package_name.is_none());
    assert!(t.version.is_none());
    assert!(t.version_cursor.is_none());
    assert!(t.feature_array.is_none());
}
