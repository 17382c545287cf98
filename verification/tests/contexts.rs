use cratelite::position::{Position, Range};
use cratelite::toml_context::{
    find_inline_dep_start, get_completion_context, get_crate_name_context,
    get_feature_completion_context, get_inline_version_context, get_version_context,
    is_in_dependencies_section, is_typing_crate_name, CompletionContext,
};

fn range(from: (u32, u32), to: (u32, u32)) -> Range {
    Range {
        start: Position { line: from.0, character: from.1 },
        end: Position { line: to.0, character: to.1 },
    }
}

#[test]
fn sections_of_dependencies() {
    for name in [
        "dependencies",
        "dev-dependencies",
        "build-dependencies",
        "workspace.dependencies",
        "target.'cfg(unix)'.dependencies",
        "target.x.dev-dependencies",
        "target.x.build-dependencies",
        " Dependencies ",
    ] {
        let text = format!("[{}] # note\nserde = 1\n\n", name);
        for line in 0..5 {
            assert!(is_in_dependencies_section(&text, line));
        }
    }
    for name in ["package", "dependencies.serde", "features", "mydependencies", ""] {
        let text = format!("[dependencies]\n[{}]\nserde = 1", name);
        assert!(is_in_dependencies_section(&text, 0));
        assert!(!is_in_dependencies_section(&text, 1));
        assert!(!is_in_dependencies_section(&text, 2));
    }
}

#[test]
fn headers_that_do_not_count() {
    // A header of an array of tables does not end a section.
    assert!(is_in_dependencies_section("[dependencies]\n[[bin]]\nx", 2));
    // Nor does a header in a comment start one.
    assert!(!is_in_dependencies_section("# [dependencies]\nx", 1));
    assert!(!is_in_dependencies_section("x = 1", 0));
    // An empty line has no header.
    assert!(!is_in_dependencies_section("\n", 0));
}

#[test]
fn typing_a_crate_name() {
    assert!(is_typing_crate_name("serde", 3));
    assert!(is_typing_crate_name("  serde", 7));
    assert!(is_typing_crate_name("", 0));
    assert!(is_typing_crate_name("serde = \"1\"", 5));
    assert!(!is_typing_crate_name("serde = \"1\"", 7));
    assert!(is_typing_crate_name("[dep", 4));
    assert!(is_typing_crate_name("a b", 3));
    assert!(is_typing_crate_name("foo.bar", 7));
    // The sign itself is not before a cursor that stands on it.
    assert!(is_typing_crate_name("serde=", 5));
    assert!(!is_typing_crate_name("serde=", 6));
    assert!(!is_typing_crate_name("serde=", 99));
    // The cursor may be in the middle of a character.
    assert!(is_typing_crate_name("é = 1", 1));
    assert!(is_typing_crate_name("serde", 99));
}

#[test]
fn crate_name_around_the_cursor() {
    let c = get_crate_name_context("  serde_json = 1", 7);
    assert_eq!(c.prefix, "serde");
    assert_eq!((c.start_character, c.end_character), (2, 12));
    let c = get_crate_name_context("  serde", 0);
    assert_eq!(c.prefix, "");
    assert_eq!((c.start_character, c.end_character), (0, 0));
    let c = get_crate_name_context("se", 99);
    assert_eq!(c.prefix, "se");
    assert_eq!((c.start_character, c.end_character), (0, 2));
}

#[test]
fn plain_versions() {
    let text = "[dependencies]\nserde = \"1.0\" # note";
    let c = get_version_context(text, 1, 11).unwrap();
    assert_eq!(c.crate_name, "serde");
    assert_eq!(c.version_prefix, "1.");
    assert_eq!(c.range, range((1, 9), (1, 12)));
    // Both ends of the string belong to it.
    assert_eq!(get_version_context(text, 1, 9).unwrap().version_prefix, "");
    assert_eq!(get_version_context(text, 1, 12).unwrap().version_prefix, "1.0");
    assert!(get_version_context(text, 1, 8).is_none());
    assert!(get_version_context(text, 1, 13).is_none());
    // There is nothing to complete before the sign, in another line, or behind the last line.
    assert!(get_version_context(text, 1, 3).is_none());
    assert!(get_version_context(text, 0, 5).is_none());
    assert!(get_version_context(text, 2, 0).is_none());
}

#[test]
fn versions_in_odd_places() {
    assert!(get_version_context("a b = \"1\"", 0, 7).is_none());
    assert!(get_version_context(" = \"1\"", 0, 4).is_none());
    assert!(get_version_context("serde = 1", 0, 8).is_none());
    assert!(get_version_context("serde =\t\"1\"", 0, 9).is_none());
    let c = get_version_context("serde = '1", 0, 10).unwrap();
    assert_eq!(c.version_prefix, "1");
    assert_eq!(c.range, range((0, 9), (0, 10)));
    for key in ["version", "path", "git", "branch", "tag", "rev", "edition"] {
        let line = format!("{} = \"1\"", key);
        assert!(get_version_context(&line, 0, line.len() as u32 - 1).is_none());
    }
}

#[test]
fn start_of_an_inline_table() {
    let text = "[dependencies]\nserde = { version = \"1\",\n  features = [\"de\"] }\n";
    let s = find_inline_dep_start(text, 2, 16).unwrap();
    assert_eq!(s.dep_key, "serde");
    assert_eq!(s.open_brace, 23);
    assert_eq!(&text[s.open_brace..s.open_brace + 1], "{");
    // Behind the table there is none.
    assert!(find_inline_dep_start(text, 3, 0).is_none());
    // On the brace there is none yet.
    assert!(find_inline_dep_start(text, 1, 8).is_none());
    assert!(find_inline_dep_start(text, 1, 9).is_some());
    assert!(find_inline_dep_start("serde = { version", 0, 12).is_none());
    // A header above ends the search.
    assert!(find_inline_dep_start("a = {\n[x]\n}", 2, 0).is_none());
}

#[test]
fn versions_of_inline_tables() {
    let text = "[dependencies]\nserde = { version = \"1.0\", optional = true }";
    let c = get_inline_version_context(text, 1, 22).unwrap();
    assert_eq!(c.crate_name, "serde");
    assert_eq!(c.version_prefix, "1");
    assert_eq!(c.range, range((1, 21), (1, 24)));
    assert!(get_inline_version_context(text, 1, 30).is_none());
    let renamed = "[dependencies]\nx = { package = \"serde\", version = \"1\" }";
    assert_eq!(get_inline_version_context(renamed, 1, 36).unwrap().crate_name, "serde");
    let elsewhere = "[package]\nserde = { version = \"1.0\" }";
    assert!(get_inline_version_context(elsewhere, 1, 22).is_none());
}

#[test]
fn features_of_inline_tables() {
    let text = "[dependencies]\nserde = { version = \"1\", features = [\"derive\", \"r\"] }";
    let c = get_feature_completion_context(text, 1, 49).unwrap();
    assert_eq!(c.crate_name, "serde");
    assert_eq!(c.version_requirement, "1");
    assert_eq!(c.feature_prefix, "r");
    assert_eq!(c.range, range((1, 48), (1, 49)));
    assert_eq!(c.selected_features, vec!["derive"]);
    // Without a version there is nothing to look up.
    let bare = "[dependencies]\nserde = { features = [\"d\"] }";
    assert!(get_feature_completion_context(bare, 1, 24).is_none());
    let blank = "[dependencies]\nserde = { version = \" \", features = [\"d\"] }";
    assert!(get_feature_completion_context(blank, 1, 39).is_none());
    let elsewhere = "[package]\nserde = { version = \"1\", features = [\"d\"] }";
    assert!(get_feature_completion_context(elsewhere, 1, 39).is_none());
}

#[test]
fn features_over_several_lines() {
    let text = "[dependencies]\ntokio = { version = \"1\", features = [\n  \"rt\", # one\n  \"ma\",\n] }\n";
    let c = get_feature_completion_context(text, 3, 5).unwrap();
    assert_eq!(c.crate_name, "tokio");
    assert_eq!(c.feature_prefix, "ma");
    assert_eq!(c.range, range((3, 3), (3, 5)));
    assert_eq!(c.selected_features, vec!["rt"]);
}

#[test]
fn completion_contexts() {
    let text = "[dependencies]\nser\nserde = \"1\"\nx = { version = \"2\", features = [\"f\"] }\n";
    match get_completion_context(text, 1, 2) {
        Some(CompletionContext::CrateName(c)) => {
            assert_eq!(c.prefix, "se");
            assert_eq!((c.start_character, c.end_character), (0, 3));
        }
        _ => panic!(),
    }
    match get_completion_context(text, 2, 10) {
        Some(CompletionContext::Version(c)) => {
            assert_eq!((c.crate_name.as_str(), c.version_prefix.as_str()), ("serde", "1"));
        }
        _ => panic!(),
    }
    match get_completion_context(text, 3, 18) {
        Some(CompletionContext::Version(c)) => {
            assert_eq!((c.crate_name.as_str(), c.version_prefix.as_str()), ("x", "2"));
        }
        _ => panic!(),
    }
    match get_completion_context(text, 3, 35) {
        Some(CompletionContext::Feature(c)) => {
            assert_eq!((c.crate_name.as_str(), c.feature_prefix.as_str()), ("x", "f"));
        }
        _ => panic!(),
    }
    // Behind the last line ending a name can be typed.
    assert!(matches!(get_completion_context(text, 4, 0), Some(CompletionContext::CrateName(_))));
}

#[test]
fn no_section_in_an_empty_document() {
    for line in [0, 1, u32::MAX] {
        assert!(!is_in_dependencies_section("", line));
        assert!(get_inline_version_context("", line, 0).is_none());
        assert!(get_feature_completion_context("", line, 0).is_none());
        assert!(get_version_context("", line, 0).is_none());
    }
}

#[test]
fn nothing_behind_the_last_line() {
    let table = "[dependencies]\nx = { version = \"2\", features = [\"f\"] }";
    for text in ["[dependencies]", table] {
        for line in [2, 5, u32::MAX] {
            assert!(get_inline_version_context(text, line, 0).is_none());
            assert!(get_feature_completion_context(text, line, 0).is_none());
            assert!(get_version_context(text, line, 0).is_none());
            assert!(get_completion_context(text, line, 0).is_none());
        }
    }
}

#[test]
fn crate_names_are_offered_behind_names_only() {
    for line in ["foo.bar", "[dep", "a b", "\"x", "# x"] {
        let text = format!("[dependencies]\n{}", line);
        assert!(is_typing_crate_name(line, line.len() as u32));
        assert!(!matches!(
            get_completion_context(&text, 1, line.len() as u32),
            Some(CompletionContext::CrateName(_))
        ));
    }
}

#[test]
fn no_completion_context() {
    assert!(get_completion_context("", 0, 0).is_none());
    assert!(get_completion_context("[dependencies]", 1, 0).is_none());
    assert!(get_completion_context("[package]\nname", 1, 4).is_none());
    assert!(get_completion_context("[dependencies]\nserde = 1", 1, 9).is_none());
    // The cursor is in the middle of a character.
    assert!(get_completion_context("[dependencies]\né", 1, 1).is_none());
}

#[test]
fn a_feature_comes_before_a_crate_name() {
    // In a line without a sign, the features of the table around it come first.
    let text = "[dependencies]\nx = { version = \"2\", features = [\n\"\nab\n\"] }\n";
    match get_completion_context(text, 3, 1) {
        Some(CompletionContext::Feature(c)) => assert_eq!(c.feature_prefix, "\na"),
        _ => panic!(),
    }
}
