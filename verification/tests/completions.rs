use cratelite::completion::{
    answer, crate_items, feature_items, is_cargo_toml, requested_context, trigger_characters,
    version_item, Answer, CompletionItem, Documents, ItemKind,
};
use cratelite::crate_index::CrateIndex;
use cratelite::position::{Position, Range};
use cratelite::toml_context::{
    CompletionContext, CrateNameContext, FeatureCompletionContext, VersionContext,
};

const RANGE: Range = Range {
    start: Position { line: 3, character: 5 },
    end: Position { line: 3, character: 8 },
};

fn strings(list: &[&str]) -> Vec<String> {
    list.iter().map(|s| s.to_string()).collect()
}

fn labels(items: &[CompletionItem]) -> Vec<String> {
    items.iter().map(|i| i.label.clone()).collect()
}

fn feature(prefix: &str, selected: &[&str]) -> FeatureCompletionContext {
    FeatureCompletionContext {
        crate_name: "serde".to_string(),
        version_requirement: "1".to_string(),
        feature_prefix: prefix.to_string(),
        range: RANGE,
        selected_features: strings(selected),
    }
}

fn version(crate_name: &str, prefix: &str) -> VersionContext {
    VersionContext {
        crate_name: crate_name.to_string(),
        version_prefix: prefix.to_string(),
        range: RANGE,
    }
}

fn index() -> CrateIndex {
    let mut index = CrateIndex::new();
    index.build_index("serde 1.0.200\ntokio 1.40.0\nserde_json 1.0.100\n");
    index
}

#[test]
fn paths_of_cargo_toml() {
    assert!(is_cargo_toml("/home/me/Cargo.toml"));
    assert!(is_cargo_toml("/HOME/CARGO.TOML"));
    assert!(is_cargo_toml("my-cargo.toml"));
    assert!(!is_cargo_toml("/home/me/Cargo.lock"));
    assert!(!is_cargo_toml("toml"));
}

#[test]
fn documents_are_kept() {
    let mut docs = Documents::new();
    assert!(docs.get("a").is_none());
    docs.open("a".to_string(), "one".to_string());
    docs.open("b".to_string(), "two".to_string());
    assert_eq!(docs.get("a").unwrap(), "one");
    docs.change("a".to_string(), strings(&["x", "y"]));
    assert_eq!(docs.get("a").unwrap(), "y");
    docs.change("a".to_string(), vec![]);
    assert_eq!(docs.get("a").unwrap(), "y");
    assert_eq!(docs.get("b").unwrap(), "two");
    docs.close("a");
    assert!(docs.get("a").is_none());
    assert_eq!(docs.get("b").unwrap(), "two");
    // A change opens a document that is not open.
    docs.change("c".to_string(), strings(&["three"]));
    assert_eq!(docs.get("c").unwrap(), "three");
    docs.close("nothing");
}

#[test]
fn requests_in_documents() {
    let mut docs = Documents::new();
    docs.open("u".to_string(), "[dependencies]\nser".to_string());
    match requested_context(&docs, "u", "/x/Cargo.toml", 1, 3) {
        Some(CompletionContext::CrateName(c)) => assert_eq!(c.prefix, "ser"),
        _ => panic!(),
    }
    assert!(requested_context(&docs, "u", "/x/other.toml", 1, 3).is_none());
    assert!(requested_context(&docs, "v", "/x/Cargo.toml", 1, 3).is_none());
    assert!(requested_context(&docs, "u", "/x/Cargo.toml", 2, 0).is_none());
}

#[test]
fn features_that_are_offered() {
    let features = strings(&["alloc", "default", "derive", "derive_more", "rc"]);
    let items = feature_items(Some(&features), &feature("de", &["derive"]));
    assert_eq!(labels(&items), strings(&["default", "derive_more"]));
    for item in &items {
        assert_eq!(item.kind, ItemKind::Value);
        assert_eq!(item.new_text, item.label);
        assert_eq!(item.range, RANGE);
        assert!(item.detail.is_none());
        assert!(item.sort_text.is_none());
    }
    assert_eq!(labels(&feature_items(Some(&features), &feature("", &[]))), features);
    assert!(feature_items(Some(&features), &feature("x", &[])).is_empty());
    assert!(feature_items(None, &feature("", &[])).is_empty());
}

#[test]
fn crates_that_are_offered() {
    let name = CrateNameContext { prefix: "se".to_string(), start_character: 2, end_character: 7 };
    let items = crate_items(&index().search("se", 10), 4, &name);
    assert_eq!(labels(&items), strings(&["serde", "serde_json"]));
    assert_eq!(items[1].detail.as_deref(), Some("v1.0.100"));
    assert_eq!(items[1].sort_text.as_deref(), Some("00000002"));
    assert_eq!(items[1].kind, ItemKind::Module);
    assert_eq!(items[1].new_text, "serde_json");
    assert_eq!(
        items[1].range,
        Range {
            start: Position { line: 4, character: 2 },
            end: Position { line: 4, character: 7 },
        }
    );
    assert!(items[0].sort_text < items[1].sort_text);
}

#[test]
fn version_that_is_offered() {
    let item = version_item(Some("1.0.200".to_string()), &version("serde", "1.0")).unwrap();
    assert_eq!(item.label, "1.0.200");
    assert_eq!(item.new_text, "1.0.200");
    assert_eq!(item.range, RANGE);
    assert_eq!(item.kind, ItemKind::Value);
    assert!(version_item(Some("1.0.200".to_string()), &version("serde", "2")).is_none());
    assert!(version_item(None, &version("serde", "")).is_none());
}

#[test]
fn answers_to_crate_names() {
    let name = CrateNameContext { prefix: "tok".to_string(), start_character: 0, end_character: 3 };
    match answer(&index(), 1, CompletionContext::CrateName(name)).unwrap() {
        Answer::Incomplete(items) => assert_eq!(labels(&items), strings(&["tokio"])),
        _ => panic!(),
    }
    let name = CrateNameContext { prefix: "t".to_string(), start_character: 0, end_character: 1 };
    match answer(&index(), 1, CompletionContext::CrateName(name)).unwrap() {
        Answer::Incomplete(items) => assert!(items.is_empty()),
        _ => panic!(),
    }
}

#[test]
fn at_most_thirty_crates_are_offered() {
    let mut content = String::new();
    for i in 0..40 {
        content.push_str(&format!("crate{} 1.0.{}\n", i, i));
    }
    let mut index = CrateIndex::new();
    index.build_index(&content);
    let name = CrateNameContext { prefix: "crate".to_string(), start_character: 0, end_character: 5 };
    match answer(&index, 1, CompletionContext::CrateName(name)).unwrap() {
        Answer::Incomplete(items) => {
            assert_eq!(items.len(), 30);
            assert_eq!(items[29].label, "crate29");
        }
        _ => panic!(),
    }
}

#[test]
fn answers_to_versions_and_features() {
    match answer(&index(), 1, CompletionContext::Version(version("Serde", "1."))).unwrap() {
        Answer::Items(items) => assert_eq!(labels(&items), strings(&["1.0.200"])),
        _ => panic!(),
    }
    let none = answer(&index(), 1, CompletionContext::Version(version("serde", "2")));
    assert!(matches!(none, Some(Answer::Nothing)));
    let none = answer(&index(), 1, CompletionContext::Version(version("unknown", "")));
    assert!(matches!(none, Some(Answer::Nothing)));
    match answer(&index(), 1, CompletionContext::Feature(feature("de", &["rc"]))).unwrap() {
        Answer::Features(c) => assert_eq!((c.feature_prefix.as_str(), c.selected_features), ("de", strings(&["rc"]))),
        _ => panic!(),
    }
}

#[test]
fn crates_that_cannot_be_asked_for() {
    assert!(answer(&index(), 1, CompletionContext::Version(version("日本", ""))).is_none());
    let name = CrateNameContext { prefix: "日".to_string(), start_character: 0, end_character: 3 };
    assert!(answer(&index(), 1, CompletionContext::CrateName(name)).is_none());
    let found = answer(&index(), 1, CompletionContext::Version(version("tokio", "1")));
    assert!(matches!(found, Some(Answer::Items(_))));
    let found = answer(&index(), 1, CompletionContext::Feature(feature("", &[])));
    assert!(matches!(found, Some(Answer::Features(_))));
}

#[test]
fn characters_that_ask_for_completions() {
    let expected: Vec<String> =
        ['"', '\'', ',', '-', '_'].into_iter().chain('a'..='z').map(|c| c.to_string()).collect();
    assert_eq!(trigger_characters(), expected);
}

#[test]
fn from_a_document_to_its_items() {
    let mut docs = Documents::new();
    docs.open("u".to_string(), "[dependencies]\ntokio = \"1\"\nserde".to_string());
    let index = index();
    let typed = requested_context(&docs, "u", "/Cargo.toml", 1, 10).unwrap();
    match answer(&index, 1, typed).unwrap() {
        Answer::Items(items) => {
            assert_eq!(items[0].label, "1.40.0");
            assert_eq!(
                items[0].range,
                Range {
                    start: Position { line: 1, character: 9 },
                    end: Position { line: 1, character: 10 },
                }
            );
        }
        _ => panic!(),
    }
    let typed = requested_context(&docs, "u", "/Cargo.toml", 2, 5).unwrap();
    match answer(&index, 2, typed).unwrap() {
        Answer::Incomplete(items) => assert_eq!(labels(&items), strings(&["serde", "serde_json"])),
        _ => panic!(),
    }
}
