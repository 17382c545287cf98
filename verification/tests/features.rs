use cratelite::digits::{decimal_text, padded_text};
use cratelite::feature_index::{
    can_have_sparse_path, feature_names, keep_higher, record_lines, resolve_features, sparse_path,
    sparse_url, FeatureIndex, Lookup, SparseRecord,
};
use cratelite::sorted_names::{insert_name, str_less};

fn strings(list: &[&str]) -> Vec<String> {
    list.iter().map(|s| s.to_string()).collect()
}

fn record(vers: &str, yanked: bool, features: &[&str], features2: Option<&[&str]>) -> SparseRecord {
    SparseRecord {
        vers: vers.to_string(),
        yanked,
        features: strings(features),
        features2: features2.map(strings),
    }
}

fn known(found: Lookup) -> Option<Vec<String>> {
    match found {
        Lookup::Known(answer) => answer,
        Lookup::Fetch { name, .. } => panic!("{} is not known", name),
    }
}

#[test]
fn order_of_names() {
    for (a, b) in [("", "a"), ("a", "ab"), ("Z", "a"), ("a-", "a_"), ("z", "é"), ("é", "日")] {
        assert!(str_less(a, b));
        assert!(!str_less(b, a));
        assert!(!str_less(a, a));
        assert!(a < b);
    }
}

#[test]
fn names_are_inserted_once_and_in_order() {
    let mut names: Vec<String> = Vec::new();
    for name in ["std", "derive", "alloc", "std", "rc", "derive", ""] {
        insert_name(&mut names, name);
    }
    assert_eq!(names, strings(&["", "alloc", "derive", "rc", "std"]));
}

#[test]
fn features_of_a_record() {
    let both = record("1.0.0", false, &["std", "derive"], Some(&["serde", "derive", "alloc"]));
    assert_eq!(feature_names(&both), strings(&["alloc", "derive", "serde", "std"]));
    assert_eq!(feature_names(&record("1.0.0", false, &["b", "a"], None)), strings(&["a", "b"]));
    assert_eq!(feature_names(&record("1.0.0", false, &[], None)), strings(&[]));
}

#[test]
fn higher_candidates_are_kept() {
    assert_eq!(keep_higher(None, 3, true, true), Some(3));
    assert_eq!(keep_higher(None, 3, true, false), Some(3));
    assert_eq!(keep_higher(None, 3, false, true), None);
    assert_eq!(keep_higher(Some(1), 3, true, true), Some(3));
    assert_eq!(keep_higher(Some(1), 3, true, false), Some(1));
    assert_eq!(keep_higher(Some(1), 3, false, true), Some(1));
}

#[test]
fn highest_version_that_satisfies() {
    let records = vec![
        record("1.2.0", false, &["a"], None),
        record("1.10.0", false, &["b"], None),
        record("1.9.0", false, &["c"], None),
        record("2.0.0", false, &["d"], None),
        record("1.11.0", true, &["e"], None),
        record("1.x", false, &["f"], None),
        record("1.12.0-beta.1", false, &["g"], None),
    ];
    assert_eq!(resolve_features(&records, "1"), Some(strings(&["b"])));
    assert_eq!(resolve_features(&records, " ^1.2 "), Some(strings(&["b"])));
    assert_eq!(resolve_features(&records, "~1.2"), Some(strings(&["a"])));
    assert_eq!(resolve_features(&records, "*"), Some(strings(&["d"])));
    assert_eq!(resolve_features(&records, "<1.10"), Some(strings(&["c"])));
    assert_eq!(resolve_features(&records, "=1.12.0-beta.1"), Some(strings(&["g"])));
}

#[test]
fn no_version_satisfies() {
    let records = vec![record("1.0.0", false, &["a"], None), record("2.0.0", true, &["b"], None)];
    assert_eq!(resolve_features(&records, "2"), None);
    assert_eq!(resolve_features(&records, "3"), None);
    assert_eq!(resolve_features(&records, "nonsense"), None);
    assert_eq!(resolve_features(&records, ""), None);
    assert_eq!(resolve_features(&Vec::new(), "*"), None);
}

#[test]
fn last_of_equal_versions() {
    let records = vec![
        record("1.0.0", false, &["first"], None),
        record("1.0.0", false, &["second"], None),
        record("0.9.0", false, &["third"], None),
    ];
    assert_eq!(resolve_features(&records, ">=0.1"), Some(strings(&["second"])));
}

#[test]
fn order_of_records_does_not_matter() {
    let versions = ["0.3.1", "0.3.10", "0.3.2", "0.2.9", "0.3.10-rc.1"];
    let mut indices = vec![0usize, 1, 2, 3, 4];
    for _ in 0..5 {
        indices.rotate_left(1);
        let records: Vec<SparseRecord> =
            indices.iter().map(|&i| record(versions[i], false, &[versions[i]], None)).collect();
        assert_eq!(resolve_features(&records, "0.3"), Some(strings(&["0.3.10"])));
    }
}

#[test]
fn paths_in_the_sparse_index() {
    assert_eq!(sparse_path(""), "");
    assert_eq!(sparse_path("a"), "1/a");
    assert_eq!(sparse_path("ab"), "2/ab");
    assert_eq!(sparse_path("abc"), "3/a/abc");
    assert_eq!(sparse_path("abcd"), "ab/cd/abcd");
    assert_eq!(sparse_path("serde_json"), "se/rd/serde_json");
    assert_eq!(sparse_path("ééé"), "é/é/ééé");
    assert_eq!(sparse_url("tokio"), "https://index.crates.io/to/ki/tokio");
}

#[test]
fn names_without_a_path() {
    assert!(can_have_sparse_path(""));
    assert!(can_have_sparse_path("é"));
    assert!(can_have_sparse_path("serde"));
    assert!(!can_have_sparse_path("日"));
    assert!(!can_have_sparse_path("日本"));
    assert!(!can_have_sparse_path("aéb"));
}

#[test]
fn lines_with_records() {
    assert_eq!(record_lines("{\"a\":1}\n\n  \t\r\n {\"b\":2} \r\nx"), strings(&[
        "{\"a\":1}",
        " {\"b\":2} ",
        "x",
    ]));
    assert_eq!(record_lines(""), strings(&[]));
}

#[test]
fn features_are_fetched_once() {
    let mut index = FeatureIndex::new();
    match index.get_features(" Serde ", "1") {
        Lookup::Fetch { name, url } => {
            assert_eq!(name, "serde");
            assert_eq!(url, "https://index.crates.io/se/rd/serde");
            let reply = vec![
                Some(record("1.0.0", false, &["std", "derive"], None)),
                None,
                Some(record("2.0.0", false, &["alloc"], None)),
            ];
            let answer = index.finish_fetch(name, Some(reply), "1");
            assert_eq!(answer, Some(strings(&["derive", "std"])));
        }
        Lookup::Known(_) => panic!(),
    }
    assert_eq!(known(index.get_features("serde", "1")), Some(strings(&["derive", "std"])));
    assert_eq!(known(index.get_features("SERDE", ">=1")), Some(strings(&["alloc"])));
    assert_eq!(known(index.get_features("serde", "3")), None);
    // Another crate is not known by that.
    assert!(matches!(index.get_features("tokio", "1"), Lookup::Fetch { .. }));
}

#[test]
fn a_failed_fetch_is_not_repeated() {
    let mut index = FeatureIndex::new();
    assert_eq!(index.finish_fetch("serde".to_string(), None, "1"), None);
    assert_eq!(known(index.get_features("serde", "1")), None);
    // A later reply takes its place.
    let reply = vec![Some(record("1.0.0", false, &["std"], None))];
    assert_eq!(index.finish_fetch("serde".to_string(), Some(reply), "1"), Some(strings(&["std"])));
    assert_eq!(known(index.get_features("serde", "1")), Some(strings(&["std"])));
}

#[test]
fn no_name_has_no_features() {
    let index = FeatureIndex::new();
    assert_eq!(known(index.get_features("", "1")), None);
    assert_eq!(known(index.get_features(" \t ", "1")), None);
    assert_eq!(known(index.try_get_features("", "1").unwrap()), None);
}

#[test]
fn names_that_cannot_be_fetched() {
    let mut index = FeatureIndex::new();
    assert!(index.try_get_features("日本", "1").is_none());
    match index.try_get_features("tokio", "1") {
        Some(Lookup::Fetch { name, url }) => {
            assert_eq!((name.as_str(), url.as_str()), ("tokio", "https://index.crates.io/to/ki/tokio"));
        }
        _ => panic!(),
    }
    index.finish_fetch("日本".to_string(), None, "1");
    assert_eq!(known(index.try_get_features("日本", "1").unwrap()), None);
}

#[test]
fn numbers_as_text() {
    assert_eq!(decimal_text(0), "0");
    assert_eq!(decimal_text(9), "9");
    assert_eq!(decimal_text(10), "10");
    assert_eq!(decimal_text(usize::MAX), usize::MAX.to_string());
    assert_eq!(padded_text(0, 8), "00000000");
    assert_eq!(padded_text(1234, 8), "00001234");
    assert_eq!(padded_text(123456789, 8), "123456789");
    assert_eq!(padded_text(5, 0), "5");
}

#[test]
fn padded_numbers_sort_like_numbers() {
    let numbers = [0usize, 1, 9, 10, 11, 99, 100, 12345, 99999999];
    for pair in numbers.windows(2) {
        assert!(str_less(&padded_text(pair[0], 8), &padded_text(pair[1], 8)));
    }
}
