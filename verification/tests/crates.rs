use cratelite::crate_index::{can_index, CacheFile, CrateEntry, CrateIndex, Refresh};
use cratelite::index_cache::{expired_since, index_text, is_cache_expired, meta_json, CACHE_TTL_SECS};
use flate2::write::GzEncoder;
use flate2::Compression;
use std::io::Write;

const CONTENT: &str = "serde 1.0.200\nSerde_json 1.0.100\n\n  tokio 1.40.0  \nx 0.1.0\nse\nserde 9.9.9\n";

fn built(content: &str) -> CrateIndex {
    assert!(can_index(content));
    let mut index = CrateIndex::new();
    index.build_index(content);
    index
}

fn found(entries: Vec<CrateEntry>) -> Vec<(String, String, usize)> {
    entries.into_iter().map(|e| (e.name, e.version, e.rank)).collect()
}

fn entry(name: &str, version: &str, rank: usize) -> (String, String, usize) {
    (name.to_string(), version.to_string(), rank)
}

fn packed(content: &[u8]) -> Vec<u8> {
    let mut encoder = GzEncoder::new(Vec::new(), Compression::default());
    encoder.write_all(content).unwrap();
    encoder.finish().unwrap()
}

#[test]
fn an_index_that_was_not_built() {
    let index = CrateIndex::new();
    assert!(!index.is_loaded());
    assert!(index.search("serde", 10).is_empty());
    assert!(index.get_latest_version("serde").is_none());
}

#[test]
fn search_by_prefix() {
    let index = built(CONTENT);
    assert!(index.is_loaded());
    assert_eq!(
        found(index.search("ser", 10)),
        vec![
            entry("serde", "1.0.200", 0),
            entry("Serde_json", "1.0.100", 1),
            entry("serde", "9.9.9", 6),
        ]
    );
    assert_eq!(found(index.search("SERDE_", 10)), vec![entry("Serde_json", "1.0.100", 1)]);
    assert_eq!(found(index.search("tokio", 10)), vec![entry("tokio", "1.40.0", 3)]);
    assert_eq!(found(index.search("tokios", 10)), vec![]);
    assert_eq!(found(index.search("zz", 10)), vec![]);
}

#[test]
fn short_names_and_queries() {
    let index = built(CONTENT);
    // A line without a version has the version 0.0.0; names of one byte are left out.
    assert_eq!(found(index.search("se", 10)).len(), 4);
    assert_eq!(index.get_latest_version("se"), Some("0.0.0".to_string()));
    assert_eq!(found(index.search("x", 10)), vec![]);
    assert_eq!(index.get_latest_version("x"), None);
    assert_eq!(found(index.search("", 10)), vec![]);
}

#[test]
fn search_stops_at_the_limit() {
    let index = built(CONTENT);
    assert_eq!(
        found(index.search("se", 2)),
        vec![entry("serde", "1.0.200", 0), entry("Serde_json", "1.0.100", 1)]
    );
    // At least one crate is found, whatever the limit.
    assert_eq!(found(index.search("se", 0)), vec![entry("serde", "1.0.200", 0)]);
}

#[test]
fn search_agrees_with_the_lines() {
    let content = "aa 1\nAab 2\nab 3\naabc 4\nbaa 5\nAA_x 6\n";
    let index = built(content);
    for query in ["aa", "aab", "AAB", "aa_", "ba", "ab", "aaa"] {
        let expected: Vec<(String, String, usize)> = content
            .lines()
            .enumerate()
            .map(|(rank, line)| (line.split(' ').next().unwrap(), line, rank))
            .filter(|(name, _, _)| name.to_lowercase().starts_with(&query.to_lowercase()))
            .map(|(name, line, rank)| entry(name, &line[name.len() + 1..], rank))
            .collect();
        assert_eq!(found(index.search(query, 100)), expected);
    }
}

#[test]
fn latest_version_is_the_first_listed() {
    let index = built(CONTENT);
    assert_eq!(index.get_latest_version("serde"), Some("1.0.200".to_string()));
    assert_eq!(index.get_latest_version("SERDE_JSON"), Some("1.0.100".to_string()));
    assert_eq!(index.get_latest_version("serd"), None);
    assert_eq!(index.get_latest_version("unknown"), None);
}

#[test]
fn versions_keep_what_follows_the_first_space() {
    let index = built("serde 1.0 beta\ntokio  2\n");
    assert_eq!(index.get_latest_version("serde"), Some("1.0 beta".to_string()));
    assert_eq!(index.get_latest_version("tokio"), Some(" 2".to_string()));
}

#[test]
fn building_again_replaces_the_index() {
    let mut index = built(CONTENT);
    index.build_index("other 1.0.0\n");
    assert!(index.search("serde", 10).is_empty());
    assert_eq!(index.get_latest_version("other"), Some("1.0.0".to_string()));
}

#[test]
fn names_that_cannot_be_indexed() {
    assert!(can_index("日 1\n") == false);
    assert!(can_index("aé 1\n") == false);
    assert!(can_index("éa 1\n"));
    assert!(can_index(""));
    let index = built("éa 1\n");
    assert_eq!(index.get_latest_version("ÉA"), Some("1".to_string()));
}

#[test]
fn queries_that_cannot_be_cut() {
    let index = built(CONTENT);
    assert!(index.try_search("日本", 10).is_none());
    assert!(index.try_get_latest_version("日本").is_none());
    assert_eq!(found(index.try_search("tok", 10).unwrap()), vec![entry("tokio", "1.40.0", 3)]);
    assert_eq!(index.try_get_latest_version("tokio"), Some(Some("1.40.0".to_string())));
    assert_eq!(index.try_get_latest_version("zz"), Some(None));
    // Before it is built, an index can be asked for anything.
    let empty = CrateIndex::new();
    assert!(empty.try_search("日本", 10).unwrap().is_empty());
    assert_eq!(empty.try_get_latest_version("日本"), Some(None));
}

#[test]
fn initialize_without_a_copy() {
    let mut index = CrateIndex::new();
    let meta = meta_json(1000);
    assert_eq!(index.initialize(&CacheFile::Missing, Some(&meta), 1000), Refresh::Required);
    assert!(!index.is_loaded());
}

#[test]
fn initialize_with_a_copy() {
    let copy = CacheFile::Readable(CONTENT.to_string());
    let meta = meta_json(1000);
    let mut index = CrateIndex::new();
    assert_eq!(index.initialize(&copy, Some(&meta), 1000 + CACHE_TTL_SECS), Refresh::NotNeeded);
    assert!(index.is_loaded());
    assert_eq!(index.get_latest_version("serde"), Some("1.0.200".to_string()));
    let mut index = CrateIndex::new();
    assert_eq!(index.initialize(&copy, Some(&meta), 1001 + CACHE_TTL_SECS), Refresh::InBackground);
    assert!(index.is_loaded());
    let mut index = CrateIndex::new();
    assert_eq!(index.initialize(&copy, None, 1000), Refresh::InBackground);
    assert!(index.is_loaded());
}

#[test]
fn initialize_with_a_copy_that_cannot_be_read() {
    let meta = meta_json(1000);
    let mut index = CrateIndex::new();
    assert_eq!(index.initialize(&CacheFile::Unreadable, Some(&meta), 1000), Refresh::NotNeeded);
    assert!(!index.is_loaded());
    assert_eq!(index.initialize(&CacheFile::Unreadable, None, 1000), Refresh::InBackground);
    assert!(!index.is_loaded());
}

#[test]
fn age_of_the_copy() {
    assert_eq!(CACHE_TTL_SECS, 24 * 60 * 60);
    assert!(is_cache_expired(None, 0));
    assert!(is_cache_expired(Some("no json"), 0));
    assert!(is_cache_expired(Some("{}"), 0));
    assert!(is_cache_expired(Some("[1]"), 0));
    assert!(is_cache_expired(Some("{\"lastUpdate\":-1}"), 0));
    assert!(is_cache_expired(Some("{\"lastUpdate\":\"5\"}"), 5));
    let meta = "{ \"other\": 1, \"lastUpdate\": 500 }";
    assert!(!is_cache_expired(Some(meta), 0));
    assert!(!is_cache_expired(Some(meta), 500 + 86400));
    assert!(is_cache_expired(Some(meta), 501 + 86400));
    assert!(expired_since(None, 0));
    assert!(!expired_since(Some(7), 0));
    assert!(expired_since(Some(0), u64::MAX));
}

#[test]
fn text_that_goes_with_the_copy() {
    assert_eq!(meta_json(0), "{\"lastUpdate\":0}");
    assert_eq!(meta_json(1700000000), "{\"lastUpdate\":1700000000}");
    let meta = meta_json(u64::MAX);
    assert_eq!(meta, "{\"lastUpdate\":18446744073709551615}");
    assert!(!is_cache_expired(Some(&meta), u64::MAX));
    let meta = meta_json(10);
    assert!(!is_cache_expired(Some(&meta), 10 + CACHE_TTL_SECS));
    assert!(is_cache_expired(Some(&meta), 11 + CACHE_TTL_SECS));
}

#[test]
fn packed_index() {
    assert_eq!(index_text(&packed(CONTENT.as_bytes())), Ok(CONTENT.to_string()));
    assert_eq!(index_text(&packed(b"")), Ok(String::new()));
    assert!(index_text(b"not packed").is_err());
    assert!(index_text(&packed(&[0xff, 0xfe])).is_err());
    let whole = packed(CONTENT.as_bytes());
    assert!(index_text(&whole[..whole.len() - 9]).is_err());
}

#[test]
fn entries_can_be_cloned() {
    let index = built(CONTENT);
    let copies: Vec<CrateEntry> = index.search("tokio", 1).iter().map(|e| e.clone()).collect();
    assert_eq!(found(copies), vec![entry("tokio", "1.40.0", 3)]);
}
