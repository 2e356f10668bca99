use catalog_core::catalog::{AppData, DataEntry};
use catalog_core::search::{rank, SearchField};

fn fruit_catalog() -> AppData {
    let mut data = AppData::new();
    for (k, d) in [("apple", "a fruit"), ("appetizer", "starter"), ("banana", "a fruit")] {
        let id = data.mint_id();
        data.upsert(DataEntry::new(id, k, d));
    }
    data
}

#[test]
fn empty_query_returns_all_in_catalog_order() {
    let data = fruit_catalog();
    let r = rank(data.entries(), "", SearchField::Key);
    let keys: Vec<&str> = r.iter().map(|e| e.key.as_str()).collect();
    assert_eq!(keys, vec!["apple", "appetizer", "banana"]);
}

#[test]
fn query_excludes_non_matching_entries() {
    let data = fruit_catalog();
    let r = rank(data.entries(), "app", SearchField::Key);
    let keys: Vec<&str> = r.iter().map(|e| e.key.as_str()).collect();
    assert!(!keys.contains(&"banana"));
    assert!(keys.contains(&"apple"));
    assert!(keys.contains(&"appetizer"));
}

#[test]
fn tighter_match_ranks_first() {
    let data = fruit_catalog();
    let r = rank(data.entries(), "app", SearchField::Key);
    let keys: Vec<&str> = r.iter().map(|e| e.key.as_str()).collect();
    // "apple" leaves 2 characters unmatched, "appetizer" 6.
    assert_eq!(keys, vec!["apple", "appetizer"]);
}

#[test]
fn query_matches_as_subsequence() {
    let data = fruit_catalog();
    let r = rank(data.entries(), "aple", SearchField::Key);
    let keys: Vec<&str> = r.iter().map(|e| e.key.as_str()).collect();
    assert_eq!(keys, vec!["apple"]);
}

#[test]
fn description_field_is_searchable() {
    let data = fruit_catalog();
    let r = rank(data.entries(), "fruit", SearchField::Description);
    let keys: Vec<&str> = r.iter().map(|e| e.key.as_str()).collect();
    assert_eq!(keys, vec!["apple", "banana"]);
}

#[test]
fn ties_keep_catalog_order() {
    let mut data = AppData::new();
    for k in ["zzzq", "aaaq", "mmmq"] {
        let id = data.mint_id();
        data.upsert(DataEntry::new(id, k, ""));
    }
    let r = rank(data.entries(), "q", SearchField::Key);
    let keys: Vec<&str> = r.iter().map(|e| e.key.as_str()).collect();
    // All have the same slack: the original order decides.
    assert_eq!(keys, vec!["zzzq", "aaaq", "mmmq"]);
}

#[test]
fn no_match_yields_empty_result() {
    let data = fruit_catalog();
    let r = rank(data.entries(), "zzz", SearchField::Key);
    assert!(r.is_empty());
}

#[test]
fn ranking_does_not_mutate_the_catalog() {
    let data = fruit_catalog();
    let _ = rank(data.entries(), "app", SearchField::Key);
    let keys: Vec<&str> = data.entries().iter().map(|e| e.key.as_str()).collect();
    assert_eq!(keys, vec!["apple", "appetizer", "banana"]);
}
