use catalog_core::catalog::{AppData, DataEntry};
use catalog_core::markup::DescriptionElement;
use catalog_core::record::LoadError;

#[test]
fn new_catalog_is_empty_at_current_version() {
    let data = AppData::new();
    assert_eq!(data.version(), 2);
    assert_eq!(data.len(), 0);
}

#[test]
fn entry_keeps_description_in_sync() {
    let e = DataEntry::new(0, "k", "see <link=\"u\" text=\"t\"> end");
    assert_eq!(e.description.len(), 3);
    match &e.description[1] {
        DescriptionElement::Link(l) => {
            assert_eq!(l.link, "u");
            assert_eq!(l.text, "t");
        },
        other => panic!("expected a link element, got {:?}", other),
    }
    let mut e = e;
    e.set_description("plain");
    assert_eq!(e.description_raw, "plain");
    assert_eq!(e.description, vec![DescriptionElement::Text("plain".to_string())]);
}

#[test]
fn load_replaces_entries_and_mints_fresh_ids() {
    let mut data = AppData::new();
    let stale = data.mint_id();
    data.upsert(DataEntry::new(stale, "old", "gone after load"));
    let r = data.load_from_text("1\napple:fruit\nbanana:also <sound=\"s\" text=\"a\"> fruit\n");
    assert!(r.is_ok());
    assert_eq!(data.len(), 2);
    let entries = data.entries();
    assert_eq!(entries[0].key, "apple");
    assert_eq!(entries[0].description_raw, "fruit");
    assert_eq!(entries[1].key, "banana");
    assert_eq!(entries[1].description.len(), 3);
    assert_ne!(entries[0].id, entries[1].id);
    assert_ne!(entries[0].id, stale);
}

#[test]
fn load_gates_but_does_not_adopt_the_file_version() {
    let mut data = AppData::new();
    let r = data.load_from_text("1\nolder:file\n");
    assert!(r.is_ok());
    // The file's version is only checked against FILE_VERSION; the
    // catalog keeps its own save version.
    assert_eq!(data.version(), 2);
    assert!(data.save_to_text().starts_with("2\n"));
}

#[test]
fn failed_load_leaves_catalog_untouched() {
    let mut data = AppData::new();
    let id = data.mint_id();
    data.upsert(DataEntry::new(id, "keep", "me"));
    let r = data.load_from_text("2\nnocolonhere\n");
    assert_eq!(r.unwrap_err(), LoadError::MalformedRecord(2));
    assert_eq!(data.len(), 1);
    assert_eq!(data.entries()[0].key, "keep");
}

#[test]
fn save_writes_version_then_records_in_order() {
    let mut data = AppData::new();
    let a = data.mint_id();
    data.upsert(DataEntry::new(a, "a:key", "with:colon"));
    let b = data.mint_id();
    data.upsert(DataEntry::new(b, "plain", "words"));
    assert_eq!(data.save_to_text(), "2\na\\:key:with\\:colon\nplain:words\n");
    assert_eq!(
        data.save_to_lines(),
        vec!["2".to_string(), "a\\:key:with\\:colon".to_string(), "plain:words".to_string()]
    );
}

#[test]
fn save_then_load_restores_keys_and_raw_descriptions() {
    let mut data = AppData::new();
    for (k, d) in [("a:b", "x:y"), ("second", "tagged <image=\"i\" text=\"t\">"), ("third", "")] {
        let id = data.mint_id();
        data.upsert(DataEntry::new(id, k, d));
    }
    let text = data.save_to_text();
    let mut reloaded = AppData::new();
    reloaded.load_from_text(&text).unwrap();
    assert_eq!(reloaded.len(), data.len());
    for (before, after) in data.entries().iter().zip(reloaded.entries().iter()) {
        assert_eq!(before.key, after.key);
        assert_eq!(before.description_raw, after.description_raw);
    }
}

#[test]
fn upsert_appends_new_and_replaces_in_place() {
    let mut data = AppData::new();
    let a = data.mint_id();
    data.upsert(DataEntry::new(a, "first", "1"));
    let b = data.mint_id();
    data.upsert(DataEntry::new(b, "second", "2"));
    assert_eq!(data.len(), 2);
    // Same id: replaced where it stands, not moved or appended.
    data.upsert(DataEntry::new(a, "first-renamed", "1bis"));
    assert_eq!(data.len(), 2);
    assert_eq!(data.entries()[0].key, "first-renamed");
    assert_eq!(data.entries()[0].description_raw, "1bis");
    assert_eq!(data.entries()[1].key, "second");
}

#[test]
fn remove_deletes_by_id_and_ignores_absent_ids() {
    let mut data = AppData::new();
    let a = data.mint_id();
    data.upsert(DataEntry::new(a, "a", ""));
    let b = data.mint_id();
    data.upsert(DataEntry::new(b, "b", ""));
    data.remove(a);
    assert_eq!(data.len(), 1);
    assert_eq!(data.entries()[0].key, "b");
    // Absent id: no-op, no error.
    data.remove(a);
    assert_eq!(data.len(), 1);
}

#[test]
fn get_entry_finds_by_id() {
    let mut data = AppData::new();
    let a = data.mint_id();
    data.upsert(DataEntry::new(a, "findme", "x"));
    assert_eq!(data.get_entry(a).unwrap().key, "findme");
    assert!(data.get_entry(a + 1).is_none());
}
