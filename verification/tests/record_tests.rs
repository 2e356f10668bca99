use catalog_core::record::{
    decode_lines, decode_record_line, decode_text, encode_lines, encode_record_line, encode_text,
    format_u32, parse_version_line, split_lines, LoadError, RawRecord, FILE_VERSION,
};

fn rec(key: &str, description: &str) -> RawRecord {
    RawRecord { key: key.to_string(), description: description.to_string() }
}

fn lines(ls: &[&str]) -> Vec<String> {
    ls.iter().map(|s| s.to_string()).collect()
}

#[test]
fn escaped_colons_encode_exactly() {
    assert_eq!(encode_record_line("a:b", "x:y"), "a\\:b:x\\:y");
}

#[test]
fn escaped_colons_decode_back() {
    let r = decode_record_line("a\\:b:x\\:y").unwrap();
    assert_eq!(r.key, "a:b");
    assert_eq!(r.description, "x:y");
}

#[test]
fn decode_record_splits_at_first_unescaped_colon() {
    let r = decode_record_line("key:desc with : colons").unwrap();
    assert_eq!(r.key, "key");
    assert_eq!(r.description, "desc with : colons");
}

#[test]
fn decode_record_trims_fields() {
    let r = decode_record_line("  key  :  desc  ").unwrap();
    assert_eq!(r.key, "key");
    assert_eq!(r.description, "desc");
}

#[test]
fn decode_record_rejects_no_colon_or_empty_key() {
    assert!(decode_record_line("nocolonhere").is_none());
    assert!(decode_record_line(":desc").is_none());
    assert!(decode_record_line("ab\\:c").is_none());
}

#[test]
fn version_too_new_is_refused() {
    assert_eq!(FILE_VERSION, 2);
    let r = decode_lines(&lines(&["99", "a:b"]));
    assert_eq!(r.unwrap_err(), LoadError::VersionTooNew);
}

#[test]
fn malformed_version_is_refused() {
    let r = decode_lines(&lines(&["abc", "a:b"]));
    assert_eq!(r.unwrap_err(), LoadError::MalformedVersion);
    let r = decode_lines(&lines(&["+7"]));
    assert_eq!(r.unwrap_err(), LoadError::MalformedVersion);
    let r = decode_lines(&lines(&["4294967296"]));
    assert_eq!(r.unwrap_err(), LoadError::MalformedVersion);
    let r = decode_lines(&Vec::new());
    assert_eq!(r.unwrap_err(), LoadError::MalformedVersion);
    let r = decode_text("");
    assert_eq!(r.unwrap_err(), LoadError::MalformedVersion);
}

#[test]
fn malformed_record_carries_its_line_number() {
    let r = decode_lines(&lines(&["2", "nocolonhere"]));
    assert_eq!(r.unwrap_err(), LoadError::MalformedRecord(2));
    let r = decode_lines(&lines(&["2", "good:line", "", "still bad"]));
    assert_eq!(r.unwrap_err(), LoadError::MalformedRecord(4));
}

#[test]
fn first_malformed_line_wins() {
    let r = decode_lines(&lines(&["2", "bad line", "also bad"]));
    assert_eq!(r.unwrap_err(), LoadError::MalformedRecord(2));
}

#[test]
fn blank_lines_are_ignored() {
    let (v, rs) = decode_lines(&lines(&["2", "", "a:b", "   ", "c:d", ""])).unwrap();
    assert_eq!(v, 2);
    assert_eq!(rs, vec![rec("a", "b"), rec("c", "d")]);
}

#[test]
fn version_line_is_trimmed() {
    let (v, rs) = decode_lines(&lines(&["  1  "])).unwrap();
    assert_eq!(v, 1);
    assert_eq!(rs, Vec::new());
}

#[test]
fn encode_then_decode_restores_records() {
    let records = vec![rec("alpha", "first"), rec("a:b", "x:y"), rec("k", "")];
    let encoded = encode_lines(2, &records);
    assert_eq!(encoded, lines(&["2", "alpha:first", "a\\:b:x\\:y", "k:"]));
    let (v, rs) = decode_lines(&encoded).unwrap();
    assert_eq!(v, 2);
    assert_eq!(rs, records);
}

#[test]
fn text_round_trip_through_join_and_split() {
    let records = vec![rec("one", "1"), rec("two", "2")];
    let text = encode_text(1, &records);
    assert_eq!(text, "1\none:1\ntwo:2\n");
    let (v, rs) = decode_text(&text).unwrap();
    assert_eq!(v, 1);
    assert_eq!(rs, records);
}

#[test]
fn trailing_backslash_key_does_not_round_trip() {
    // The key's final `\` swallows the joining `:` on decode — the
    // one shape of record the round-trip law leaves out.
    let line = encode_record_line("a\\", "b");
    assert_eq!(line, "a\\:b");
    assert!(decode_record_line(&line).is_none());
}

#[test]
fn format_u32_writes_decimal() {
    assert_eq!(format_u32(0), "0");
    assert_eq!(format_u32(2), "2");
    assert_eq!(format_u32(4294967295), "4294967295");
}

#[test]
fn parse_version_line_reads_decimal() {
    assert_eq!(parse_version_line("2"), Some(2));
    assert_eq!(parse_version_line(" 10 "), Some(10));
    assert_eq!(parse_version_line("4294967295"), Some(4294967295));
    assert_eq!(parse_version_line("4294967296"), None);
    assert_eq!(parse_version_line(""), None);
    assert_eq!(parse_version_line("1a"), None);
}

#[test]
fn split_lines_keeps_every_segment() {
    let ls = split_lines("a\nb\n");
    assert_eq!(ls, vec!["a".to_string(), "b".to_string(), String::new()]);
    let ls = split_lines("a");
    assert_eq!(ls, vec!["a".to_string()]);
    let ls = split_lines("");
    assert_eq!(ls, vec![String::new()]);
}
