use reqcore::headers::{pretty_multimap, requested_html, HeaderValues};
use reqcore::snapshot::get_user_agent;

fn hdr(name: &str, value: &str) -> (String, String) {
    (name.to_string(), value.to_string())
}

#[test]
fn requested_html_detects_html_accept_header() {
    let headers = vec![hdr("accept", "text/html,application/xhtml+xml")];
    assert!(requested_html(&headers));
}

#[test]
fn requested_html_rejects_non_html_accept_header() {
    let headers = vec![hdr("accept", "application/json,application/xml")];
    assert!(!requested_html(&headers));
}

#[test]
fn requested_html_returns_false_for_missing_accept_header() {
    let headers: Vec<(String, String)> = Vec::new();
    assert!(!requested_html(&headers));
}

#[test]
fn requested_html_handles_wildcard_accept() {
    let headers = vec![hdr("accept", "*/*")];
    assert!(!requested_html(&headers));
}

#[test]
fn requested_html_detects_html_in_complex_accept_header() {
    let headers = vec![hdr("accept", "application/json, text/html;q=0.9, */*;q=0.8")];
    assert!(requested_html(&headers));
}

fn lookup<'a>(
    merged: &'a [(String, HeaderValues)],
    key: &str,
) -> Option<&'a HeaderValues> {
    merged.iter().find(|p| p.0 == key).map(|p| &p.1)
}

#[test]
fn pretty_multimap_merges_duplicate_keys_into_arrays() {
    let entries = vec![
        hdr("x-custom", "first"),
        hdr("x-custom", "second"),
        hdr("unique", "value"),
    ];

    let result = pretty_multimap(&entries);

    let multi = lookup(&result, "x-custom").expect("expected duplicate key to exist");
    match multi {
        HeaderValues::Many(values) => {
            assert_eq!(values.len(), 2);
            assert_eq!(values[0], "first");
            assert_eq!(values[1], "second");
        }
        other => panic!("expected array for duplicates, got {other:?}"),
    }

    let unique = lookup(&result, "unique").expect("expected single key to exist");
    match unique {
        HeaderValues::One(value) => assert_eq!(value, "value"),
        other => panic!("expected scalar for a single value, got {other:?}"),
    }
}

#[test]
fn pretty_multimap_handles_empty_map() {
    let entries: Vec<(String, String)> = Vec::new();
    let result = pretty_multimap(&entries);
    assert!(result.is_empty());
}

#[test]
fn pretty_multimap_handles_three_duplicate_keys() {
    let entries = vec![hdr("key", "a"), hdr("key", "b"), hdr("key", "c")];

    let result = pretty_multimap(&entries);
    match lookup(&result, "key").unwrap() {
        HeaderValues::Many(values) => {
            assert_eq!(values.len(), 3);
            assert_eq!(values[0], "a");
            assert_eq!(values[1], "b");
            assert_eq!(values[2], "c");
        }
        other => panic!("expected array for duplicates, got {other:?}"),
    }
}

#[test]
fn pretty_multimap_keeps_first_arrival_order_of_names() {
    let entries = vec![hdr("b", "1"), hdr("a", "2"), hdr("b", "3")];
    let result = pretty_multimap(&entries);
    assert_eq!(result.len(), 2);
    assert_eq!(result[0].0, "b");
    assert_eq!(result[1].0, "a");
}

#[test]
fn get_user_agent_parses_chrome() {
    let ua = "Mozilla/5.0 (Windows NT 10.0; Win64; x64) AppleWebKit/537.36 (KHTML, like Gecko) Chrome/91.0.4472.124 Safari/537.36";
    let result = get_user_agent(ua);
    assert_eq!(result.name, "Chrome");
}

#[test]
fn get_user_agent_handles_empty_string() {
    let result = get_user_agent("");
    assert_eq!(result.name, "UNKNOWN");
}
