use http_message::search::split_once;
use http_message::text::same_text;
use http_message::{Headers, Request};

#[test]
fn test_split_mut() {
    let s = "asdf".to_string();
    let parts = split_once(&s, "sd").unwrap();

    println!("part 1: {}", parts.0);
    println!("part 2: {}", parts.1);
    assert_eq!(parts.0, "a");
    assert_eq!(parts.1, "f");

    let split_many_sample = "aa11aa11aa11aa";
    assert_eq!(split_once(split_many_sample, "11"), Some(("aa", "aa11aa11aa")));
}

#[test]
fn test_split_at_first_mut() {
    let sample = "Random12Info".to_string();

    let parts = split_once(&sample, "12").unwrap();
    let first = parts.0.to_ascii_lowercase();

    assert_eq!(first.to_string(), "random".to_string());
    assert_eq!(parts.1.to_string(), "Info".to_string());
}

#[test]
fn split_once_without_pattern() {
    assert_eq!(split_once("abc", "\r\n"), None);
    assert_eq!(split_once("", ":"), None);
    assert_eq!(split_once("a", "ab"), None);
}

#[test]
fn split_once_counts_characters_not_bytes() {
    assert_eq!(split_once("é:ü", ":"), Some(("é", "ü")));
    assert_eq!(split_once("ab\r\n", "\r\n"), Some(("ab", "")));
}

#[test]
fn same_text_compares_characters() {
    assert!(same_text("host", "host"));
    assert!(!same_text("host", "Host"));
    assert!(!same_text("host", "hos"));
    assert!(same_text("", ""));
}

#[test]
fn headers_insert_replaces() {
    let mut h = Headers::new();
    h.insert("host".to_string(), "a");
    h.insert("accept".to_string(), "b");
    h.insert("host".to_string(), "c");
    assert_eq!(h.get("host"), Some("c"));
    assert_eq!(h.get("accept"), Some("b"));
    assert_eq!(h.get("missing"), None);
}

#[test]
fn new_request_is_empty() {
    let r = Request::new();
    assert_eq!(r.http_version, "");
    assert_eq!(r.method, "");
    assert_eq!(r.url, "");
    assert_eq!(r.headers.get("host"), None);
    assert_eq!(r.trailers.get("host"), None);
}
