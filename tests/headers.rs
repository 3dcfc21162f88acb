use ddb_accelerator::headers::{get_header, insert_header, reconcile_headers, strip_marker};

fn pairs(list: &[(&str, &str)]) -> Vec<(String, String)> {
    list.iter().map(|(k, v)| (k.to_string(), v.to_string())).collect()
}

fn value(hs: &Vec<(String, String)>, name: &str) -> Option<String> {
    get_header(hs, &name.to_string())
}

#[test]
fn disguised_header_overrides_ambient() {
    let raw = pairs(&[
        ("authorization", "clobbered"),
        ("hahaha-authorization", "signed"),
        ("host", "relay.example"),
    ]);
    let r = reconcile_headers(&raw);
    assert_eq!(value(&r, "authorization"), Some("signed".to_string()));
    assert_eq!(value(&r, "host"), Some("relay.example".to_string()));
    assert_eq!(value(&r, "hahaha-authorization"), None);
    assert_eq!(r.len(), 2);
}

#[test]
fn disguised_wins_whatever_the_arrival_order() {
    let raw = pairs(&[("hahaha-x-uri", "https://a.example/"), ("x-uri", "https://b.example/")]);
    let r = reconcile_headers(&raw);
    assert_eq!(value(&r, "x-uri"), Some("https://a.example/".to_string()));
}

#[test]
fn first_of_repeated_header_wins() {
    let raw = pairs(&[("a", "1"), ("a", "2"), ("hahaha-b", "3"), ("hahaha-b", "4"), ("b", "5")]);
    let r = reconcile_headers(&raw);
    assert_eq!(value(&r, "a"), Some("1".to_string()));
    assert_eq!(value(&r, "b"), Some("3".to_string()));
    assert_eq!(r.len(), 2);
}

#[test]
fn empty_headers_reconcile_to_empty() {
    assert!(reconcile_headers(&Vec::new()).is_empty());
}

#[test]
fn strip_marker_only_on_prefix() {
    assert_eq!(strip_marker(&"hahaha-host".to_string()), Some("host".to_string()));
    assert_eq!(strip_marker(&"hahaha-".to_string()), Some(String::new()));
    assert_eq!(strip_marker(&"hahaha".to_string()), None);
    assert_eq!(strip_marker(&"x-hahaha-host".to_string()), None);
}

#[test]
fn insert_replaces_existing_value() {
    let mut hs = pairs(&[("a", "1"), ("b", "2")]);
    insert_header(&mut hs, "a".to_string(), "3".to_string());
    assert_eq!(hs, pairs(&[("a", "3"), ("b", "2")]));
    insert_header(&mut hs, "c".to_string(), "4".to_string());
    assert_eq!(hs, pairs(&[("a", "3"), ("b", "2"), ("c", "4")]));
}
