use ddb_accelerator::snapshot::CachedResponse;

fn pairs(list: &[(&str, &str)]) -> Vec<(String, String)> {
    list.iter().map(|(k, v)| (k.to_string(), v.to_string())).collect()
}

#[test]
fn snapshot_round_trip_keeps_everything() {
    let s = CachedResponse {
        status: 200,
        headers: pairs(&[("content-type", "application/json"), ("x-é", "ü✓"), ("a", "")]),
        body: br#"{"Item":{}}"#.to_vec(),
    };
    let bytes = s.encode();
    assert_eq!(CachedResponse::decode(&bytes), Some(s));
}

#[test]
fn snapshot_round_trip_of_empty_response() {
    let s = CachedResponse { status: 65535, headers: vec![], body: vec![] };
    let bytes = s.encode();
    assert_eq!(bytes, vec![255, 255, 0, 0, 0, 0, 0, 0, 0, 0]);
    assert_eq!(CachedResponse::decode(&bytes), Some(s));
}

#[test]
fn snapshot_stored_form_is_length_prefixed() {
    let s = CachedResponse { status: 404, headers: pairs(&[("k", "vv")]), body: vec![9] };
    assert_eq!(
        s.encode(),
        vec![1, 148, 0, 0, 0, 1, 0, 0, 0, 1, b'k', 0, 0, 0, 2, b'v', b'v', 0, 0, 0, 1, 9]
    );
}

#[test]
fn snapshot_header_order_is_kept() {
    let s = CachedResponse { status: 200, headers: pairs(&[("b", "1"), ("a", "2"), ("b", "3")]), body: vec![] };
    assert_eq!(CachedResponse::decode(&s.encode()).unwrap().headers, s.headers);
}

#[test]
fn decode_rejects_malformed_bytes() {
    assert_eq!(CachedResponse::decode(&vec![]), None);
    assert_eq!(CachedResponse::decode(&vec![0, 200, 0, 0, 0]), None);
    // a length that runs past the end
    assert_eq!(CachedResponse::decode(&vec![0, 200, 0, 0, 0, 0, 0, 0, 0, 5, 1]), None);
    // trailing bytes
    assert_eq!(CachedResponse::decode(&vec![0, 200, 0, 0, 0, 0, 0, 0, 0, 0, 7]), None);
    // a header name that is not UTF-8
    assert_eq!(
        CachedResponse::decode(&vec![0, 200, 0, 0, 0, 1, 0, 0, 0, 1, 0xff, 0, 0, 0, 0, 0, 0, 0, 0]),
        None
    );
}
