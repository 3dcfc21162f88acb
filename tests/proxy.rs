use std::collections::HashMap;

use ddb_accelerator::cache_key::{cache_key, GetItemRequest, KeyValue};
use ddb_accelerator::headers::get_header;
use ddb_accelerator::proxy::{
    advance, begin, classify_action, prepare_request, Action, CachedResponse, CallState, Event,
    ProxyError, ProxyRequest, Step, CACHE_TTL_SECONDS,
};

fn pairs(list: &[(&str, &str)]) -> Vec<(String, String)> {
    list.iter().map(|(k, v)| (k.to_string(), v.to_string())).collect()
}

fn read_headers() -> Vec<(String, String)> {
    pairs(&[
        ("hahaha-x-amz-target", "DynamoDB_20120810.GetItem"),
        ("hahaha-x-uri", "https://backend.example/x"),
        ("host", "lambda.example"),
        ("hahaha-authorization", "sig"),
    ])
}

fn users_alice() -> GetItemRequest {
    GetItemRequest {
        table_name: "users".to_string(),
        key: vec![("user".to_string(), KeyValue::String("alice".to_string()))],
    }
}

fn item_response() -> CachedResponse {
    CachedResponse {
        status: 200,
        headers: pairs(&[("content-type", "application/x-amz-json-1.0")]),
        body: br#"{"Item":{"user":{"S":"alice"}}}"#.to_vec(),
    }
}

#[test]
fn classify_read_and_other_actions() {
    assert_eq!(
        classify_action(&"DynamoDB_20120810.GetItem".to_string()),
        Action::CacheableRead
    );
    assert_eq!(
        classify_action(&"DynamoDB_20120810.PutItem".to_string()),
        Action::PassThrough("DynamoDB_20120810.PutItem".to_string())
    );
    assert_eq!(
        classify_action(&"dynamodb_20120810.getitem".to_string()),
        Action::PassThrough("dynamodb_20120810.getitem".to_string())
    );
}

#[test]
fn prepare_recovers_destination_and_host() {
    let p = prepare_request(&read_headers()).unwrap();
    assert_eq!(p.action, Action::CacheableRead);
    assert_eq!(p.destination, "https://backend.example/x");
    assert_eq!(get_header(&p.headers, &"host".to_string()), Some("backend.example".to_string()));
    assert_eq!(get_header(&p.headers, &"authorization".to_string()), Some("sig".to_string()));
}

#[test]
fn prepare_sets_empty_host_for_uri_without_authority() {
    let raw = pairs(&[("x-amz-target", "A"), ("x-uri", "/relative/path")]);
    let p = prepare_request(&raw).unwrap();
    assert_eq!(get_header(&p.headers, &"host".to_string()), Some(String::new()));
    assert_eq!(p.action, Action::PassThrough("A".to_string()));
}

#[test]
fn prepare_missing_action_header() {
    let raw = pairs(&[("x-uri", "https://backend.example/x")]);
    assert!(matches!(prepare_request(&raw), Err(ProxyError::MissingActionHeader)));
}

#[test]
fn prepare_missing_side_channel_header() {
    let raw = pairs(&[("x-amz-target", "DynamoDB_20120810.GetItem")]);
    assert!(matches!(prepare_request(&raw), Err(ProxyError::MissingSideChannelHeader)));
}

#[test]
fn prepare_invalid_side_channel_uri() {
    let raw = pairs(&[("x-amz-target", "DynamoDB_20120810.GetItem"), ("x-uri", "not a uri")]);
    assert!(matches!(prepare_request(&raw), Err(ProxyError::InvalidSideChannelUri)));
}

#[test]
fn read_without_call_description_is_malformed() {
    let p = prepare_request(&read_headers()).unwrap();
    assert!(matches!(begin(&p, None), Err(ProxyError::MalformedCall)));
}

#[test]
fn cache_hit_skips_backend() {
    let p = prepare_request(&read_headers()).unwrap();
    let (state, step) = begin(&p, Some(&users_alice())).unwrap();
    match step {
        Step::CacheGet { key } => assert_eq!(key, cache_key(&users_alice())),
        _ => panic!("expected a cache lookup"),
    }
    let (state, step) = advance(state, Event::CacheReply(Some(item_response()))).unwrap();
    assert!(matches!(state, CallState::Done));
    match step {
        Step::Respond(s) => assert_eq!(s, item_response()),
        _ => panic!("expected a response from the cache"),
    }
}

#[test]
fn cache_miss_forwards_then_stores_for_ttl() {
    let p = prepare_request(&read_headers()).unwrap();
    let (state, _) = begin(&p, Some(&users_alice())).unwrap();
    let (state, step) = advance(state, Event::CacheReply(None)).unwrap();
    assert!(matches!(step, Step::Forward));
    let (state, step) = advance(state, Event::BackendReply(item_response())).unwrap();
    assert!(matches!(state, CallState::Done));
    match step {
        Step::StoreAndRespond { key, ttl_seconds, snapshot } => {
            assert_eq!(key, r#"{"TableName":"users","Key":{"user":{"S":"alice"}}}"#);
            assert_eq!(ttl_seconds, 60);
            assert_eq!(snapshot, item_response());
        }
        _ => panic!("expected the response to be stored"),
    }
    assert_eq!(CACHE_TTL_SECONDS, 60);
}

#[test]
fn pass_through_relays_response_without_caching() {
    let raw = pairs(&[
        ("x-amz-target", "DynamoDB_20120810.PutItem"),
        ("x-uri", "https://backend.example/x"),
    ]);
    let p = prepare_request(&raw).unwrap();
    let (state, step) = begin(&p, None).unwrap();
    assert!(matches!(step, Step::Forward));
    let error = CachedResponse {
        status: 400,
        headers: pairs(&[("x-amzn-errortype", "ValidationException")]),
        body: b"{}".to_vec(),
    };
    let (state, step) = advance(state, Event::BackendReply(error.clone())).unwrap();
    assert!(matches!(state, CallState::Done));
    match step {
        Step::Respond(s) => assert_eq!(s, error),
        _ => panic!("expected the backend's response unchanged"),
    }
}

fn miss_then_reply(status: u16) -> Result<(CallState, Step), ProxyError> {
    let p = prepare_request(&read_headers()).unwrap();
    let (state, _) = begin(&p, Some(&users_alice())).unwrap();
    let (state, _) = advance(state, Event::CacheReply(None)).unwrap();
    let reply = CachedResponse { status, headers: vec![], body: b"{}".to_vec() };
    advance(state, Event::BackendReply(reply))
}

#[test]
fn unsuccessful_read_reply_fails_and_is_not_stored() {
    assert!(matches!(miss_then_reply(500), Err(ProxyError::Backend)));
    assert!(matches!(miss_then_reply(400), Err(ProxyError::Backend)));
    assert!(matches!(miss_then_reply(300), Err(ProxyError::Backend)));
    assert!(matches!(miss_then_reply(199), Err(ProxyError::Backend)));
    assert!(matches!(miss_then_reply(200), Ok((_, Step::StoreAndRespond { .. }))));
    assert!(matches!(miss_then_reply(299), Ok((_, Step::StoreAndRespond { .. }))));
}

#[test]
fn routing_and_destination_follow_disguised_headers() {
    let raw = pairs(&[
        ("x-amz-target", "DynamoDB_20120810.PutItem"),
        ("x-uri", "https://relay.example/y"),
        ("hahaha-x-amz-target", "DynamoDB_20120810.GetItem"),
        ("hahaha-x-uri", "https://backend.example/x"),
        ("authorization", "clobbered"),
        ("hahaha-authorization", "sig"),
    ]);
    let p = prepare_request(&raw).unwrap();
    assert_eq!(p.action, Action::CacheableRead);
    assert_eq!(p.destination, "https://backend.example/x");
    assert_eq!(get_header(&p.headers, &"authorization".to_string()), Some("sig".to_string()));
    assert_eq!(p.headers.iter().filter(|(k, _)| k == "authorization").count(), 1);
    let (_, step) = begin(&p, Some(&users_alice())).unwrap();
    assert!(matches!(step, Step::CacheGet { .. }));
}

#[test]
fn failures_fail_the_call() {
    let p = prepare_request(&read_headers()).unwrap();
    let (state, _) = begin(&p, Some(&users_alice())).unwrap();
    assert!(matches!(advance(state, Event::CacheFailed), Err(ProxyError::CacheStore)));
    let (state, _) = begin(&p, Some(&users_alice())).unwrap();
    let (state, _) = advance(state, Event::CacheReply(None)).unwrap();
    assert!(matches!(advance(state, Event::BackendFailed), Err(ProxyError::Backend)));
}

#[test]
fn unexpected_events_are_rejected() {
    assert!(matches!(
        advance(CallState::Done, Event::CacheReply(None)),
        Err(ProxyError::UnexpectedEvent)
    ));
    assert!(matches!(
        advance(CallState::AwaitingBackend { key: None }, Event::CacheFailed),
        Err(ProxyError::UnexpectedEvent)
    ));
    assert!(matches!(
        advance(CallState::AwaitingCache { key: "k".to_string() }, Event::BackendReply(item_response())),
        Err(ProxyError::UnexpectedEvent)
    ));
}

/// Runs one call against an in-memory store and a backend that counts calls.
fn run(
    p: &ProxyRequest,
    call: Option<&GetItemRequest>,
    store: &mut HashMap<String, CachedResponse>,
    backend_calls: &mut Vec<String>,
) -> CachedResponse {
    let (mut state, mut step) = begin(p, call).unwrap();
    loop {
        let event = match step {
            Step::CacheGet { key } => Event::CacheReply(store.get(&key).cloned()),
            Step::Forward => {
                backend_calls.push(p.destination.clone());
                Event::BackendReply(item_response())
            }
            Step::StoreAndRespond { key, ttl_seconds, snapshot } => {
                assert_eq!(ttl_seconds, 60);
                store.insert(key, snapshot.clone());
                return snapshot;
            }
            Step::Respond(s) => return s,
        };
        let next = advance(state, event).unwrap();
        state = next.0;
        step = next.1;
    }
}

#[test]
fn example_read_is_fetched_once_then_served_from_cache() {
    let p = prepare_request(&read_headers()).unwrap();
    let mut store = HashMap::new();
    let mut backend_calls = Vec::new();
    let first = run(&p, Some(&users_alice()), &mut store, &mut backend_calls);
    assert_eq!(first, item_response());
    assert_eq!(backend_calls, vec!["https://backend.example/x".to_string()]);
    assert!(store.contains_key(r#"{"TableName":"users","Key":{"user":{"S":"alice"}}}"#));
    let second = run(&p, Some(&users_alice()), &mut store, &mut backend_calls);
    assert_eq!(second, item_response());
    assert_eq!(backend_calls.len(), 1);
}

#[test]
fn expired_entry_is_a_miss_again() {
    let p = prepare_request(&read_headers()).unwrap();
    let mut store = HashMap::new();
    let mut backend_calls = Vec::new();
    run(&p, Some(&users_alice()), &mut store, &mut backend_calls);
    store.clear();
    run(&p, Some(&users_alice()), &mut store, &mut backend_calls);
    assert_eq!(backend_calls.len(), 2);
}
