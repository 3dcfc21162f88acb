use ddb_accelerator::headers::get_header;
use ddb_accelerator::rewrite::{
    HeaderInterceptor, OutboundRequest, ProxyInterceptor, ProxyInterceptorForLambda, RewriteError,
};

fn signed_request() -> OutboundRequest {
    OutboundRequest {
        uri: "https://dynamodb.us-west-2.amazonaws.com/".to_string(),
        headers: vec![
            ("authorization".to_string(), "AWS4-HMAC-SHA256 sig".to_string()),
            ("x-amz-target".to_string(), "DynamoDB_20120810.GetItem".to_string()),
        ],
    }
}

fn value(r: &OutboundRequest, name: &str) -> Option<String> {
    get_header(&r.headers, &name.to_string())
}

#[test]
fn header_interceptor_adds_its_header() {
    let mut r = signed_request();
    let i = HeaderInterceptor::new("x-momento-authorization".to_string(), "token".to_string());
    i.modify_before_retry_loop(&mut r);
    assert_eq!(value(&r, "x-momento-authorization"), Some("token".to_string()));
    assert_eq!(r.headers.len(), 3);
    assert_eq!(r.uri, "https://dynamodb.us-west-2.amazonaws.com/");
}

#[test]
fn proxy_interceptor_redirects_and_records_destination() {
    let mut r = signed_request();
    let p = ProxyInterceptor::new(
        "https://proxy.example/accelerate".to_string(),
        "x-proxy-auth".to_string(),
        "secret".to_string(),
    );
    assert_eq!(p.modify_before_transmit(&mut r), Ok(()));
    assert_eq!(r.uri, "https://proxy.example/accelerate");
    assert_eq!(value(&r, "x-uri"), Some("https://dynamodb.us-west-2.amazonaws.com/".to_string()));
    assert_eq!(value(&r, "x-proxy-auth"), Some("secret".to_string()));
    assert_eq!(value(&r, "authorization"), Some("AWS4-HMAC-SHA256 sig".to_string()));
    assert_eq!(r.headers.len(), 4);
}

#[test]
fn proxy_interceptor_rejects_invalid_uri() {
    let mut r = signed_request();
    let p = ProxyInterceptor::new("not a uri".to_string(), "a".to_string(), "b".to_string());
    assert_eq!(p.modify_before_transmit(&mut r), Err(RewriteError::InvalidProxyUri));
    assert_eq!(r.uri, "https://dynamodb.us-west-2.amazonaws.com/");
    assert_eq!(r.headers.len(), 2);
}

#[test]
fn lambda_interceptor_disguises_every_header() {
    let mut r = signed_request();
    let p = ProxyInterceptorForLambda::new("https://lambda.example/".to_string());
    assert_eq!(p.modify_before_transmit(&mut r), Ok(()));
    assert_eq!(r.uri, "https://lambda.example/");
    assert_eq!(r.headers.len(), 3);
    assert!(r.headers.iter().all(|(k, _)| k.starts_with("hahaha-")));
    assert_eq!(
        value(&r, "hahaha-x-uri"),
        Some("https://dynamodb.us-west-2.amazonaws.com/".to_string())
    );
    assert_eq!(value(&r, "hahaha-authorization"), Some("AWS4-HMAC-SHA256 sig".to_string()));
    assert_eq!(value(&r, "authorization"), None);
}

#[test]
fn lambda_interceptor_rejects_invalid_uri() {
    let mut r = signed_request();
    let p = ProxyInterceptorForLambda::new("http://[bad".to_string());
    assert_eq!(p.modify_before_transmit(&mut r), Err(RewriteError::InvalidProxyUri));
    assert_eq!(r.headers[0].0, "authorization");
}
