use http::{HeaderMap, HeaderValue};
use prefix_proxy::conversions::headers::IdentityExtractor;
use prefix_proxy::errors::PipelineError;
use prefix_proxy::pipeline::RequestPipeline;

fn demo_pipeline() -> RequestPipeline {
    let mut p = RequestPipeline::new("one.one.one.one".to_string(), 100, 256);
    p.add_route("/auth", vec!["0.0.0.0:44410".to_string()], true);
    p.add_route("/task", vec!["0.0.0.0:44447".to_string()], false);
    p
}

fn bearer_headers(value: &'static str) -> HeaderMap {
    let mut h = HeaderMap::new();
    h.insert("Authorization", HeaderValue::from_static(value));
    h
}

#[test]
fn test_auth_route_without_header_is_rejected() {
    let mut p = demo_pipeline();
    let r = p.handle_request("/auth/login", &HeaderMap::new());
    assert_eq!(r.unwrap_err(), PipelineError::AuthenticationRequired);
}

#[test]
fn test_auth_route_with_bearer_is_forwarded() {
    let mut p = demo_pipeline();
    let h = bearer_headers("Bearer abc123");
    let d = p.handle_request("/auth/login", &h).unwrap();
    assert_eq!(d.peer_addr, "0.0.0.0:44410");
    assert_eq!(d.user_id.as_deref(), Some("Migo"));
    assert_eq!(d.host, "one.one.one.one");
    assert_eq!(d.connect_timeout_ms, 100);
}

#[test]
fn test_token_payload_is_recovered_exactly() {
    let h = bearer_headers("Bearer abc123");
    let token = IdentityExtractor::extract(&h).unwrap();
    assert_eq!(token.as_text(), "abc123");
}

#[test]
fn test_short_header_value_gives_empty_token() {
    let h = bearer_headers("abc");
    let token = IdentityExtractor::extract(&h).unwrap();
    assert_eq!(token.as_text(), "");
}

#[test]
fn test_malformed_scheme_is_accepted_garbled() {
    // The scheme word is not validated: any value of at least 7 characters
    // yields whatever follows them.
    let h = bearer_headers("BearerXabc123");
    let token = IdentityExtractor::extract(&h).unwrap();
    assert_eq!(token.as_text(), "abc123");
}

#[test]
fn test_undecodable_header_value_is_rejected() {
    let mut h = HeaderMap::new();
    h.insert(
        "Authorization",
        HeaderValue::from_bytes(&[0x80u8, 0x81u8]).unwrap(),
    );
    let mut p = demo_pipeline();
    let r = p.handle_request("/auth/login", &h);
    assert_eq!(r.unwrap_err(), PipelineError::AuthenticationRequired);
}

#[test]
fn test_unauthenticated_route_needs_no_header() {
    let mut p = demo_pipeline();
    let d = p.handle_request("/task/7", &HeaderMap::new()).unwrap();
    assert_eq!(d.peer_addr, "0.0.0.0:44447");
    assert_eq!(d.user_id, None);
}

#[test]
fn test_unauthenticated_route_ignores_bad_header() {
    let mut p = demo_pipeline();
    let mut h = HeaderMap::new();
    h.insert("Authorization", HeaderValue::from_bytes(&[0x80u8]).unwrap());
    let d = p.handle_request("/task/7", &h).unwrap();
    assert_eq!(d.peer_addr, "0.0.0.0:44447");
    assert_eq!(d.user_id, None);
}

#[test]
fn test_unmatched_path_is_route_not_found() {
    let mut p = demo_pipeline();
    let r = p.handle_request("/nothing/here", &bearer_headers("Bearer abc123"));
    assert_eq!(r.unwrap_err(), PipelineError::RouteNotFound);
}

#[test]
fn test_route_not_found_independent_of_backend_health() {
    let mut p = demo_pipeline();
    p.pools[0].mark_unavailable(0);
    p.pools[1].mark_unavailable(0);
    let r = p.handle_request("/nothing/here", &HeaderMap::new());
    assert_eq!(r.unwrap_err(), PipelineError::RouteNotFound);
}

#[test]
fn test_all_backends_down_is_no_healthy_backend() {
    let mut p = demo_pipeline();
    p.pools[1].mark_unavailable(0);
    let r = p.handle_request("/task/7", &HeaderMap::new());
    assert_eq!(r.unwrap_err(), PipelineError::NoHealthyBackend);
}

#[test]
fn test_error_status_codes() {
    assert_eq!(PipelineError::RouteNotFound.status_code(), 404);
    assert_eq!(PipelineError::AuthenticationRequired.status_code(), 401);
    assert_eq!(PipelineError::NoHealthyBackend.status_code(), 502);
}

#[test]
fn test_error_reasons() {
    assert_eq!(PipelineError::RouteNotFound.reason(), "No matching path found");
    assert_eq!(
        PipelineError::AuthenticationRequired.reason(),
        "Authorization token required"
    );
    assert_eq!(
        PipelineError::NoHealthyBackend.reason(),
        "No healthy backend available"
    );
}
