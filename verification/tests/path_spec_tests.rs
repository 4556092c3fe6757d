use rest_router::path_spec::{PathSegment, PathSpec, RequestLine};
use rest_router::request_spec::{Match, RequestSpec};

fn lit(text: &str) -> PathSegment {
    PathSegment::Literal(text.to_string())
}

fn request(method: &str, path: &str) -> RequestLine {
    RequestLine { method: method.to_string(), path: path.to_string() }
}

#[test]
fn literal_segments_match_exactly() {
    let spec = PathSpec::new("GET".to_string(), vec![lit("users"), lit("static")], 20);
    assert!(spec.accepts_path(b"/users/static"));
    assert!(!spec.accepts_path(b"/users/42"));
    assert!(!spec.accepts_path(b"/users"));
    assert!(!spec.accepts_path(b"/users/static/more"));
    assert!(!spec.accepts_path(b"/users/static/"));
    assert!(!spec.accepts_path(b"users/static"));
    assert!(!spec.accepts_path(b"/users/statics"));
    assert!(!spec.accepts_path(b"/users/stati"));
    assert!(!spec.accepts_path(b""));
}

#[test]
fn label_matches_any_text_but_none() {
    let spec = PathSpec::new("GET".to_string(), vec![lit("users"), PathSegment::Label], 10);
    assert!(spec.accepts_path(b"/users/42"));
    assert!(spec.accepts_path(b"/users/static"));
    assert!(!spec.accepts_path(b"/users/"));
    assert!(!spec.accepts_path(b"/users"));
    assert!(!spec.accepts_path(b"/users/42/posts"));
    assert!(!spec.accepts_path(b"/orders/42"));
}

#[test]
fn pattern_without_segments_matches_the_root() {
    let spec = PathSpec::new("GET".to_string(), vec![], 0);
    assert!(spec.accepts_path(b"/"));
    assert!(!spec.accepts_path(b""));
    assert!(!spec.accepts_path(b"//"));
    assert!(!spec.accepts_path(b"/a"));
}

#[test]
fn empty_literal_matches_an_empty_segment() {
    let spec = PathSpec::new("GET".to_string(), vec![lit("a"), lit("")], 0);
    assert!(spec.accepts_path(b"/a/"));
    assert!(!spec.accepts_path(b"/a"));
}

#[test]
fn matches_tells_path_from_method() {
    let spec = PathSpec::new("GET".to_string(), vec![lit("users"), PathSegment::Label], 10);
    assert_eq!(spec.matches(&request("GET", "/users/42")), Match::Yes);
    assert_eq!(spec.matches(&request("DELETE", "/users/42")), Match::MethodNotAllowed);
    assert_eq!(spec.matches(&request("GET", "/orders")), Match::No);
    assert_eq!(spec.matches(&request("DELETE", "/orders")), Match::No);
}

#[test]
fn rank_is_the_rank_given() {
    let spec = PathSpec::new("GET".to_string(), vec![], 17);
    assert_eq!(spec.rank(), 17);
}

#[test]
fn paths_are_compared_as_bytes() {
    let spec = PathSpec::new("GET".to_string(), vec![lit("caf\u{e9}")], 1);
    assert_eq!(spec.matches(&request("GET", "/caf\u{e9}")), Match::Yes);
    assert_eq!(spec.matches(&request("GET", "/cafe")), Match::No);
}
