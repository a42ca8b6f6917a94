use task_store::origin::{origin_allowed, LOCAL_ORIGIN_PREFIX, OPAQUE_ORIGIN};

#[test]
fn local_origins_are_allowed() {
    assert!(origin_allowed(b"http://localhost"));
    assert!(origin_allowed(b"http://localhost:3000"));
    assert!(origin_allowed(b"http://localhost/"));
    assert!(origin_allowed(b"http://localhost.example.com"));
}

#[test]
fn the_opaque_origin_is_allowed() {
    assert!(origin_allowed(b"null"));
}

#[test]
fn other_origins_are_refused() {
    assert!(!origin_allowed(b""));
    assert!(!origin_allowed(b"http://localhos"));
    assert!(!origin_allowed(b"https://localhost"));
    assert!(!origin_allowed(b"HTTP://LOCALHOST"));
    assert!(!origin_allowed(b" http://localhost"));
    assert!(!origin_allowed(b"http://127.0.0.1:8000"));
    assert!(!origin_allowed(b"https://example.com"));
    assert!(!origin_allowed(b"nul"));
    assert!(!origin_allowed(b"null "));
    assert!(!origin_allowed(b"nullx"));
    assert!(!origin_allowed(b"Null"));
}

#[test]
fn origins_that_are_not_text_are_judged_by_their_bytes() {
    assert!(origin_allowed(b"http://localhost\xff\xfe"));
    assert!(!origin_allowed(b"\xffhttp://localhost"));
}

#[test]
fn the_policy_constants() {
    assert_eq!(LOCAL_ORIGIN_PREFIX, "http://localhost");
    assert_eq!(OPAQUE_ORIGIN, "null");
}
