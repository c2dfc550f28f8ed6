//! Tests of request normalization: canonical URL equivalence, scheme
//! rejection, defaulting for transport-delivered requests, and header
//! handling.

use harplay::req_resp::canonicalize;
use harplay::req_resp::canonicalize_incoming;
use harplay::req_resp::Header;
use harplay::req_resp::IntoRequestError;
use harplay::req_resp::RawHeader;

#[test]
fn canonical_equivalence_ignores_scheme_host_port() {
    let a = canonicalize(
        "GET".to_string(),
        "http://localhost:3030/api/items?x=1",
        Vec::new(),
    )
    .unwrap();
    let b = canonicalize(
        "GET".to_string(),
        "https://example.org/api/items?x=1",
        Vec::new(),
    )
    .unwrap();
    assert_eq!(a.canonical_url, b.canonical_url);
    assert_eq!(a.canonical_url, "http://harplay/api/items?x=1");
    assert_eq!(a.original_url, "http://localhost:3030/api/items?x=1");
    assert_eq!(b.original_url, "https://example.org/api/items?x=1");
}

#[test]
fn non_http_scheme_is_rejected() {
    let err = canonicalize("GET".to_string(), "ftp://host/api/items", Vec::new()).unwrap_err();
    assert!(matches!(err, IntoRequestError::NonHttpScheme));
}

#[test]
fn unparsable_url_is_rejected() {
    let err = canonicalize("GET".to_string(), "not a url at all", Vec::new()).unwrap_err();
    assert!(matches!(err, IntoRequestError::ParsingUrl));
    let err = canonicalize("GET".to_string(), "/relative/only", Vec::new()).unwrap_err();
    assert!(matches!(err, IntoRequestError::ParsingUrl));
}

#[test]
fn fragment_and_query_are_preserved() {
    let req = canonicalize(
        "GET".to_string(),
        "https://example.org:8443/data.csv?row=4#cell=4,1",
        Vec::new(),
    )
    .unwrap();
    assert_eq!(req.canonical_url, "http://harplay/data.csv?row=4#cell=4,1");
    assert_eq!(req.method, "GET");
}

#[test]
fn headers_are_sorted_stably_by_name() {
    let headers = vec![
        Header {
            name: "b-header".to_string(),
            value: "1".to_string(),
        },
        Header {
            name: "a-header".to_string(),
            value: "2".to_string(),
        },
        Header {
            name: "b-header".to_string(),
            value: "3".to_string(),
        },
        Header {
            name: "B-header".to_string(),
            value: "4".to_string(),
        },
    ];
    let req = canonicalize("GET".to_string(), "http://h/x", headers).unwrap();
    let pairs: Vec<(String, String)> = req
        .headers
        .into_iter()
        .map(|h| (h.name, h.value))
        .collect();
    assert_eq!(
        pairs,
        vec![
            ("B-header".to_string(), "4".to_string()),
            ("a-header".to_string(), "2".to_string()),
            ("b-header".to_string(), "1".to_string()),
            ("b-header".to_string(), "3".to_string()),
        ]
    );
}

#[test]
fn incoming_defaults_scheme_and_authority() {
    let req = canonicalize_incoming(
        "GET".to_string(),
        None,
        None,
        Some("/only/path?q=1".to_string()),
        Vec::new(),
    )
    .unwrap();
    assert_eq!(req.canonical_url, "http://harplay/only/path?q=1");
    let req = canonicalize_incoming("GET".to_string(), None, None, None, Vec::new()).unwrap();
    assert_eq!(req.canonical_url, "http://harplay/");
}

#[test]
fn incoming_with_explicit_parts_matches_recorded_form() {
    let incoming = canonicalize_incoming(
        "GET".to_string(),
        Some("https".to_string()),
        Some("example.org:8443".to_string()),
        Some("/api/items?x=1".to_string()),
        Vec::new(),
    )
    .unwrap();
    let recorded = canonicalize(
        "GET".to_string(),
        "http://localhost:3030/api/items?x=1",
        Vec::new(),
    )
    .unwrap();
    assert_eq!(incoming.canonical_url, recorded.canonical_url);
}

#[test]
fn incoming_rejects_non_http_scheme() {
    let err = canonicalize_incoming(
        "GET".to_string(),
        Some("gopher".to_string()),
        Some("host".to_string()),
        Some("/x".to_string()),
        Vec::new(),
    )
    .unwrap_err();
    assert!(matches!(err, IntoRequestError::NonHttpScheme));
}

#[test]
fn unrepresentable_header_values_are_dropped_individually() {
    let raw = vec![
        RawHeader {
            name: "keep-me".to_string(),
            value: Some("ok".to_string()),
        },
        RawHeader {
            name: "drop-me".to_string(),
            value: None,
        },
        RawHeader {
            name: "also-keep".to_string(),
            value: Some("fine".to_string()),
        },
    ];
    let req = canonicalize_incoming(
        "GET".to_string(),
        None,
        None,
        Some("/h".to_string()),
        raw,
    )
    .unwrap();
    let names: Vec<String> = req.headers.iter().map(|h| h.name.clone()).collect();
    assert_eq!(names, vec!["also-keep".to_string(), "keep-me".to_string()]);
}

#[test]
fn request_identity_is_canonical_url_only() {
    let a = canonicalize(
        "GET".to_string(),
        "http://localhost/x",
        vec![Header {
            name: "h".to_string(),
            value: "1".to_string(),
        }],
    )
    .unwrap();
    let b = canonicalize("POST".to_string(), "https://elsewhere/x", Vec::new()).unwrap();
    let c = canonicalize("GET".to_string(), "http://localhost/y", Vec::new()).unwrap();
    assert_eq!(a, b);
    assert_ne!(a, c);
}
