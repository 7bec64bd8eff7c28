use tower_sanitize_path::normalize::normalize_path;
use tower_sanitize_path::sanitize_path;
use tower_sanitize_path::SanitizePath;
use tower_sanitize_path::SanitizePathLayer;
use tower_sanitize_path::UriPathQuery;

/// Split a URL into the model the library works on.
fn model_of(uri: &http::Uri) -> UriPathQuery {
    UriPathQuery {
        path: uri.path().as_bytes().to_vec(),
        query: uri.query().map(|q| q.as_bytes().to_vec()),
    }
}

/// Splice a sanitized model back into the URL it came from.
fn rebuild(uri: http::Uri, model: &UriPathQuery) -> http::Uri {
    let mut parts = uri.into_parts();
    let mut pq_bytes = model.path.clone();
    if let Some(q) = &model.query {
        pq_bytes.push(b'?');
        pq_bytes.extend_from_slice(q);
    }
    parts.path_and_query = Some(http::uri::PathAndQuery::try_from(&pq_bytes[..]).unwrap());
    http::Uri::from_parts(parts).unwrap()
}

/// Parse, sanitize, and reassemble a URL.
fn sanitized_uri(input: &str) -> http::Uri {
    let uri: http::Uri = input.parse().unwrap();
    let mut model = model_of(&uri);
    sanitize_path(&mut model);
    rebuild(uri, &model)
}

#[test]
fn no_path() {
    assert_eq!(sanitized_uri("/"), "/");
}

#[test]
fn maintain_query() {
    assert_eq!(sanitized_uri("/?test"), "/?test");
}

#[test]
fn path_maintain_query() {
    assert_eq!(sanitized_uri("/path?test=true"), "/path?test=true");
}

#[test]
fn remove_path_parent_traversal() {
    assert_eq!(sanitized_uri("/../../path"), "/path");
}

#[test]
fn remove_path_parent_traversal_maintain_query() {
    assert_eq!(sanitized_uri("/../../path?name=John"), "/path?name=John");
}

#[test]
fn remove_path_current_traversal() {
    assert_eq!(sanitized_uri("/.././path"), "/path");
}

#[test]
fn remove_path_encoded_traversal() {
    assert_eq!(sanitized_uri("/..%2f..%2fpath"), "/path");
}

#[test]
fn changed_flag_reports_rewrites() {
    let mut model = UriPathQuery {
        path: b"/../../path".to_vec(),
        query: None,
    };
    assert!(sanitize_path(&mut model));
    assert_eq!(model.path, b"/path".to_vec());

    let mut clean = UriPathQuery {
        path: b"/path".to_vec(),
        query: None,
    };
    assert!(!sanitize_path(&mut clean));
    assert_eq!(clean.path, b"/path".to_vec());
}

#[test]
fn query_preserved_when_path_rewritten() {
    let mut model = UriPathQuery {
        path: b"/a/../b".to_vec(),
        query: Some(b"q=1&r=2".to_vec()),
    };
    assert!(sanitize_path(&mut model));
    assert_eq!(model.path, b"/a/b".to_vec());
    assert_eq!(model.query, Some(b"q=1&r=2".to_vec()));
}

#[test]
fn sanitizing_twice_equals_once() {
    let mut model = UriPathQuery {
        path: b"/.././path".to_vec(),
        query: Some(b"test".to_vec()),
    };
    sanitize_path(&mut model);
    let after_one = model.path.clone();
    assert!(!sanitize_path(&mut model));
    assert_eq!(model.path, after_one);
    assert_eq!(model.query, Some(b"test".to_vec()));
}

#[test]
fn invalid_recombination_keeps_original() {
    // Decoding the escaped space leaves a raw space in the rewritten path,
    // which is not a valid path-and-query byte, so the rewrite is abandoned
    // and the path comes back untouched.
    let mut model = UriPathQuery {
        path: b"/a%20b/../c".to_vec(),
        query: None,
    };
    assert!(!sanitize_path(&mut model));
    assert_eq!(model.path, b"/a%20b/../c".to_vec());
}

#[test]
fn doubly_escaped_traversal_takes_two_passes() {
    // One pass only decodes one layer of escaping: the doubly escaped dots
    // become singly escaped ones, and a second pass removes them.
    let mut model = UriPathQuery {
        path: b"/%252e%252e/path".to_vec(),
        query: None,
    };
    assert!(sanitize_path(&mut model));
    assert_eq!(model.path, b"/%2e%2e/path".to_vec());
    assert!(sanitize_path(&mut model));
    assert_eq!(model.path, b"/path".to_vec());
}

#[test]
fn encoded_dot_segments_removed() {
    let mut model = UriPathQuery {
        path: b"/%2e%2e/%2e/path".to_vec(),
        query: None,
    };
    assert!(sanitize_path(&mut model));
    assert_eq!(model.path, b"/path".to_vec());
}

#[test]
fn redundant_separators_collapsed() {
    let mut model = UriPathQuery {
        path: b"/a//b/./c/".to_vec(),
        query: None,
    };
    assert!(sanitize_path(&mut model));
    assert_eq!(model.path, b"/a/b/c".to_vec());
}

#[test]
fn relative_path_unchanged() {
    let mut model = UriPathQuery {
        path: b"a/b".to_vec(),
        query: None,
    };
    assert!(!sanitize_path(&mut model));
    assert_eq!(model.path, b"a/b".to_vec());
}

#[test]
fn empty_path_unchanged() {
    let mut model = UriPathQuery {
        path: Vec::new(),
        query: None,
    };
    assert!(!sanitize_path(&mut model));
    assert_eq!(model.path, Vec::<u8>::new());
}

#[test]
fn dropped_parent_does_not_ascend() {
    // A `..` is dropped, never resolved against the segment before it.
    let mut model = UriPathQuery {
        path: b"/a/../../b".to_vec(),
        query: None,
    };
    assert!(sanitize_path(&mut model));
    assert_eq!(model.path, b"/a/b".to_vec());
}

#[test]
fn malformed_escape_stays_literal() {
    let mut model = UriPathQuery {
        path: b"/%zz/../path".to_vec(),
        query: None,
    };
    assert!(sanitize_path(&mut model));
    assert_eq!(model.path, b"/%zz/path".to_vec());
}

#[test]
fn normalize_path_exact_value() {
    let out = normalize_path(&b"/..%2f..%2fpath".to_vec());
    assert_eq!(out, b"/path".to_vec());
    let clean = normalize_path(&b"/path".to_vec());
    assert_eq!(clean, b"/path".to_vec());
}

#[test]
fn uri_roundtrip_removes_traversal() {
    let uri: http::Uri = "/../../secret".parse().unwrap();
    let mut model = model_of(&uri);
    assert!(sanitize_path(&mut model));
    let rebuilt = rebuild(uri, &model);
    assert_eq!(rebuilt, "/secret");
}

#[test]
fn layer_wraps_service() {
    let _svc: SanitizePath<u32> = SanitizePathLayer.layer(7u32);
    let _direct: SanitizePath<u32> = SanitizePath::sanitize_paths(7u32);
}
