use lockcmp::source::{classify_parsed, classify_source, SourceKind};

#[test]
fn plain_path_is_a_path() {
    assert!(matches!(classify_source("Cargo.lock"), SourceKind::Path));
    assert!(matches!(classify_source("some/dir/Cargo.lock"), SourceKind::Path));
}

#[test]
fn urls_are_classified_by_scheme() {
    assert!(matches!(classify_source("file:///tmp/Cargo.lock"), SourceKind::FileUrl));
    assert!(matches!(classify_source("http://example.com/Cargo.lock"), SourceKind::HttpUrl));
    assert!(matches!(classify_source("HTTPS://example.com/Cargo.lock"), SourceKind::HttpUrl));
    match classify_source("ftp://example.com/Cargo.lock") {
        SourceKind::Unsupported(s) => assert_eq!(s, "ftp"),
        other => panic!("unexpected {:?}", other),
    }
}

#[test]
fn malformed_url_is_invalid() {
    match classify_source("http://[::1/Cargo.lock") {
        SourceKind::Invalid(m) => assert!(!m.is_empty()),
        other => panic!("unexpected {:?}", other),
    }
}

#[test]
fn classify_parsed_follows_the_scheme() {
    assert!(matches!(classify_parsed(Ok("file".to_string())), SourceKind::FileUrl));
    assert!(matches!(classify_parsed(Ok("http".to_string())), SourceKind::HttpUrl));
    assert!(matches!(classify_parsed(Ok("https".to_string())), SourceKind::HttpUrl));
    assert!(matches!(classify_parsed(Ok("git".to_string())), SourceKind::Unsupported(s) if s == "git"));
    assert!(matches!(classify_parsed(Err(None)), SourceKind::Path));
    assert!(matches!(classify_parsed(Err(Some("bad".to_string()))), SourceKind::Invalid(m) if m == "bad"));
}
