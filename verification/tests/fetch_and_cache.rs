use cdbgen_rs::cache::{Cache, CacheMetadata, CachedSource};
use cdbgen_rs::error::FetchError;
use cdbgen_rs::fetcher::{
    after_attempt, conditional_headers, partition_outcomes, AttemptResult, FetchOutcome,
    FetchStep, FetchedSource, MAX_ATTEMPTS,
};

fn metadata(url: &str) -> CacheMetadata {
    CacheMetadata {
        url: url.to_string(),
        etag: Some("\"abc\"".to_string()),
        last_modified: Some("Wed, 21 Oct 2015 07:28:00 GMT".to_string()),
    }
}

#[test]
fn cache_paths() {
    let cache = Cache::new("/var/cache/x".to_string());
    assert_eq!(cache.body_path("a"), "/var/cache/x/a.body");
    assert_eq!(cache.metadata_path("a"), "/var/cache/x/a.toml");
    let slash = Cache::new("/tmp/".to_string());
    assert_eq!(slash.body_path("b"), "/tmp/b.body");
    assert_eq!(Cache::default_root().root(), "/var/cache/cdbgen-rs");
}

#[test]
fn cache_temporary_files() {
    let cache = Cache::new("/var/cache/x".to_string());
    assert_eq!(cache.tmp_path("a", 1234, "body"), "/var/cache/x/a.1234.body.tmp");
    assert_eq!(cache.tmp_path("a", 0, "toml"), "/var/cache/x/a.0.toml.tmp");
    assert_eq!(
        cache.tmp_path("b", u32::MAX, "body"),
        "/var/cache/x/b.4294967295.body.tmp"
    );
}

#[test]
fn cached_copy_needs_matching_url() {
    let hit = Cache::accept_cached(metadata("https://example.com/a"), b"body".to_vec(), "https://example.com/a");
    let hit = hit.unwrap();
    assert_eq!(hit.body, b"body");
    assert_eq!(hit.metadata.etag.as_deref(), Some("\"abc\""));
    assert!(Cache::accept_cached(metadata("https://example.com/a"), b"body".to_vec(), "https://example.com/b").is_none());
}

#[test]
fn fresh_bodies_are_cached_except_in_dry_runs() {
    assert!(matches!(
        after_attempt("a", 1, true, false, false, AttemptResult::Fresh),
        FetchStep::UseFresh { store_in_cache: true }
    ));
    assert!(matches!(
        after_attempt("a", 1, true, false, true, AttemptResult::Fresh),
        FetchStep::UseFresh { store_in_cache: false }
    ));
}

#[test]
fn not_modified_uses_cache_when_usable() {
    assert!(matches!(
        after_attempt("a", 1, true, false, false, AttemptResult::NotModified),
        FetchStep::UseCached { stale: false }
    ));
    assert!(matches!(
        after_attempt("a", 1, false, false, false, AttemptResult::NotModified),
        FetchStep::Retry { delay_ms: 100 }
    ));
}

#[test]
fn retries_then_stale_cache_or_failure() {
    assert!(matches!(
        after_attempt("a", 3, true, false, false, AttemptResult::Failed("HTTP 500".into())),
        FetchStep::Retry { delay_ms: 300 }
    ));
    assert!(matches!(
        after_attempt("a", MAX_ATTEMPTS, true, false, false, AttemptResult::Failed("HTTP 500".into())),
        FetchStep::UseCached { stale: true }
    ));
    match after_attempt("a", MAX_ATTEMPTS, true, true, false, AttemptResult::Failed("HTTP 500".into())) {
        FetchStep::Fail(FetchError::Unavailable { source_id, message }) => {
            assert_eq!(source_id, "a");
            assert_eq!(message, "HTTP 500");
        }
        other => panic!("{other:?}"),
    }
    match after_attempt("a", MAX_ATTEMPTS, false, false, false, AttemptResult::NotModified) {
        FetchStep::Fail(FetchError::Unavailable { message, .. }) => {
            assert_eq!(message, "server returned 304 without usable cache")
        }
        other => panic!("{other:?}"),
    }
}

#[test]
fn validators_are_sent_unless_refresh_is_forced() {
    let cached = CachedSource {
        body: b"x".to_vec(),
        metadata: metadata("https://example.com/a"),
    };
    let (etag, modified) = conditional_headers(Some(&cached), false);
    assert_eq!(etag.as_deref(), Some("\"abc\""));
    assert_eq!(modified.as_deref(), Some("Wed, 21 Oct 2015 07:28:00 GMT"));
    assert_eq!(conditional_headers(Some(&cached), true), (None, None));
    assert_eq!(conditional_headers(None, false), (None, None));
}

#[test]
fn outcomes_split_into_available_and_unavailable() {
    let outcomes = vec![
        (
            "a".to_string(),
            FetchOutcome::Available(FetchedSource {
                body: b"a.example".to_vec(),
                from_cache: false,
                stale: false,
            }),
        ),
        (
            "b".to_string(),
            FetchOutcome::Unavailable {
                error: FetchError::Unavailable {
                    source_id: "b".into(),
                    message: "x".into(),
                },
            },
        ),
    ];
    let (available, unavailable) = partition_outcomes(outcomes);
    assert_eq!(available.len(), 1);
    assert_eq!(available[0].0, "a");
    assert_eq!(available[0].1.body, b"a.example");
    assert!(unavailable.contains("b"));
    assert_eq!(unavailable.len(), 1);
}
