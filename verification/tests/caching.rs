use nice_orm::cache::{
    cache_key, str_starts_with, CacheMiddleware, CacheState, Interceptor, MiddlewareChain,
};

#[test]
fn unfiltered_key_is_plain() {
    assert_eq!(cache_key("orm", "account", "count", None), "orm:account:count");
}

#[test]
fn filtered_key_compresses_and_encodes_the_filter() {
    let key = cache_key("orm", "account", "count", Some("\"account\".\"username\"=$1"));
    assert!(key.starts_with("orm:account:count:"));
    // The filter text itself never appears in the key: it is compressed
    // and base64-encoded first.
    assert_ne!(key, "orm:account:count:\"account\".\"username\"=$1");
    let suffix = &key["orm:account:count:".len()..];
    assert!(!suffix.is_empty());
    assert!(!suffix.contains('$'));
    // The same filter yields the same key; a different filter another.
    let again = cache_key("orm", "account", "count", Some("\"account\".\"username\"=$1"));
    assert_eq!(key, again);
    let other = cache_key("orm", "account", "count", Some("\"account\".\"id\"=$1"));
    assert_ne!(key, other);
}

#[test]
fn cache_state_stores_and_replaces() {
    let mut state = CacheState::new();
    assert_eq!(state.get("orm:account:count"), None);
    state.set("orm:account:count".to_string(), 4);
    assert_eq!(state.get("orm:account:count"), Some(4));
    state.set("orm:account:count".to_string(), 9);
    assert_eq!(state.get("orm:account:count"), Some(9));
    assert_eq!(state.entries.len(), 1);
}

#[test]
fn prefix_test_matches_prefixes_only() {
    assert!(str_starts_with("orm:account:count:", "orm:account:count:abc"));
    assert!(!str_starts_with("orm:account:count:", "orm:account:count"));
    assert!(str_starts_with("", "anything"));
}

#[test]
fn flush_increments_cached_count_and_drops_filtered_variants() {
    let mut cm = CacheMiddleware::new("orm".to_string());
    cm.aggregate_store("account", "count", None, 4);
    cm.aggregate_store("account", "count", Some("\"account\".\"username\"=$1"), 1);
    assert_eq!(cm.aggregate_lookup("account", "count", None), Some(4));
    assert_eq!(
        cm.aggregate_lookup("account", "count", Some("\"account\".\"username\"=$1")),
        Some(1)
    );

    cm.flush("account").unwrap();

    // The unfiltered count reflects the inserted row without a
    // recomputation; every filtered count must be recomputed.
    assert_eq!(cm.aggregate_lookup("account", "count", None), Some(5));
    assert_eq!(
        cm.aggregate_lookup("account", "count", Some("\"account\".\"username\"=$1")),
        None
    );
}

#[test]
fn flush_does_not_resurrect_an_uncached_count() {
    let mut cm = CacheMiddleware::new("orm".to_string());
    cm.flush("account").unwrap();
    assert_eq!(cm.aggregate_lookup("account", "count", None), None);
}

#[test]
fn flush_leaves_other_tables_alone() {
    let mut cm = CacheMiddleware::new("orm".to_string());
    cm.aggregate_store("post", "count", None, 3);
    cm.flush("account").unwrap();
    assert_eq!(cm.aggregate_lookup("post", "count", None), Some(3));
}

#[test]
fn flush_refuses_a_counter_at_the_bound() {
    let mut cm = CacheMiddleware::new("orm".to_string());
    cm.aggregate_store("account", "count", None, i64::MAX);
    assert!(cm.flush("account").is_err());
    assert_eq!(cm.aggregate_lookup("account", "count", None), Some(i64::MAX));
}

#[test]
fn chain_serves_cached_counts_and_short_circuits() {
    let mut chain = MiddlewareChain::new();
    chain.add_middleware(Interceptor::Cache(CacheMiddleware::new("orm".to_string())));

    // Miss: the terminal query must run; its result is then cached.
    assert_eq!(chain.aggregate_begin("account", "count", None), None);
    chain.aggregate_complete("account", "count", None, 4);
    assert_eq!(chain.aggregate_begin("account", "count", None), Some(4));

    // A flush invalidates, so the unfiltered count moves with the data.
    chain.flush_finish("account").unwrap();
    assert_eq!(chain.aggregate_begin("account", "count", None), Some(5));
}

#[test]
fn chain_last_registered_interceptor_answers_first() {
    let mut chain = MiddlewareChain::new();
    let mut inner = CacheMiddleware::new("inner".to_string());
    inner.aggregate_store("account", "count", None, 1);
    let mut outer = CacheMiddleware::new("outer".to_string());
    outer.aggregate_store("account", "count", None, 2);
    chain.add_middleware(Interceptor::Cache(inner));
    chain.add_middleware(Interceptor::Cache(outer));
    assert_eq!(chain.aggregate_begin("account", "count", None), Some(2));
}
