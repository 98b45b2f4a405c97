use act_cache_store::artifact::{
    artifact_dir, artifact_path, is_gzip_encoding, is_supported_version, size_matches,
    upload_range, FinalizeQuery, ItemPathQuery, VersionQuery,
};
use act_cache_store::cache::{
    cache_entry_path, cache_finalize_pattern, reserve_cache_id, select_cache_key, split_keys,
    EnumerateQuery, ReserveCacheQuery,
};
use act_cache_store::range::parse_range;
use act_cache_store::store::Store;
use act_cache_store::StoreError;

#[test]
fn parse_range_accepts_the_wire_form() {
    assert_eq!(parse_range("bytes 10-19/20"), Ok(10..20));
    assert_eq!(parse_range("bytes 8388608-10485759/10485760"), Ok(8388608..10485760));
    assert_eq!(parse_range("bytes 0-0/1"), Ok(0..1));
}

#[test]
fn parse_range_rejects_garbage() {
    assert_eq!(parse_range("garbage"), Err(StoreError::MalformedRange));
    assert_eq!(parse_range("bytes 10-19"), Err(StoreError::MalformedRange));
    assert_eq!(parse_range("bytes -19/20"), Err(StoreError::MalformedRange));
    assert_eq!(parse_range("bytes 10-/20"), Err(StoreError::MalformedRange));
    assert_eq!(parse_range("bytes a-b/20"), Err(StoreError::MalformedRange));
    assert_eq!(parse_range(""), Err(StoreError::MalformedRange));
    assert_eq!(
        parse_range("bytes 99999999999999999999-1/2"),
        Err(StoreError::MalformedRange)
    );
}

#[test]
fn version_gate_accepts_only_the_preview_version() {
    let good = VersionQuery { api_version: "6.0-preview".to_string() };
    let bad = VersionQuery { api_version: "7.0".to_string() };
    assert!(is_supported_version(&good));
    assert!(!is_supported_version(&bad));
}

#[test]
fn artifact_paths_join_run_and_item() {
    assert_eq!(artifact_dir("42"), "artifacts/42");
    let q = ItemPathQuery { path: "out/bin.tar".to_string() };
    assert_eq!(artifact_path("42", &q.path), "artifacts/42/out/bin.tar");
}

#[test]
fn gzip_flag_comes_from_the_content_encoding() {
    assert!(is_gzip_encoding(&Some("gzip".to_string())));
    assert!(!is_gzip_encoding(&Some("identity".to_string())));
    assert!(!is_gzip_encoding(&None));
}

#[test]
fn upload_range_defaults_to_the_whole_payload() {
    assert_eq!(upload_range(&None, 16), Ok(0..16));
    assert_eq!(upload_range(&Some("bytes 4-8/16".to_string()), 16), Ok(4..9));
    assert_eq!(
        upload_range(&Some("junk".to_string()), 16),
        Err(StoreError::MalformedRange)
    );
}

#[test]
fn size_mismatch_is_reported_not_fatal() {
    let q = FinalizeQuery { size: 8 };
    assert!(size_matches(&q, 8));
    assert!(!size_matches(&q, 7));
}

#[test]
fn reserve_id_joins_key_and_version() {
    let q = ReserveCacheQuery {
        key: "deps".to_string(),
        version: "v1".to_string(),
        size: 100,
    };
    assert_eq!(reserve_cache_id(&q), "deps/v1");
}

#[test]
fn cache_paths_and_patterns() {
    assert_eq!(cache_entry_path("k", "v"), "caches/k/v");
    assert_eq!(cache_finalize_pattern("k", "v"), "caches/k/v*");
}

#[test]
fn split_keys_splits_on_commas() {
    assert_eq!(split_keys("a,b,c"), vec!["a", "b", "c"]);
    assert_eq!(split_keys("only"), vec!["only"]);
}

#[test]
fn cache_lookup_picks_the_last_existing_key() {
    let mut store = Store::new();
    store.save_file("caches/k1/v", false, 0, b"one");
    store.save_file("caches/k3/v", false, 0, b"three");
    store.finalize_files("**/*");
    let q = EnumerateQuery { keys: "k1,k2,k3".to_string(), version: "v".to_string() };
    assert_eq!(
        select_cache_key(&store, &q.keys, &q.version),
        Some("k3".to_string())
    );
    assert_eq!(select_cache_key(&store, "k2,k4", "v"), None);
}
