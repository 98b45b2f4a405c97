use act_cache_store::store::{chunk_file_name, Store};
use act_cache_store::StoreError;

#[test]
fn chunk_name_encodes_offset_fixed_width() {
    assert_eq!(
        chunk_file_name("p", false, 7),
        "p.uploadTemporary.000000000007"
    );
    assert_eq!(
        chunk_file_name("a/b", true, 123456789),
        "a/b.gzippedStream.uploadTemporary.000123456789"
    );
}

#[test]
fn two_chunks_merge_in_offset_order() {
    let mut store = Store::new();
    store.save_file("r/f", false, 0, b"AAAA");
    store.save_file("r/f", false, 4, b"BBBB");
    let merged = store.finalize_files("**/*");
    assert_eq!(merged, 8);
    let (is_gzip, data) = store.dump_file("r/f", None).unwrap();
    assert!(!is_gzip);
    assert_eq!(data, b"AAAABBBB".to_vec());
}

#[test]
fn chunks_uploaded_out_of_order_still_merge_ascending() {
    let mut store = Store::new();
    store.save_file("r/f", false, 4, b"BBBB");
    store.save_file("r/f", false, 8, b"CC");
    store.save_file("r/f", false, 0, b"AAAA");
    let merged = store.finalize_files("**/*");
    assert_eq!(merged, 10);
    let (_, data) = store.dump_file("r/f", None).unwrap();
    assert_eq!(data, b"AAAABBBBCC".to_vec());
}

#[test]
fn second_finalize_is_a_noop() {
    let mut store = Store::new();
    store.save_file("r/f", false, 0, b"hello");
    assert_eq!(store.finalize_files("**/*"), 5);
    assert_eq!(store.finalize_files("**/*"), 0);
    let (_, data) = store.dump_file("r/f", None).unwrap();
    assert_eq!(data, b"hello".to_vec());
}

#[test]
fn retried_chunk_overwrites_not_duplicates() {
    let mut store = Store::new();
    store.save_file("r/f", false, 0, b"xxxx");
    store.save_file("r/f", false, 0, b"AAAA");
    assert_eq!(store.finalize_files("**/*"), 4);
    let (_, data) = store.dump_file("r/f", None).unwrap();
    assert_eq!(data, b"AAAA".to_vec());
}

#[test]
fn gzip_tag_survives_merge_and_read() {
    let mut store = Store::new();
    store.save_file("r/f.txt", true, 0, b"zipped");
    assert_eq!(store.finalize_files("**/*"), 6);
    let (is_gzip, data) = store.dump_file("r/f.txt", None).unwrap();
    assert!(is_gzip);
    assert_eq!(data, b"zipped".to_vec());
    // the listing reports the plain name, gzip marker stripped
    let listed = store.list_all_files("r");
    assert_eq!(listed, vec!["f.txt".to_string()]);
}

#[test]
fn two_logical_files_merge_independently() {
    let mut store = Store::new();
    store.save_file("r/a", false, 0, b"11");
    store.save_file("r/b", false, 0, b"2222");
    assert_eq!(store.finalize_files("**/*"), 6);
    let (_, a) = store.dump_file("r/a", None).unwrap();
    let (_, b) = store.dump_file("r/b", None).unwrap();
    assert_eq!(a, b"11".to_vec());
    assert_eq!(b, b"2222".to_vec());
}

#[test]
fn range_read_returns_exact_slice() {
    let mut store = Store::new();
    store.save_file("r/f", false, 0, b"0123456789");
    store.finalize_files("**/*");
    let (_, data) = store.dump_file("r/f", Some(2..5)).unwrap();
    assert_eq!(data, b"234".to_vec());
}

#[test]
fn range_read_past_end_is_short_not_an_error() {
    let mut store = Store::new();
    store.save_file("r/f", false, 0, b"0123456789");
    store.finalize_files("**/*");
    let (_, data) = store.dump_file("r/f", Some(8..20)).unwrap();
    assert_eq!(data, b"89".to_vec());
    let (_, empty) = store.dump_file("r/f", Some(15..20)).unwrap();
    assert!(empty.is_empty());
}

#[test]
fn read_of_absent_path_is_not_found() {
    let store = Store::new();
    assert_eq!(store.dump_file("nope", None), Err(StoreError::NotFound));
}

#[test]
fn listing_unknown_directory_is_empty() {
    let store = Store::new();
    assert!(store.list_all_files("artifacts/42").is_empty());
}

#[test]
fn listing_is_relative_and_recursive() {
    let mut store = Store::new();
    store.save_file("artifacts/42/dir/x", false, 0, b"x");
    store.save_file("artifacts/42/y", false, 0, b"y");
    store.save_file("artifacts/43/z", false, 0, b"z");
    store.finalize_files("**/*");
    let listed = store.list_all_files("artifacts/42");
    assert_eq!(listed, vec!["dir/x".to_string(), "y".to_string()]);
}

#[test]
fn finalize_pattern_selects_only_matching_chunks() {
    let mut store = Store::new();
    store.save_file("caches/k1/v1", false, 0, b"one");
    store.save_file("caches/k2/v1", false, 0, b"two");
    // finalize only k1's chunks
    assert_eq!(store.finalize_files("caches/k1/v1*"), 3);
    let (_, data) = store.dump_file("caches/k1/v1", None).unwrap();
    assert_eq!(data, b"one".to_vec());
    // k2's chunk is still pending, so its merged file does not exist yet
    assert_eq!(
        store.dump_file("caches/k2/v1", None),
        Err(StoreError::NotFound)
    );
    // a later finalize picks it up
    assert_eq!(store.finalize_files("**/*"), 3);
    let (_, data2) = store.dump_file("caches/k2/v1", None).unwrap();
    assert_eq!(data2, b"two".to_vec());
}
