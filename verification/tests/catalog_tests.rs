use ascii_render::ConfigError;
use ascii_render::catalog::Catalog;

#[test]
fn build_groups_tokens_by_length() {
    let catalog = Catalog::build(b"a\nbb\nccc").unwrap();
    assert_eq!(catalog.max_len(), 3);
    assert_eq!(catalog.bucket_count(1), 1);
    assert_eq!(catalog.bucket_count(2), 1);
    assert_eq!(catalog.bucket_count(3), 1);
    assert_eq!(catalog.pick_at(1, 0).as_slice(), b"a");
    assert_eq!(catalog.pick_at(2, 0).as_slice(), b"bb");
    assert_eq!(catalog.pick_at(3, 0).as_slice(), b"ccc");
}

#[test]
fn build_discards_empty_lines() {
    let catalog = Catalog::build(b"a\n\nbb\n").unwrap();
    assert_eq!(catalog.max_len(), 2);
    assert_eq!(catalog.bucket_count(1), 1);
    assert_eq!(catalog.bucket_count(2), 1);
}

#[test]
fn build_keeps_source_order_within_a_bucket() {
    let catalog = Catalog::build(b"xx\nbb\na\ncc").unwrap();
    assert_eq!(catalog.bucket_count(2), 3);
    assert_eq!(catalog.pick_at(2, 0).as_slice(), b"xx");
    assert_eq!(catalog.pick_at(2, 1).as_slice(), b"bb");
    assert_eq!(catalog.pick_at(2, 2).as_slice(), b"cc");
}

#[test]
fn build_empty_source_fails() {
    assert_eq!(Catalog::build(b"").unwrap_err(), ConfigError::EmptyVocabulary);
}

#[test]
fn build_only_empty_lines_fails() {
    assert_eq!(Catalog::build(b"\n\n\n").unwrap_err(), ConfigError::EmptyVocabulary);
}

#[test]
fn pick_always_returns_a_token_of_the_requested_length() {
    let catalog = Catalog::build(b"aa\nbb\ncc\nzzzz").unwrap();
    for _ in 0..32 {
        let t = catalog.pick(2);
        assert_eq!(t.len(), 2);
        assert!(t.as_slice() == b"aa" || t.as_slice() == b"bb" || t.as_slice() == b"cc");
    }
}

#[test]
fn pick_from_a_singleton_bucket_returns_that_token() {
    let catalog = Catalog::build(b"qq").unwrap();
    for _ in 0..8 {
        assert_eq!(catalog.pick(2).as_slice(), b"qq");
    }
}
