use respkv::dataframe::DataFrame;

#[test]
fn plain_never_expires() {
    assert!(!DataFrame::plain(b"v".to_vec()).has_expired(u64::MAX));
}

#[test]
fn expiring_entry_expires_at_its_deadline() {
    let f = DataFrame::with_expiration(b"v".to_vec(), 50, 1000);
    assert!(!f.has_expired(1049));
    assert!(f.has_expired(1050));
    assert!(f.has_expired(5000));
}

#[test]
fn expiring_entry_with_huge_ttl_does_not_expire() {
    let f = DataFrame::with_expiration(b"v".to_vec(), u64::MAX as u128 * 1000, 0);
    assert!(!f.has_expired(u64::MAX));
}

#[test]
fn data_and_duplicate_keep_the_bytes() {
    let f = DataFrame::with_expiration(b"abc".to_vec(), 5, 7);
    assert_eq!(f.data(), &b"abc".to_vec());
    assert_eq!(f.duplicate(), f);
}
