use redis_starter_rust::decimal::{parse_i64, parse_usize};
use redis_starter_rust::Data;

#[test]
fn empty_store_reads_nothing() {
    let mut d = Data::new();
    assert_eq!(d.get(b"k", 0), None);
    assert!(!d.holds_key(b"k"));
}

#[test]
fn expired_entry_is_removed_on_read() {
    let mut d = Data::new();
    assert_eq!(d.set(b"k".to_vec(), b"v".to_vec(), Some(10), 100), None);
    assert_eq!(d.get(b"k", 109), Some(b"v".to_vec()));
    assert!(d.holds_key(b"k"));
    assert_eq!(d.get(b"k", 110), None);
    assert!(!d.holds_key(b"k"));
}

#[test]
fn set_over_expired_entry_reports_nothing() {
    let mut d = Data::new();
    d.set(b"k".to_vec(), b"old".to_vec(), Some(1), 0);
    assert_eq!(d.set(b"k".to_vec(), b"new".to_vec(), None, 5), None);
    assert_eq!(d.get(b"k", 1_000), Some(b"new".to_vec()));
}

#[test]
fn keys_are_kept_apart() {
    let mut d = Data::new();
    d.set(b"a".to_vec(), b"1".to_vec(), None, 0);
    d.set(b"ab".to_vec(), b"2".to_vec(), None, 0);
    d.set(Vec::new(), b"3".to_vec(), None, 0);
    assert_eq!(d.get(b"a", 0), Some(b"1".to_vec()));
    assert_eq!(d.get(b"ab", 0), Some(b"2".to_vec()));
    assert_eq!(d.get(b"", 0), Some(b"3".to_vec()));
    assert_eq!(d.get(b"b", 0), None);
}

#[test]
fn decimal_parsing() {
    assert_eq!(parse_usize(b"x123y", 1, 4), Some(123));
    assert_eq!(parse_usize(b"+7", 0, 2), Some(7));
    assert_eq!(parse_usize(b"", 0, 0), None);
    assert_eq!(parse_usize(b"-1", 0, 2), None);
    assert_eq!(parse_usize(b"99999999999999999999999", 0, 23), None);
    assert_eq!(parse_i64(b"-9223372036854775808"), Some(i64::MIN));
    assert_eq!(parse_i64(b"9223372036854775807"), Some(i64::MAX));
    assert_eq!(parse_i64(b"9223372036854775808"), None);
    assert_eq!(parse_i64(b"-"), None);
    assert_eq!(parse_i64(b"007"), Some(7));
}
