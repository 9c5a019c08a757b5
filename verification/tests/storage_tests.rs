//! Tests of the storage engine, with expiration driven by explicit
//! instants instead of waiting on a clock.

use redis_lite::storage::{Database, Value};

#[test]
fn database_get_set_roundtrip() {
    let mut db = Database::new();
    assert_eq!(db.get(b"Unknown Key1"), None);
    db.set(b"key1".to_vec(), Value::Str(b"Val".to_vec()));
    assert_eq!(db.get(b"key1"), Some(&Value::Str(b"Val".to_vec())));
    assert_eq!(db.get_at(b"key1", 0), Some(&Value::Str(b"Val".to_vec())));
    assert_eq!(db.get_at(b"key1", u128::MAX), Some(&Value::Str(b"Val".to_vec())));
}

#[test]
fn database_expiretime_hides_entry() {
    let mut db = Database::new();
    assert_eq!(db.get_at(b"key", 0), None);
    db.set_with_expiretime(b"key".to_vec(), Value::Str(b"val".to_vec()), Some(100));
    assert_eq!(db.get_at(b"key", 40), Some(&Value::Str(b"val".to_vec())));
    assert_eq!(db.get_at(b"key", 100), Some(&Value::Str(b"val".to_vec())));
    assert_eq!(db.get_at(b"key", 101), None);
    assert!(db.exists_at(b"key", 100));
    assert!(!db.exists_at(b"key", 101));
    assert!(db.exists_include_expired(b"key"));
}

#[test]
fn database_duration_at_converts_to_instant() {
    let mut db = Database::new();
    db.set_with_duration_at(b"k".to_vec(), Value::Str(b"v".to_vec()), Some(100), 1000);
    assert_eq!(db.get_at(b"k", 1100), Some(&Value::Str(b"v".to_vec())));
    assert_eq!(db.get_at(b"k", 1101), None);
    db.set_with_duration_at(b"n".to_vec(), Value::Str(b"w".to_vec()), None, 1000);
    assert_eq!(db.get_at(b"n", u128::MAX), Some(&Value::Str(b"w".to_vec())));
}

#[test]
fn database_clean_and_len() {
    let mut db = Database::new();
    assert_eq!(db.len_include_expired(), 0);
    let val = Value::Str(b"".to_vec());
    db.set(b"k1".to_vec(), val.clone());
    db.set_with_expiretime(b"k2".to_vec(), val.clone(), Some(100));
    db.set_with_expiretime(b"k3".to_vec(), val.clone(), Some(100));
    assert_eq!(db.len_include_expired(), 3);
    // past the deadline the keys are logically gone but still counted
    assert!(!db.exists_at(b"k2", 200));
    assert!(db.exists_include_expired(b"k2"));
    assert_eq!(db.len_include_expired(), 3);
    db.clean_expired_at(200);
    assert!(!db.exists_include_expired(b"k2"));
    assert_eq!(db.len_include_expired(), 1);

    assert_eq!(db.del(b"k2"), None);
    assert!(db.del(b"k1").is_some());
    assert_eq!(db.len_include_expired(), 0);
}

#[test]
fn database_del_returns_entry_and_clears() {
    let mut db = Database::new();
    db.set_with_expiretime(b"k".to_vec(), Value::Str(b"v".to_vec()), Some(77));
    let removed = db.del(b"k");
    assert_eq!(removed, Some((Value::Str(b"v".to_vec()), Some(77))));
    assert!(!db.exists_include_expired(b"k"));
    assert_eq!(db.del(b"k"), None);
}

#[test]
fn database_overwrite_replaces_entry_and_expiry() {
    let mut db = Database::new();
    db.set_with_expiretime(b"k".to_vec(), Value::Str(b"old".to_vec()), Some(10));
    db.set(b"k".to_vec(), Value::Str(b"new".to_vec()));
    // the overwrite cleared the expiry
    assert_eq!(db.get_at(b"k", 1000), Some(&Value::Str(b"new".to_vec())));
    assert_eq!(db.len_include_expired(), 1);
}

#[test]
fn database_set_keep_ttl_preserves_expiry() {
    let mut db = Database::new();
    db.set_with_expiretime(b"k".to_vec(), Value::Str(b"a".to_vec()), Some(500));
    db.set_keep_ttl(b"k", Value::Str(b"b".to_vec()));
    assert_eq!(db.get_at(b"k", 500), Some(&Value::Str(b"b".to_vec())));
    assert_eq!(db.get_at(b"k", 501), None);
}

#[test]
fn database_holds_every_variant() {
    let mut db = Database::new();
    db.set(b"s".to_vec(), Value::Str(b"x".to_vec()));
    db.set(b"l".to_vec(), Value::List(vec![b"a".to_vec(), b"b".to_vec()]));
    db.set(
        b"h".to_vec(),
        Value::Hash(vec![(b"f".to_vec(), b"v".to_vec())]),
    );
    db.set(b"z".to_vec(), Value::SetVal(vec![b"m".to_vec()]));
    assert_eq!(db.len_include_expired(), 4);
    assert_eq!(
        db.get_at(b"l", 0),
        Some(&Value::List(vec![b"a".to_vec(), b"b".to_vec()]))
    );
}

#[test]
fn value_to_bytes_renders_each_variant() {
    assert_eq!(Value::Str(b"abc".to_vec()).to_bytes(), b"abc".to_vec());
    assert_eq!(
        Value::List(vec![b"a".to_vec(), b"b".to_vec(), b"c".to_vec()]).to_bytes(),
        b"a b c".to_vec()
    );
    assert_eq!(Value::List(vec![]).to_bytes(), Vec::<u8>::new());
    assert_eq!(
        Value::Hash(vec![
            (b"f1".to_vec(), b"v1".to_vec()),
            (b"f2".to_vec(), b"v2".to_vec())
        ])
        .to_bytes(),
        b"f1:v1,f2:v2,".to_vec()
    );
    assert_eq!(
        Value::SetVal(vec![b"x".to_vec(), b"y".to_vec()]).to_bytes(),
        b"x y".to_vec()
    );
}

#[test]
fn clocked_operations_agree_with_no_expiry() {
    // with no expiration involved, the wall clock cannot matter
    let mut db = Database::new();
    db.set(b"k".to_vec(), Value::Str(b"v".to_vec()));
    assert!(db.exists_now(b"k"));
    assert!(!db.exists_now(b"missing"));
    assert_eq!(db.get(b"k"), Some(&Value::Str(b"v".to_vec())));
    db.set_with_duration(b"d".to_vec(), Value::Str(b"w".to_vec()), None);
    assert_eq!(db.get(b"d"), Some(&Value::Str(b"w".to_vec())));
    db.clean_expired();
    assert_eq!(db.len_include_expired(), 2);
}
