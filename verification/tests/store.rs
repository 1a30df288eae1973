use kvcache::db::{Db, DbValue};

#[test]
fn get_missing_key_fails_not_found() {
    let db = Db::new();
    let r = db.get("absent", 100);
    assert_eq!(r, Err("Key not found\n".to_string()));
}

#[test]
fn set_then_get_returns_value() {
    let mut db = Db::new();
    let r = db.set("a".to_string(), DbValue::Text("hello".to_string(), None), None, 100);
    assert_eq!(r, Ok("OK\n".to_string()));
    assert_eq!(db.get("a", 100), Ok("hello\n".to_string()));
}

#[test]
fn set_without_ttl_never_expires() {
    let mut db = Db::new();
    db.set("k".to_string(), DbValue::Text("v".to_string(), None), None, 0)
        .unwrap();
    assert_eq!(db.get("k", 0), Ok("v\n".to_string()));
    assert_eq!(db.get("k", u64::MAX), Ok("v\n".to_string()));
}

#[test]
fn set_with_ttl_expires_after_deadline() {
    let mut db = Db::new();
    db.set("k".to_string(), DbValue::Text("v".to_string(), None), Some(10), 100)
        .unwrap();
    assert_eq!(db.get("k", 100), Ok("v\n".to_string()));
    assert_eq!(db.get("k", 109), Ok("v\n".to_string()));
    // the expiration instant itself already counts as expired
    assert_eq!(db.get("k", 110), Err("Key not found or expired\n".to_string()));
    assert_eq!(db.get("k", 200), Err("Key not found or expired\n".to_string()));
}

#[test]
fn set_existing_key_is_rejected() {
    let mut db = Db::new();
    db.set("k".to_string(), DbValue::Text("one".to_string(), None), None, 0)
        .unwrap();
    let r = db.set("k".to_string(), DbValue::Text("two".to_string(), None), None, 0);
    assert_eq!(r, Err("Key already in use\n".to_string()));
    assert_eq!(db.get("k", 0), Ok("one\n".to_string()));
}

#[test]
fn int_values_render_in_decimal() {
    let mut db = Db::new();
    db.set("n".to_string(), DbValue::Int(-42, None), None, 0).unwrap();
    db.set("m".to_string(), DbValue::Int(i32::MIN, None), None, 0).unwrap();
    db.set("z".to_string(), DbValue::Int(0, None), None, 0).unwrap();
    assert_eq!(db.get("n", 0), Ok("-42\n".to_string()));
    assert_eq!(db.get("m", 0), Ok("-2147483648\n".to_string()));
    assert_eq!(db.get("z", 0), Ok("0\n".to_string()));
}

#[test]
fn table_values_render_braced() {
    let mut db = Db::new();
    let inner = vec![
        ("x".to_string(), DbValue::Int(1, None)),
        ("y".to_string(), DbValue::Text("two".to_string(), None)),
    ];
    db.set("t".to_string(), DbValue::Table(inner, None), None, 0).unwrap();
    assert_eq!(db.get("t", 0), Ok("{x: 1, y: two}\n".to_string()));
}

#[test]
fn remove_expired_removes_exactly_the_expired() {
    let mut db = Db::new();
    db.set("gone".to_string(), DbValue::Text("a".to_string(), None), Some(5), 0)
        .unwrap();
    db.set("exact".to_string(), DbValue::Text("b".to_string(), None), Some(10), 0)
        .unwrap();
    db.set("alive".to_string(), DbValue::Text("c".to_string(), None), Some(20), 0)
        .unwrap();
    db.set("forever".to_string(), DbValue::Text("d".to_string(), None), None, 0)
        .unwrap();
    db.remove_expired(10);
    // expiration at or before the sweep instant is removed
    assert_eq!(db.get("gone", 10), Err("Key not found\n".to_string()));
    assert_eq!(db.get("exact", 10), Err("Key not found\n".to_string()));
    assert_eq!(db.get("alive", 10), Ok("c\n".to_string()));
    assert_eq!(db.get("forever", 10), Ok("d\n".to_string()));
    // a second sweep changes nothing more
    db.remove_expired(10);
    assert_eq!(db.get("alive", 10), Ok("c\n".to_string()));
    assert_eq!(db.get("forever", 10), Ok("d\n".to_string()));
}

#[test]
fn expired_key_is_not_evicted_by_get() {
    let mut db = Db::new();
    db.set("k".to_string(), DbValue::Text("v".to_string(), None), Some(1), 0)
        .unwrap();
    assert_eq!(db.get("k", 5), Err("Key not found or expired\n".to_string()));
    // still present: a sweep at an earlier instant keeps it, and it stays expired
    db.remove_expired(0);
    assert_eq!(db.get("k", 0), Ok("v\n".to_string()));
}

#[test]
fn ttl_zero_expires_immediately() {
    let mut db = Db::new();
    db.set("k".to_string(), DbValue::Text("5".to_string(), None), Some(0), 77)
        .unwrap();
    assert_eq!(db.get("k", 77), Err("Key not found or expired\n".to_string()));
}

#[test]
fn json_from_text_accepts_documents_only() {
    let v = DbValue::json_from_text("{\"a\": [1, 2, null]}".to_string());
    assert!(v.is_some());
    let mut db = Db::new();
    db.set("j".to_string(), v.unwrap(), None, 0).unwrap();
    assert_eq!(db.get("j", 0), Ok("{\"a\": [1, 2, null]}\n".to_string()));
    assert!(DbValue::json_from_text("{not json".to_string()).is_none());
    assert!(DbValue::json_from_text("".to_string()).is_none());
}

#[test]
fn from_conversions_build_bare_values() {
    let mut db = Db::new();
    db.set("s".to_string(), DbValue::from("word".to_string()), None, 0)
        .unwrap();
    db.set("i".to_string(), DbValue::from(3), None, 0).unwrap();
    let table: Vec<(String, DbValue)> = vec![("k".to_string(), DbValue::from(9))];
    db.set("t".to_string(), DbValue::from(table), None, 0).unwrap();
    assert_eq!(db.get("s", 0), Ok("word\n".to_string()));
    assert_eq!(db.get("i", 0), Ok("3\n".to_string()));
    assert_eq!(db.get("t", 0), Ok("{k: 9}\n".to_string()));
}
