use kvcache::db::{Db, DbValue};

fn sample_store() -> Db {
    let mut db = Db::new();
    db.set("text".to_string(), DbValue::Text("hello world".to_string(), None), None, 0)
        .unwrap();
    db.set("int".to_string(), DbValue::Int(-7, None), Some(50), 10)
        .unwrap();
    let json = DbValue::json_from_text("[1, {\"k\": true}]".to_string()).unwrap();
    db.set("doc".to_string(), json, None, 0).unwrap();
    let inner = vec![
        ("a".to_string(), DbValue::Int(1, None)),
        (
            "b".to_string(),
            DbValue::Table(vec![("deep".to_string(), DbValue::Text("x".to_string(), None))], None),
        ),
    ];
    db.set("table".to_string(), DbValue::Table(inner, None), Some(100), 10)
        .unwrap();
    db
}

#[test]
fn snapshot_roundtrip_reproduces_the_mapping() {
    let db = sample_store();
    let image = db.make_snap();
    let mut fresh = Db::new();
    assert_eq!(fresh.get_snap(image.as_str()), Ok(()));
    // same keys, same values, same expiration instants
    assert_eq!(fresh.get("text", u64::MAX), db.get("text", u64::MAX));
    assert_eq!(fresh.get("int", 59), db.get("int", 59));
    assert_eq!(fresh.get("int", 60), Err("Key not found or expired\n".to_string()));
    assert_eq!(fresh.get("doc", 0), db.get("doc", 0));
    assert_eq!(fresh.get("table", 0), Ok("{a: 1, b: {deep: x}}\n".to_string()));
    // a second image of the restored store is the same image
    assert_eq!(fresh.make_snap(), image);
}

#[test]
fn snapshot_of_empty_store_restores_empty() {
    let db = Db::new();
    let image = db.make_snap();
    let mut fresh = Db::new();
    fresh.set("old".to_string(), DbValue::Int(1, None), None, 0).unwrap();
    assert_eq!(fresh.get_snap(image.as_str()), Ok(()));
    // the load replaces the mapping wholesale
    assert_eq!(fresh.get("old", 0), Err("Key not found\n".to_string()));
}

#[test]
fn bad_snapshot_leaves_store_untouched() {
    let mut db = sample_store();
    let before = db.make_snap();
    for garbage in ["", "not a snapshot", "2;1:aTN1:x", "1;1:aXN1:x", "0;trailing"] {
        let r = db.get_snap(garbage);
        assert_eq!(r, Err("Failed to deserialize data\n".to_string()));
        assert_eq!(db.make_snap(), before);
    }
}

#[test]
fn snapshot_with_duplicate_keys_is_rejected() {
    // two entries under the key "a"
    let image = "2;1:aTN1:x1:aTN1:y";
    let mut db = Db::new();
    assert_eq!(db.get_snap(image), Err("Failed to deserialize data\n".to_string()));
    assert_eq!(db.get("a", 0), Err("Key not found\n".to_string()));
}

#[test]
fn handwritten_snapshot_loads() {
    // one text entry "k" -> "hi", expiring at instant 12
    let image = "1;1:kTE12;2:hi";
    let mut db = Db::new();
    assert_eq!(db.get_snap(image), Ok(()));
    assert_eq!(db.get("k", 11), Ok("hi\n".to_string()));
    assert_eq!(db.get("k", 12), Err("Key not found or expired\n".to_string()));
}
