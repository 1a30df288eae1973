use kvcache::db::Db;
use kvcache::parser::{parse_command, RedisCommand};
use kvcache::session::handle_request;

#[test]
fn parse_get() {
    match parse_command(b"GET a\n") {
        RedisCommand::Get(k) => assert_eq!(k, "a"),
        _ => panic!("expected a GET"),
    }
}

#[test]
fn parse_set_without_ttl() {
    match parse_command(b"SET key value\n") {
        RedisCommand::Put(k, v, t) => {
            assert_eq!(k, "key");
            assert_eq!(v, "value");
            assert!(t.is_none());
        },
        _ => panic!("expected a SET"),
    }
}

#[test]
fn parse_set_with_ttl() {
    match parse_command(b"  SET \t key value 30 \r\n") {
        RedisCommand::Put(k, v, t) => {
            assert_eq!(k, "key");
            assert_eq!(v, "value");
            assert_eq!(t, Some("30".to_string()));
        },
        _ => panic!("expected a SET"),
    }
}

#[test]
fn parse_rejects_wrong_shapes() {
    assert!(matches!(parse_command(b""), RedisCommand::Unknown));
    assert!(matches!(parse_command(b"FOO\n"), RedisCommand::Unknown));
    assert!(matches!(parse_command(b"GET\n"), RedisCommand::Unknown));
    assert!(matches!(parse_command(b"GET a b\n"), RedisCommand::Unknown));
    assert!(matches!(parse_command(b"SET a\n"), RedisCommand::Unknown));
    assert!(matches!(parse_command(b"SET a b c d\n"), RedisCommand::Unknown));
    assert!(matches!(parse_command(b"get a\n"), RedisCommand::Unknown));
}

#[test]
fn parse_invalid_utf8_is_unknown() {
    assert!(matches!(parse_command(&[0xff, 0xfe, b'G']), RedisCommand::Unknown));
}

#[test]
fn protocol_set_then_get_answers_the_value() {
    let mut db = Db::new();
    let r1 = handle_request(&mut db, b"SET a 5\n", 1000);
    assert_eq!(r1, "OK\n");
    let r2 = handle_request(&mut db, b"GET a\n", 1000);
    assert!(r2.contains('5'));
    assert_eq!(r2, "5\n");
}

#[test]
fn protocol_get_missing_answers_error_line() {
    let mut db = Db::new();
    let r = handle_request(&mut db, b"GET missing\n", 0);
    assert_eq!(r, "Key not found\n");
}

#[test]
fn protocol_unknown_command_answers_error_line() {
    let mut db = Db::new();
    let r = handle_request(&mut db, b"FOO\n", 0);
    assert_eq!(r, "Unknown command\n");
}

#[test]
fn protocol_ttl_zero_expires_at_once() {
    let mut db = Db::new();
    assert_eq!(handle_request(&mut db, b"SET a 5 0\n", 500), "OK\n");
    let r = handle_request(&mut db, b"GET a\n", 500);
    assert_eq!(r, "Key not found or expired\n");
}

#[test]
fn protocol_set_without_ttl_gets_the_default() {
    let mut db = Db::new();
    assert_eq!(handle_request(&mut db, b"SET a v\n", 0), "OK\n");
    // alive strictly before the default deadline, expired at it
    assert_eq!(handle_request(&mut db, b"GET a\n", 999), "v\n");
    let mut db2 = Db::new();
    assert_eq!(handle_request(&mut db2, b"SET a v\n", 0), "OK\n");
    assert_eq!(handle_request(&mut db2, b"GET a\n", 1000), "Key not found or expired\n");
}

#[test]
fn protocol_unparseable_ttl_falls_back_to_default() {
    let mut db = Db::new();
    assert_eq!(handle_request(&mut db, b"SET a v soon\n", 0), "OK\n");
    assert_eq!(handle_request(&mut db, b"GET a\n", 999), "v\n");
    let mut db2 = Db::new();
    assert_eq!(handle_request(&mut db2, b"SET a v 18446744073709551616\n", 0), "OK\n");
    assert_eq!(handle_request(&mut db2, b"GET a\n", 1000), "Key not found or expired\n");
}

#[test]
fn protocol_set_existing_key_reports_in_use() {
    let mut db = Db::new();
    assert_eq!(handle_request(&mut db, b"SET a 1\n", 0), "OK\n");
    assert_eq!(handle_request(&mut db, b"SET a 2\n", 0), "Key already in use\n");
    assert_eq!(handle_request(&mut db, b"GET a\n", 0), "1\n");
}

#[test]
fn protocol_handles_multibyte_keys() {
    let mut db = Db::new();
    assert_eq!(handle_request(&mut db, "SET clé ça\n".as_bytes(), 0), "OK\n");
    assert_eq!(handle_request(&mut db, "GET clé\n".as_bytes(), 0), "ça\n");
}
