//! Tests of the command layer: exact request bytes and reply
//! interpretation, plus the error rendering.

use respool::commands;
use respool::RedisError;
use respool::Value;

#[test]
fn set_request_wire_bytes() {
    let bytes = commands::set_request(b"key1", b"value1");
    assert_eq!(
        bytes,
        b"*3\r\n$3\r\nSET\r\n$4\r\nkey1\r\n$6\r\nvalue1\r\n".to_vec()
    );
}

#[test]
fn get_request_wire_bytes() {
    let bytes = commands::get_request(b"key1");
    assert_eq!(bytes, b"*2\r\n$3\r\nGET\r\n$4\r\nkey1\r\n".to_vec());
}

#[test]
fn del_request_wire_bytes() {
    let keys = vec![b"a".to_vec(), b"bb".to_vec()];
    let bytes = commands::del_request(&keys);
    assert_eq!(bytes, b"*3\r\n$3\r\nDEL\r\n$1\r\na\r\n$2\r\nbb\r\n".to_vec());
}

#[test]
fn incr_request_wire_bytes() {
    let bytes = commands::incr_request(b"counter");
    assert_eq!(bytes, b"*2\r\n$4\r\nINCR\r\n$7\r\ncounter\r\n".to_vec());
}

#[test]
fn expire_request_wire_bytes() {
    let bytes = commands::expire_request(b"k", 90);
    assert_eq!(bytes, b"*3\r\n$6\r\nEXPIRE\r\n$1\r\nk\r\n$2\r\n90\r\n".to_vec());
}

#[test]
fn ttl_request_wire_bytes() {
    let bytes = commands::ttl_request(b"k");
    assert_eq!(bytes, b"*2\r\n$3\r\nTTL\r\n$1\r\nk\r\n".to_vec());
}

#[test]
fn set_ex_request_wire_bytes() {
    let bytes = commands::set_ex_request(b"k", b"v", 60);
    assert_eq!(
        bytes,
        b"*4\r\n$5\r\nSETEX\r\n$1\r\nk\r\n$2\r\n60\r\n$1\r\nv\r\n".to_vec()
    );
}

#[test]
fn command_request_builds_bulk_list() {
    let args = vec![b"PING".to_vec()];
    let bytes = commands::command_request(args);
    assert_eq!(bytes, b"*1\r\n$4\r\nPING\r\n".to_vec());
}

#[test]
fn set_reply_accepts_only_ok() {
    assert!(commands::set_reply(&Value::SimpleString(b"OK".to_vec())).is_ok());
    let e = commands::set_reply(&Value::SimpleString(b"NO".to_vec())).unwrap_err();
    assert!(matches!(e, RedisError::ProtocolError(_)));
    let e = commands::set_reply(&Value::Integer(1)).unwrap_err();
    assert!(matches!(e, RedisError::ProtocolError(_)));
}

#[test]
fn get_reply_distinguishes_null_and_bytes() {
    let r = commands::get_reply(Value::BulkString(Some(b"v".to_vec()))).unwrap();
    assert_eq!(r, Some(b"v".to_vec()));
    let r = commands::get_reply(Value::BulkString(None)).unwrap();
    assert_eq!(r, None);
    let e = commands::get_reply(Value::SimpleString(b"OK".to_vec())).unwrap_err();
    assert!(matches!(e, RedisError::ProtocolError(_)));
}

#[test]
fn integer_reply_takes_only_integers() {
    assert_eq!(commands::integer_reply(&Value::Integer(3)).unwrap(), 3);
    let e = commands::integer_reply(&Value::BulkString(None)).unwrap_err();
    assert!(matches!(e, RedisError::ProtocolError(_)));
}

#[test]
fn expire_reply_maps_one_and_zero() {
    assert!(commands::expire_reply(&Value::Integer(1)).unwrap());
    assert!(!commands::expire_reply(&Value::Integer(0)).unwrap());
    let e = commands::expire_reply(&Value::Integer(2)).unwrap_err();
    assert!(matches!(e, RedisError::ProtocolError(_)));
    let e = commands::expire_reply(&Value::SimpleString(b"OK".to_vec())).unwrap_err();
    assert!(matches!(e, RedisError::ProtocolError(_)));
}

#[test]
fn error_kind_and_describe() {
    let e = RedisError::ParseError(String::from("bad digit"));
    assert_eq!(e.kind(), "Parse error");
    assert_eq!(e.describe(), String::from("Parse error: bad digit"));
    let e = RedisError::IoError(String::from("reset"));
    assert_eq!(e.describe(), String::from("IO error: reset"));
    let e = RedisError::ProtocolError(String::from("tag"));
    assert_eq!(e.kind(), "Protocol error");
    let e = RedisError::ConnectionError(String::from("refused"));
    assert_eq!(e.kind(), "Connection error");
}
