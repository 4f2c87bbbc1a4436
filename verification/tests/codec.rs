//! Tests of the wire-protocol codec: exact byte shapes, round trips,
//! binary safety, length fidelity, and the failure taxonomy.

use respool::RedisError;
use respool::Value;

/// Structural equality of two reply values, recursively.
fn values_equal(a: &Value, b: &Value) -> bool {
    match (a, b) {
        (Value::SimpleString(x), Value::SimpleString(y)) => x == y,
        (Value::Error(x), Value::Error(y)) => x == y,
        (Value::Integer(x), Value::Integer(y)) => x == y,
        (Value::BulkString(x), Value::BulkString(y)) => x == y,
        (Value::Array(xs), Value::Array(ys)) => {
            xs.len() == ys.len() && xs.iter().zip(ys.iter()).all(|(x, y)| values_equal(x, y))
        }
        _ => false,
    }
}

fn encode_to_vec(v: &Value) -> Vec<u8> {
    let mut out: Vec<u8> = Vec::new();
    v.encode_into(&mut out);
    out
}

#[test]
fn simple_string_round_trip() {
    let v = Value::SimpleString(b"OK".to_vec());
    let bytes = encode_to_vec(&v);
    assert_eq!(bytes, b"+OK\r\n".to_vec());
    let (w, end) = Value::decode_from(&bytes, 0).unwrap();
    assert!(values_equal(&v, &w));
    assert_eq!(end, bytes.len());
}

#[test]
fn error_round_trip() {
    let v = Value::Error(b"ERR unknown command".to_vec());
    let bytes = encode_to_vec(&v);
    assert_eq!(bytes, b"-ERR unknown command\r\n".to_vec());
    let (w, end) = Value::decode_from(&bytes, 0).unwrap();
    assert!(values_equal(&v, &w));
    assert_eq!(end, bytes.len());
}

#[test]
fn integer_decodes() {
    let (v, end) = Value::decode_from(b":1000\r\n", 0).unwrap();
    assert!(matches!(v, Value::Integer(1000)));
    assert_eq!(end, 7);
}

#[test]
fn integer_non_numeric_is_parse_error() {
    let e = Value::decode_from(b":abc\r\n", 0).unwrap_err();
    assert!(matches!(e, RedisError::ParseError(_)));
}

#[test]
fn integer_extremes_round_trip() {
    for n in [i64::MIN, -1, 0, 1, i64::MAX] {
        let v = Value::Integer(n);
        let bytes = encode_to_vec(&v);
        let (w, end) = Value::decode_from(&bytes, 0).unwrap();
        assert!(values_equal(&v, &w));
        assert_eq!(end, bytes.len());
    }
    assert_eq!(encode_to_vec(&Value::Integer(-42)), b":-42\r\n".to_vec());
    assert_eq!(
        encode_to_vec(&Value::Integer(i64::MIN)),
        b":-9223372036854775808\r\n".to_vec()
    );
}

#[test]
fn integer_overflow_is_parse_error() {
    let e = Value::decode_from(b":9223372036854775808\r\n", 0).unwrap_err();
    assert!(matches!(e, RedisError::ParseError(_)));
    let e = Value::decode_from(b":99999999999999999999999999\r\n", 0).unwrap_err();
    assert!(matches!(e, RedisError::ParseError(_)));
}

#[test]
fn null_bulk_decodes() {
    let (v, end) = Value::decode_from(b"$-1\r\n", 0).unwrap();
    assert!(matches!(v, Value::BulkString(None)));
    assert_eq!(end, 5);
}

#[test]
fn null_bulk_distinct_from_empty() {
    let null = Value::BulkString(None);
    let empty = Value::BulkString(Some(Vec::new()));
    assert!(!values_equal(&null, &empty));
    assert_eq!(encode_to_vec(&null), b"$-1\r\n".to_vec());
    assert_eq!(encode_to_vec(&empty), b"$0\r\n\r\n".to_vec());
    let (v, _) = Value::decode_from(b"$0\r\n\r\n", 0).unwrap();
    assert!(matches!(v, Value::BulkString(Some(b)) if b.is_empty()));
}

#[test]
fn bulk_with_crlf_inside_round_trips() {
    let v = Value::BulkString(Some(b"a\r\nb\r\n".to_vec()));
    let bytes = encode_to_vec(&v);
    assert_eq!(bytes, b"$6\r\na\r\nb\r\n\r\n".to_vec());
    let (w, end) = Value::decode_from(&bytes, 0).unwrap();
    assert!(values_equal(&v, &w));
    assert_eq!(end, bytes.len());
}

#[test]
fn negative_bulk_length_is_protocol_error() {
    let e = Value::decode_from(b"$-2\r\n", 0).unwrap_err();
    assert!(matches!(e, RedisError::ProtocolError(_)));
}

#[test]
fn truncated_bulk_is_parse_error() {
    let e = Value::decode_from(b"$5\r\nab", 0).unwrap_err();
    assert!(matches!(e, RedisError::ParseError(_)));
}

#[test]
fn bulk_without_terminator_is_protocol_error() {
    let e = Value::decode_from(b"$2\r\nabXY", 0).unwrap_err();
    assert!(matches!(e, RedisError::ProtocolError(_)));
}

#[test]
fn empty_line_is_protocol_error() {
    let e = Value::decode_from(b"\r\n", 0).unwrap_err();
    assert!(matches!(e, RedisError::ProtocolError(_)));
}

#[test]
fn unknown_tag_is_protocol_error() {
    let e = Value::decode_from(b"?x\r\n", 0).unwrap_err();
    assert!(matches!(e, RedisError::ProtocolError(_)));
}

#[test]
fn missing_terminator_is_parse_error() {
    let e = Value::decode_from(b"+OK", 0).unwrap_err();
    assert!(matches!(e, RedisError::ParseError(_)));
}

#[test]
fn list_decodes_declared_count() {
    let (v, end) = Value::decode_from(b"*2\r\n:1\r\n:2\r\n", 0).unwrap();
    match v {
        Value::Array(items) => {
            assert_eq!(items.len(), 2);
            assert!(matches!(items[0], Value::Integer(1)));
            assert!(matches!(items[1], Value::Integer(2)));
        }
        _ => panic!("expected an array"),
    }
    assert_eq!(end, 12);
}

#[test]
fn short_list_is_a_failure_not_a_short_list() {
    let e = Value::decode_from(b"*2\r\n:1\r\n", 0).unwrap_err();
    assert!(matches!(e, RedisError::ParseError(_)));
}

#[test]
fn negative_list_count_is_parse_error() {
    let e = Value::decode_from(b"*-1\r\n", 0).unwrap_err();
    assert!(matches!(e, RedisError::ParseError(_)));
}

#[test]
fn empty_array_round_trips() {
    let v = Value::Array(Vec::new());
    let bytes = encode_to_vec(&v);
    assert_eq!(bytes, b"*0\r\n".to_vec());
    let (w, end) = Value::decode_from(&bytes, 0).unwrap();
    assert!(values_equal(&v, &w));
    assert_eq!(end, bytes.len());
}

#[test]
fn nested_round_trip_depth_three() {
    let inner = Value::Array(vec![
        Value::BulkString(None),
        Value::SimpleString(b"deep".to_vec()),
    ]);
    let middle = Value::Array(vec![
        Value::BulkString(Some(b"bin\r\n\x00ary".to_vec())),
        inner,
        Value::Integer(-7),
    ]);
    let v = Value::Array(vec![
        Value::SimpleString(b"top".to_vec()),
        middle,
        Value::Error(b"ERR e".to_vec()),
    ]);
    let bytes = encode_to_vec(&v);
    let (w, end) = Value::decode_from(&bytes, 0).unwrap();
    assert!(values_equal(&v, &w));
    assert_eq!(end, bytes.len());
}

#[test]
fn sequential_replies_do_not_interleave() {
    let v1 = Value::SimpleString(b"OK".to_vec());
    let v2 = Value::Integer(12);
    let mut stream = encode_to_vec(&v1);
    let first_len = stream.len();
    stream.extend(encode_to_vec(&v2));
    let (w1, p1) = Value::decode_from(&stream, 0).unwrap();
    assert!(values_equal(&v1, &w1));
    assert_eq!(p1, first_len);
    let (w2, p2) = Value::decode_from(&stream, p1).unwrap();
    assert!(values_equal(&v2, &w2));
    assert_eq!(p2, stream.len());
}

#[test]
fn decode_starts_at_given_position() {
    let stream = b"xxx:5\r\n";
    let (v, end) = Value::decode_from(stream, 3).unwrap();
    assert!(matches!(v, Value::Integer(5)));
    assert_eq!(end, stream.len());
}
