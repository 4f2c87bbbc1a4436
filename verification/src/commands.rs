//! The command layer's pure half: building request byte sequences and
//! interpreting specific reply shapes.
//!
//! Every request is the encoding of a list of bulk strings — the command
//! name followed by its arguments. The builders here produce exactly those
//! bytes; the interpreters map one reply value to the typed result the
//! command promises, rejecting every other shape as a protocol failure.

use crate::error::RedisError;
use crate::resp::dec_digits;
use crate::resp::lemma_views_of;
use crate::resp::push_all;
use crate::resp::push_decimal;
use crate::resp::views_of;
use crate::resp::wire;
use crate::resp::Value;
use crate::resp::ValueSpec;
use vstd::prelude::*;
use vstd::string::StringExecFns;

verus! {

/// The wire bytes of a request: a list of bulk strings, the command name
/// first.
pub open spec fn request_wire(args: Seq<Seq<u8>>) -> Seq<u8> {
    wire(ValueSpec::Array(args.map_values(|a: Seq<u8>| ValueSpec::BulkString(Some(a)))))
}

/// A fresh copy of the bytes of `s`.
fn bytes_copy(s: &[u8]) -> (r: Vec<u8>)
    ensures
        r@ == s@,
{
    let mut r: Vec<u8> = Vec::new();
    push_all(s, &mut r);
    proof {
        assert(Seq::<u8>::empty() + s@ =~= s@);
    }
    r
}

/// Encodes `args` — a command name and its arguments — as one request:
/// a list of bulk strings, in order.
pub fn command_request(args: Vec<Vec<u8>>) -> (r: Vec<u8>)
    ensures
        r@ == request_wire(args@.map_values(|a: Vec<u8>| a@)),
{
    let mut items: Vec<Value> = Vec::new();
    let mut i: usize = 0;
    let n = args.len();
    while i < n
        invariant
            i <= n,
            n == args@.len(),
            items@.len() == i,
            forall|j: int|
                0 <= j < i ==> (#[trigger] items@[j])@ == ValueSpec::BulkString(Some(args@[j]@)),
        decreases n - i,
    {
        let b = bytes_copy(args[i].as_slice());
        items.push(Value::BulkString(Some(b)));
        i = i + 1;
    }
    proof {
        lemma_views_of(items@, 0);
        assert(views_of(items@, 0) =~= args@.map_values(|a: Vec<u8>| a@).map_values(
            |a: Seq<u8>| ValueSpec::BulkString(Some(a)),
        ));
    }
    let v = Value::Array(items);
    let mut out: Vec<u8> = Vec::new();
    v.encode_into(&mut out);
    proof {
        assert(Seq::<u8>::empty() + wire(v@) =~= wire(v@));
    }
    out
}

/// The request bytes of `SET key value`.
pub fn set_request(key: &[u8], value: &[u8]) -> (r: Vec<u8>)
    ensures
        r@ == request_wire(seq![seq![83u8, 69u8, 84u8], key@, value@]),
{
    let mut args: Vec<Vec<u8>> = Vec::new();
    args.push(vec![83u8, 69u8, 84u8]);
    args.push(bytes_copy(key));
    args.push(bytes_copy(value));
    let ghost view_args = args@.map_values(|a: Vec<u8>| a@);
    let r = command_request(args);
    proof {
        assert(view_args =~= seq![seq![83u8, 69u8, 84u8], key@, value@]);
    }
    r
}

/// The request bytes of `GET key`.
pub fn get_request(key: &[u8]) -> (r: Vec<u8>)
    ensures
        r@ == request_wire(seq![seq![71u8, 69u8, 84u8], key@]),
{
    let mut args: Vec<Vec<u8>> = Vec::new();
    args.push(vec![71u8, 69u8, 84u8]);
    args.push(bytes_copy(key));
    let ghost view_args = args@.map_values(|a: Vec<u8>| a@);
    let r = command_request(args);
    proof {
        assert(view_args =~= seq![seq![71u8, 69u8, 84u8], key@]);
    }
    r
}

/// The request bytes of `DEL key ...`: one command name, then every key.
pub fn del_request(keys: &Vec<Vec<u8>>) -> (r: Vec<u8>)
    ensures
        r@ == request_wire(
            seq![seq![68u8, 69u8, 76u8]] + keys@.map_values(|a: Vec<u8>| a@),
        ),
{
    let mut args: Vec<Vec<u8>> = Vec::new();
    args.push(vec![68u8, 69u8, 76u8]);
    let mut i: usize = 0;
    let n = keys.len();
    while i < n
        invariant
            i <= n,
            n == keys@.len(),
            args@.len() == i + 1,
            args@[0]@ == seq![68u8, 69u8, 76u8],
            forall|j: int| 0 <= j < i ==> (#[trigger] args@[j + 1])@ == keys@[j]@,
        decreases n - i,
    {
        args.push(bytes_copy(keys[i].as_slice()));
        i = i + 1;
    }
    let ghost view_args = args@.map_values(|a: Vec<u8>| a@);
    let r = command_request(args);
    proof {
        let rhs = seq![seq![68u8, 69u8, 76u8]] + keys@.map_values(|a: Vec<u8>| a@);
        assert forall|j: int| 0 <= j < view_args.len() implies view_args[j] == rhs[j] by {
            if j >= 1 {
                assert(args@[(j - 1) + 1]@ == keys@[j - 1]@);
            }
        }
        assert(view_args =~= rhs);
    }
    r
}

/// The request bytes of `INCR key`.
pub fn incr_request(key: &[u8]) -> (r: Vec<u8>)
    ensures
        r@ == request_wire(seq![seq![73u8, 78u8, 67u8, 82u8], key@]),
{
    let mut args: Vec<Vec<u8>> = Vec::new();
    args.push(vec![73u8, 78u8, 67u8, 82u8]);
    args.push(bytes_copy(key));
    let ghost view_args = args@.map_values(|a: Vec<u8>| a@);
    let r = command_request(args);
    proof {
        assert(view_args =~= seq![seq![73u8, 78u8, 67u8, 82u8], key@]);
    }
    r
}

/// The request bytes of `EXPIRE key seconds`, the seconds in decimal.
pub fn expire_request(key: &[u8], seconds: u64) -> (r: Vec<u8>)
    ensures
        r@ == request_wire(
            seq![
                seq![69u8, 88u8, 80u8, 73u8, 82u8, 69u8],
                key@,
                dec_digits(seconds as int),
            ],
        ),
{
    let mut secs: Vec<u8> = Vec::new();
    push_decimal(seconds, &mut secs);
    proof {
        assert(Seq::<u8>::empty() + dec_digits(seconds as int) =~= dec_digits(seconds as int));
    }
    let mut args: Vec<Vec<u8>> = Vec::new();
    args.push(vec![69u8, 88u8, 80u8, 73u8, 82u8, 69u8]);
    args.push(bytes_copy(key));
    args.push(secs);
    let ghost view_args = args@.map_values(|a: Vec<u8>| a@);
    let r = command_request(args);
    proof {
        assert(view_args =~= seq![
            seq![69u8, 88u8, 80u8, 73u8, 82u8, 69u8],
            key@,
            dec_digits(seconds as int),
        ]);
    }
    r
}

/// The request bytes of `TTL key`.
pub fn ttl_request(key: &[u8]) -> (r: Vec<u8>)
    ensures
        r@ == request_wire(seq![seq![84u8, 84u8, 76u8], key@]),
{
    let mut args: Vec<Vec<u8>> = Vec::new();
    args.push(vec![84u8, 84u8, 76u8]);
    args.push(bytes_copy(key));
    let ghost view_args = args@.map_values(|a: Vec<u8>| a@);
    let r = command_request(args);
    proof {
        assert(view_args =~= seq![seq![84u8, 84u8, 76u8], key@]);
    }
    r
}

/// The request bytes of `SETEX key seconds value`.
pub fn set_ex_request(key: &[u8], value: &[u8], seconds: u64) -> (r: Vec<u8>)
    ensures
        r@ == request_wire(
            seq![
                seq![83u8, 69u8, 84u8, 69u8, 88u8],
                key@,
                dec_digits(seconds as int),
                value@,
            ],
        ),
{
    let mut secs: Vec<u8> = Vec::new();
    push_decimal(seconds, &mut secs);
    proof {
        assert(Seq::<u8>::empty() + dec_digits(seconds as int) =~= dec_digits(seconds as int));
    }
    let mut args: Vec<Vec<u8>> = Vec::new();
    args.push(vec![83u8, 69u8, 84u8, 69u8, 88u8]);
    args.push(bytes_copy(key));
    args.push(secs);
    args.push(bytes_copy(value));
    let ghost view_args = args@.map_values(|a: Vec<u8>| a@);
    let r = command_request(args);
    proof {
        assert(view_args =~= seq![
            seq![83u8, 69u8, 84u8, 69u8, 88u8],
            key@,
            dec_digits(seconds as int),
            value@,
        ]);
    }
    r
}

/// Interprets the reply to `SET` and `SETEX`: exactly the acknowledgement
/// "OK" succeeds; every other reply is a protocol failure.
pub fn set_reply(v: &Value) -> (r: Result<(), RedisError>)
    ensures
        r is Ok <==> v@ == ValueSpec::SimpleString(seq![79u8, 75u8]),
        r is Err ==> (match r {
            Err(e) => e matches RedisError::ProtocolError(_),
            Ok(_) => false,
        }),
{
    match v {
        Value::SimpleString(s) => {
            if s.len() == 2 && s[0] == 79u8 && s[1] == 75u8 {
                proof {
                    assert(s@ =~= seq![79u8, 75u8]);
                }
                Ok(())
            } else {
                proof {
                    if s@ == seq![79u8, 75u8] {
                        assert(s@[0] == 79u8 && s@[1] == 75u8);
                    }
                }
                Err(unexpected_reply())
            }
        },
        _ => Err(unexpected_reply()),
    }
}

/// Interprets the reply to `GET`: a bulk string yields its bytes, the null
/// bulk yields nothing, and every other reply is a protocol failure.
pub fn get_reply(v: Value) -> (r: Result<Option<Vec<u8>>, RedisError>)
    ensures
        (match r {
            Ok(Some(b)) => v@ == ValueSpec::BulkString(Some(b@)),
            Ok(None) => v@ == ValueSpec::BulkString(None),
            Err(e) => !(v@ matches ValueSpec::BulkString(_)) && e matches RedisError::ProtocolError(
                _,
            ),
        }),
{
    match v {
        Value::BulkString(Some(b)) => Ok(Some(b)),
        Value::BulkString(None) => Ok(None),
        _ => Err(unexpected_reply()),
    }
}

/// Interprets the reply to `DEL`, `INCR` and `TTL`: exactly an integer
/// reply succeeds, carrying its value.
pub fn integer_reply(v: &Value) -> (r: Result<i64, RedisError>)
    ensures
        (match r {
            Ok(n) => v@ == ValueSpec::Integer(n),
            Err(e) => !(v@ matches ValueSpec::Integer(_)) && e matches RedisError::ProtocolError(_),
        }),
{
    match v {
        Value::Integer(n) => Ok(*n),
        _ => Err(unexpected_reply()),
    }
}

/// Interprets the reply to `EXPIRE`: the integer one means the key was
/// found, zero that it was not; anything else is a protocol failure.
pub fn expire_reply(v: &Value) -> (r: Result<bool, RedisError>)
    ensures
        (match r {
            Ok(b) => v@ == ValueSpec::Integer(
                if b {
                    1i64
                } else {
                    0i64
                },
            ),
            Err(e) => v@ != ValueSpec::Integer(1i64) && v@ != ValueSpec::Integer(0i64)
                && e matches RedisError::ProtocolError(_),
        }),
{
    match v {
        Value::Integer(n) => {
            if *n == 1i64 {
                Ok(true)
            } else if *n == 0i64 {
                Ok(false)
            } else {
                Err(unexpected_reply())
            }
        },
        _ => Err(unexpected_reply()),
    }
}

/// The uniform protocol failure for a reply shape a command did not expect.
fn unexpected_reply() -> (r: RedisError)
    ensures
        r matches RedisError::ProtocolError(_),
{
    RedisError::ProtocolError(String::from_str("unexpected reply shape"))
}

} // verus!
