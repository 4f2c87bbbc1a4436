//! The wire-protocol codec: the recursive reply value model, its exact byte
//! encoding, and a decoder proved to follow the grammar.
//!
//! Every reply is one value. A value is framed as a line — a tag byte, a
//! payload, and a CRLF terminator — except that bulk strings carry their raw
//! bytes, length-prefixed and binary-safe, after the line, and arrays are
//! followed by their declared number of further values.

use crate::error::RedisError;
use vstd::prelude::*;
use vstd::string::StringExecFns;

verus! {

/// Carriage return; with `LF` it terminates every protocol line.
pub const CR: u8 = 13;
/// Line feed.
pub const LF: u8 = 10;

/// One reply value of the wire protocol.
#[derive(Debug)]
pub enum Value {
    /// A simple acknowledgement string.
    SimpleString(Vec<u8>),
    /// A server-reported error message (not a transport failure).
    Error(Vec<u8>),
    /// A signed 64-bit count or result.
    Integer(i64),
    /// A binary-safe string, or the explicit "no value" marker. The null
    /// marker is distinct from a zero-length string.
    BulkString(Option<Vec<u8>>),
    /// An ordered, possibly empty sequence of values, recursively.
    Array(Vec<Value>),
}

/// The mathematical model of a reply value: what the contracts speak of.
pub enum ValueSpec {
    SimpleString(Seq<u8>),
    Error(Seq<u8>),
    Integer(i64),
    BulkString(Option<Seq<u8>>),
    Array(Seq<ValueSpec>),
}

/// The models of `items[i..]`, elementwise.
pub open spec fn views_of(items: Seq<Value>, i: int) -> Seq<ValueSpec>
    decreases items, items.len() - i,
{
    if i < 0 || i >= items.len() {
        Seq::empty()
    } else {
        seq![items[i]@] + views_of(items, i + 1)
    }
}

impl View for Value {
    type V = ValueSpec;

    open spec fn view(&self) -> ValueSpec
        decreases self, 0int,
    {
        match self {
            Value::SimpleString(s) => ValueSpec::SimpleString(s@),
            Value::Error(s) => ValueSpec::Error(s@),
            Value::Integer(n) => ValueSpec::Integer(*n),
            Value::BulkString(Some(b)) => ValueSpec::BulkString(Some(b@)),
            Value::BulkString(None) => ValueSpec::BulkString(None),
            Value::Array(items) => ValueSpec::Array(views_of(items@, 0)),
        }
    }
}

/// The canonical decimal digits of `n` (for `n >= 0`), most significant first.
pub open spec fn dec_digits(n: int) -> Seq<u8>
    decreases n,
{
    if n < 10 {
        seq![(48 + n) as u8]
    } else {
        dec_digits(n / 10).push((48 + n % 10) as u8)
    }
}

/// The decimal rendering of a signed number: a minus sign for negatives.
pub open spec fn dec_int(n: int) -> Seq<u8> {
    if n < 0 {
        seq![45u8] + dec_digits(-n)
    } else {
        dec_digits(n)
    }
}

/// One protocol line: a tag byte, a payload, and the CRLF terminator.
pub open spec fn line(tag: u8, payload: Seq<u8>) -> Seq<u8> {
    seq![tag] + payload + seq![CR, LF]
}

/// The exact wire encoding of a value, by variant.
pub open spec fn wire(v: ValueSpec) -> Seq<u8>
    decreases v, 0int,
{
    match v {
        ValueSpec::SimpleString(s) => line(43, s),
        ValueSpec::Error(s) => line(45, s),
        ValueSpec::Integer(n) => line(58, dec_int(n as int)),
        ValueSpec::BulkString(Some(b)) => line(36, dec_int(b.len() as int)) + b + seq![CR, LF],
        ValueSpec::BulkString(None) => line(36, seq![45u8, 49u8]),
        ValueSpec::Array(items) => line(42, dec_int(items.len() as int)) + wire_seq(items, 0),
    }
}

/// The concatenated encodings of `items[i..]`.
pub open spec fn wire_seq(items: Seq<ValueSpec>, i: int) -> Seq<u8>
    decreases items, items.len() - i,
{
    if i < 0 || i >= items.len() {
        Seq::empty()
    } else {
        wire(items[i]) + wire_seq(items, i + 1)
    }
}

/// No CRLF pair occurs inside `s`, so a line holding `s` as payload ends at
/// its own terminator and nowhere earlier.
pub open spec fn line_safe(s: Seq<u8>) -> bool {
    forall|i: int| 0 <= i < s.len() - 1 ==> !((#[trigger] s[i]) == CR && s[i + 1] == LF)
}

/// Whether a value can be put on the wire and decoded back: line payloads
/// hold no CRLF pair, and every length fits the numeric line limit.
pub open spec fn wf(v: ValueSpec) -> bool
    decreases v,
{
    match v {
        ValueSpec::SimpleString(s) => line_safe(s),
        ValueSpec::Error(s) => line_safe(s),
        ValueSpec::Integer(_) => true,
        ValueSpec::BulkString(Some(b)) => b.len() <= i64::MAX,
        ValueSpec::BulkString(None) => true,
        ValueSpec::Array(items) => items.len() <= i64::MAX && forall|j: int|
            0 <= j < items.len() ==> wf(#[trigger] items[j]),
    }
}

/// The position of the first CRLF pair at or after `pos`, if any.
pub open spec fn find_crlf(input: Seq<u8>, pos: int) -> Option<int>
    decreases input.len() - pos,
{
    if pos < 0 || pos + 1 >= input.len() {
        None
    } else if input[pos] == CR && input[pos + 1] == LF {
        Some(pos)
    } else {
        find_crlf(input, pos + 1)
    }
}

/// A found CRLF lies at or after `pos` and fits inside the input.
pub proof fn lemma_find_crlf_bounds(input: Seq<u8>, pos: int)
    ensures
        match find_crlf(input, pos) {
            Some(eol) => pos <= eol && eol + 2 <= input.len() && input[eol] == CR && input[eol
                + 1] == LF,
            None => true,
        },
    decreases input.len() - pos,
{
    if !(pos < 0 || pos + 1 >= input.len()) && !(input[pos] == CR && input[pos + 1] == LF) {
        lemma_find_crlf_bounds(input, pos + 1);
    }
}

/// Whether every byte of `s` is a decimal digit, and `s` is not empty.
pub open spec fn is_digits(s: Seq<u8>) -> bool {
    s.len() > 0 && forall|i: int| 0 <= i < s.len() ==> 48 <= (#[trigger] s[i]) <= 57
}

/// The numeric value of a digit string, most significant digit first.
pub open spec fn digits_val(s: Seq<u8>) -> int
    decreases s.len(),
{
    if s.len() == 0 {
        0
    } else {
        digits_val(s.drop_last()) * 10 + (s.last() - 48)
    }
}

/// Whether `s` is a signed decimal numeral: an optional minus sign followed
/// by at least one digit.
pub open spec fn is_numeral(s: Seq<u8>) -> bool {
    if s.len() > 0 && s[0] == 45 {
        is_digits(s.skip(1))
    } else {
        is_digits(s)
    }
}

/// The value of a signed decimal numeral.
pub open spec fn numeral_val(s: Seq<u8>) -> int {
    if s.len() > 0 && s[0] == 45 {
        -digits_val(s.skip(1))
    } else {
        digits_val(s)
    }
}

/// What decoding one value yields: the value model and the next unread
/// position, or the failure class.
pub enum ParseOutcome<T> {
    /// A value was decoded; the position after its last byte follows it.
    Found(T, int),
    /// The input ends inside a reply or carries malformed numeric text.
    ParseFail,
    /// The input violates the grammar's shape: an unknown or missing tag
    /// byte, a negative bulk length other than the null sentinel, or a
    /// missing terminator after a bulk payload.
    ProtocolFail,
}

/// What decoding a fixed count of consecutive values yields.
pub enum ListOutcome {
    LFound(Seq<ValueSpec>, int),
    LParseFail,
    LProtocolFail,
}

/// What decoding yields on `input` from position `pos`. This is the
/// mathematical decoder; the executable decoder is proved to return exactly
/// this outcome.
pub open spec fn parse(input: Seq<u8>, pos: int) -> ParseOutcome<ValueSpec>
    decreases input.len() - pos, 0int, 0int,
    via parse_decreases
{
    match find_crlf(input, pos) {
        None => ParseOutcome::ParseFail,
        Some(eol) => {
            if eol == pos {
                // an empty line: no tag byte at all
                ParseOutcome::ProtocolFail
            } else {
                let tag = input[pos];
                let payload = input.subrange(pos + 1, eol);
                let next = eol + 2;
                if tag == 43 {
                    ParseOutcome::Found(ValueSpec::SimpleString(payload), next)
                } else if tag == 45 {
                    ParseOutcome::Found(ValueSpec::Error(payload), next)
                } else if tag == 58 {
                    if is_numeral(payload) && i64::MIN <= numeral_val(payload) <= i64::MAX {
                        ParseOutcome::Found(ValueSpec::Integer(numeral_val(payload) as i64), next)
                    } else {
                        ParseOutcome::ParseFail
                    }
                } else if tag == 36 {
                    parse_bulk_tail(input, payload, next)
                } else if tag == 42 {
                    if is_digits(payload) && digits_val(payload) <= i64::MAX {
                        match parse_list(input, next, digits_val(payload)) {
                            ListOutcome::LFound(items, end) => ParseOutcome::Found(
                                ValueSpec::Array(items),
                                end,
                            ),
                            ListOutcome::LParseFail => ParseOutcome::ParseFail,
                            ListOutcome::LProtocolFail => ParseOutcome::ProtocolFail,
                        }
                    } else {
                        ParseOutcome::ParseFail
                    }
                } else {
                    ParseOutcome::ProtocolFail
                }
            }
        },
    }
}

/// The bulk-string tail: the length line's payload selects the null marker,
/// a protocol error, or a raw read of exactly that many bytes followed by
/// the mandatory CRLF.
pub open spec fn parse_bulk_tail(input: Seq<u8>, payload: Seq<u8>, next: int) -> ParseOutcome<
    ValueSpec,
> {
    if !(is_numeral(payload) && i64::MIN <= numeral_val(payload) <= i64::MAX) {
        ParseOutcome::ParseFail
    } else {
        let n = numeral_val(payload);
        if n == -1 {
            ParseOutcome::Found(ValueSpec::BulkString(None), next)
        } else if n < 0 {
            ParseOutcome::ProtocolFail
        } else if input.len() - next < n || input.len() - next - n < 2 {
            ParseOutcome::ParseFail
        } else if input[next + n] == CR && input[next + n + 1] == LF {
            ParseOutcome::Found(
                ValueSpec::BulkString(Some(input.subrange(next, next + n))),
                next + n + 2,
            )
        } else {
            ParseOutcome::ProtocolFail
        }
    }
}

#[via_fn]
proof fn parse_decreases(input: Seq<u8>, pos: int) {
    lemma_find_crlf_bounds(input, pos);
}

/// Decoding of exactly `k` consecutive values starting at `pos`. A stream
/// that ends inside any element surfaces that element's failure; it is never
/// a short list.
pub open spec fn parse_list(input: Seq<u8>, pos: int, k: int) -> ListOutcome
    decreases input.len() - pos, 1int, k,
{
    if k <= 0 {
        ListOutcome::LFound(Seq::empty(), pos)
    } else {
        match parse(input, pos) {
            ParseOutcome::Found(v, next) => if pos < next <= input.len() {
                match parse_list(input, next, k - 1) {
                    ListOutcome::LFound(items, end) => ListOutcome::LFound(seq![v] + items, end),
                    fail => fail,
                }
            } else {
                // never reached: a successful parse always advances
                ListOutcome::LParseFail
            },
            ParseOutcome::ParseFail => ListOutcome::LParseFail,
            ParseOutcome::ProtocolFail => ListOutcome::LProtocolFail,
        }
    }
}

/// Encoding and decoding of one reply value against a byte sink or source.
pub trait RespCodec: Sized + View {
    /// The exact byte sequence this value encodes to.
    spec fn wire_spec(&self) -> Seq<u8>;

    /// What decoding yields on `input` from position `pos`.
    spec fn parse_spec(input: Seq<u8>, pos: int) -> ParseOutcome<Self::V>;

    /// Appends the wire encoding of this value to `out`.
    fn encode(&self, out: &mut Vec<u8>)
        ensures
            final(out)@ == old(out)@ + self.wire_spec(),
    ;

    /// Decodes exactly one value from `input`, starting at `pos`. On
    /// success it returns the value and the position just after its last
    /// byte; a parse failure reports malformed numeric text or an input
    /// that ends inside the reply, and a protocol failure reports a shape
    /// the grammar does not allow.
    fn decode(input: &[u8], pos: usize) -> (r: Result<(Self, usize), RedisError>)
        requires
            pos <= input@.len(),
        ensures
            (match r {
                Ok(p) => Self::parse_spec(input@, pos as int) == ParseOutcome::Found(
                    p.0@,
                    p.1 as int,
                ) && pos < p.1 <= input@.len(),
                Err(e) => (match e {
                    RedisError::ParseError(_) => Self::parse_spec(input@, pos as int)
                        == ParseOutcome::<Self::V>::ParseFail,
                    RedisError::ProtocolError(_) => Self::parse_spec(input@, pos as int)
                        == ParseOutcome::<Self::V>::ProtocolFail,
                    _ => false,
                }),
            }),
    ;
}

/// The value of a digit string is never negative.
pub proof fn lemma_digits_val_nonneg(s: Seq<u8>)
    requires
        forall|i: int| 0 <= i < s.len() ==> 48 <= (#[trigger] s[i]) <= 57,
    ensures
        digits_val(s) >= 0,
    decreases s.len(),
{
    if s.len() > 0 {
        lemma_digits_val_nonneg(s.drop_last());
    }
}

/// Reading one more digit multiplies the value by ten and adds the digit.
proof fn lemma_digits_val_take_step(s: Seq<u8>, i: int)
    requires
        0 <= i < s.len(),
    ensures
        digits_val(s.take(i + 1)) == digits_val(s.take(i)) * 10 + (s[i] - 48),
{
    assert(s.take(i + 1).drop_last() =~= s.take(i));
    assert(s.take(i + 1).last() == s[i]);
}

/// A digit string is worth at least any of its prefixes.
proof fn lemma_digits_val_take_mono(s: Seq<u8>, i: int)
    requires
        0 <= i <= s.len(),
        forall|j: int| 0 <= j < s.len() ==> 48 <= (#[trigger] s[j]) <= 57,
    ensures
        digits_val(s.take(i)) <= digits_val(s),
    decreases s.len() - i,
{
    if i == s.len() {
        assert(s.take(i) =~= s);
    } else {
        lemma_digits_val_take_step(s, i);
        lemma_digits_val_nonneg(s.take(i));
        lemma_digits_val_take_mono(s, i + 1);
    }
}

/// Parses the signed decimal numeral held in `input[from..to]`, accepting it
/// only when the bytes form a numeral whose value fits a signed 64-bit
/// number.
#[verifier::loop_isolation(false)]
fn parse_numeral(input: &[u8], from: usize, to: usize) -> (r: Option<i64>)
    requires
        from <= to <= input@.len(),
    ensures
        ({
            let p = input@.subrange(from as int, to as int);
            match r {
                Some(n) => is_numeral(p) && i64::MIN <= numeral_val(p) <= i64::MAX && n
                    == numeral_val(p),
                None => !(is_numeral(p) && i64::MIN <= numeral_val(p) <= i64::MAX),
            }
        }),
{
    let ghost p = input@.subrange(from as int, to as int);
    if from == to {
        return None;
    }
    let neg = input[from] == 45;
    let ds: usize = if neg {
        from + 1
    } else {
        from
    };
    let ghost digits = input@.subrange(ds as int, to as int);
    proof {
        if neg {
            assert(digits =~= p.skip(1));
        } else {
            assert(digits =~= p);
        }
        assert(is_numeral(p) == is_digits(digits));
        assert(is_numeral(p) ==> numeral_val(p) == if neg {
            -digits_val(digits)
        } else {
            digits_val(digits)
        });
    }
    if ds == to {
        return None;
    }
    let mut mag: u64 = 0;
    let mut i: usize = ds;
    while i < to
        invariant
            from <= ds <= i <= to <= input@.len(),
            ds < to,
            digits == input@.subrange(ds as int, to as int),
            forall|j: int| ds <= j < i ==> 48 <= (#[trigger] input@[j]) <= 57,
            mag as int == digits_val(input@.subrange(ds as int, i as int)),
        decreases to - i,
    {
        let b = input[i];
        if b < 48 || b > 57 {
            proof {
                assert(digits[i - ds] == input@[i as int]);
                assert(!is_digits(digits));
            }
            return None;
        }
        let d: u64 = (b - 48) as u64;
        if mag > (u64::MAX - d) / 10 {
            proof {
                assert(mag * 10 + d > u64::MAX) by (nonlinear_arith)
                    requires
                        mag > (u64::MAX - d) / 10,
                        0 <= d <= 9,
                        mag >= 0,
                ;
                lemma_digits_val_take_step(digits, i - ds);
                assert(digits.take(i - ds) =~= input@.subrange(ds as int, i as int));
                assert(digits.take(i - ds + 1) =~= input@.subrange(ds as int, i + 1));
                if is_digits(digits) {
                    lemma_digits_val_take_mono(digits, i - ds + 1);
                    assert(digits_val(digits) > u64::MAX);
                }
            }
            return None;
        }
        proof {
            assert(mag * 10 + d <= u64::MAX) by (nonlinear_arith)
                requires
                    mag <= (u64::MAX - d) / 10,
                    0 <= d <= 9,
                    mag >= 0,
            ;
            lemma_digits_val_take_step(digits, i - ds);
            assert(digits.take(i - ds) =~= input@.subrange(ds as int, i as int));
            assert(digits.take(i - ds + 1) =~= input@.subrange(ds as int, i + 1));
        }
        mag = mag * 10 + d;
        i = i + 1;
    }
    proof {
        assert(digits =~= input@.subrange(ds as int, i as int));
        assert(is_digits(digits));
    }
    if neg {
        if mag > (i64::MAX as u64) + 1 {
            return None;
        }
        if mag == (i64::MAX as u64) + 1 {
            Some(i64::MIN)
        } else {
            Some(-(mag as i64))
        }
    } else {
        if mag > (i64::MAX as u64) {
            return None;
        }
        Some(mag as i64)
    }
}

/// Appends all bytes of `s` to `out`.
pub fn push_all(s: &[u8], out: &mut Vec<u8>)
    ensures
        final(out)@ == old(out)@ + s@,
{
    let mut i: usize = 0;
    while i < s.len()
        invariant
            i <= s@.len(),
            out@ == old(out)@ + s@.take(i as int),
        decreases s@.len() - i,
    {
        out.push(s[i]);
        assert(s@.take(i + 1) =~= s@.take(i as int).push(s@[i as int]));
        i = i + 1;
    }
    assert(s@.take(s@.len() as int) =~= s@);
}

/// Appends the canonical decimal digits of `n` to `out`.
pub fn push_decimal(n: u64, out: &mut Vec<u8>)
    ensures
        final(out)@ == old(out)@ + dec_digits(n as int),
    decreases n,
{
    if n < 10 {
        out.push(48 + (n as u8));
        assert(out@ =~= old(out)@ + dec_digits(n as int));
    } else {
        push_decimal(n / 10, out);
        out.push(48 + ((n % 10) as u8));
        assert(out@ =~= old(out)@ + dec_digits(n as int));
    }
}

/// Appends the decimal rendering of a signed 64-bit number to `out`.
pub fn push_decimal_i64(n: i64, out: &mut Vec<u8>)
    ensures
        final(out)@ == old(out)@ + dec_int(n as int),
{
    if n < 0 {
        out.push(45);
        let mag: u64 = ((-(n + 1)) as u64) + 1;
        assert(mag as int == -(n as int));
        push_decimal(mag, out);
        assert(out@ =~= old(out)@ + dec_int(n as int));
    } else {
        push_decimal(n as u64, out);
    }
}

/// Copies `input[from..to]` into a fresh vector.
fn copy_range(input: &[u8], from: usize, to: usize) -> (r: Vec<u8>)
    requires
        from <= to <= input@.len(),
    ensures
        r@ == input@.subrange(from as int, to as int),
{
    let mut r: Vec<u8> = Vec::new();
    let mut i: usize = from;
    while i < to
        invariant
            from <= i <= to <= input@.len(),
            r@ == input@.subrange(from as int, i as int),
        decreases to - i,
    {
        r.push(input[i]);
        assert(input@.subrange(from as int, i + 1) =~= input@.subrange(from as int, i as int).push(
            input@[i as int],
        ));
        i = i + 1;
    }
    r
}

/// Indexing and length of the elementwise models.
pub proof fn lemma_views_of(items: Seq<Value>, i: int)
    requires
        0 <= i <= items.len(),
    ensures
        views_of(items, i).len() == items.len() - i,
        forall|j: int| 0 <= j < items.len() - i ==> #[trigger] views_of(items, i)[j] == items[i
            + j]@,
    decreases items.len() - i,
{
    if i == items.len() {
        assert(views_of(items, i) =~= Seq::<ValueSpec>::empty());
    } else {
        lemma_views_of(items, i + 1);
        assert(views_of(items, i) == seq![items[i]@] + views_of(items, i + 1));
        assert(views_of(items, i).len() == items.len() - i);
        assert forall|j: int| 0 <= j < items.len() - i implies #[trigger] views_of(items, i)[j]
            == items[i + j]@ by {
            if j > 0 {
                assert(views_of(items, i)[j] == (seq![items[i]@] + views_of(items, i + 1))[j]);
                assert((seq![items[i]@] + views_of(items, i + 1))[j] == views_of(items, i + 1)[j
                    - 1]);
            }
        }
    }
}

/// Appending one value appends its model.
proof fn lemma_views_of_push(items: Seq<Value>, v: Value)
    ensures
        views_of(items.push(v), 0) == views_of(items, 0) + seq![v@],
{
    lemma_views_of(items.push(v), 0);
    lemma_views_of(items, 0);
    assert(views_of(items.push(v), 0) =~= views_of(items, 0) + seq![v@]);
}

/// Already-decoded models prefixed onto the rest of a list parse.
pub open spec fn prepend_list(done: Seq<ValueSpec>, o: ListOutcome) -> ListOutcome {
    match o {
        ListOutcome::LFound(items, end) => ListOutcome::LFound(done + items, end),
        fail => fail,
    }
}

/// A list outcome seen as the outcome of the surrounding array parse.
pub open spec fn list_outcome_value(o: ListOutcome) -> ParseOutcome<ValueSpec> {
    match o {
        ListOutcome::LFound(items, end) => ParseOutcome::Found(ValueSpec::Array(items), end),
        ListOutcome::LParseFail => ParseOutcome::ParseFail,
        ListOutcome::LProtocolFail => ParseOutcome::ProtocolFail,
    }
}

proof fn lemma_prepend_empty(o: ListOutcome)
    ensures
        prepend_list(Seq::empty(), o) == o,
{
    match o {
        ListOutcome::LFound(items, end) => {
            assert(Seq::<ValueSpec>::empty() + items =~= items);
        },
        _ => {},
    }
}

proof fn lemma_prepend_compose(a: Seq<ValueSpec>, b: Seq<ValueSpec>, o: ListOutcome)
    ensures
        prepend_list(a, prepend_list(b, o)) == prepend_list(a + b, o),
{
    match o {
        ListOutcome::LFound(items, end) => {
            assert((a + b) + items =~= a + (b + items));
        },
        _ => {},
    }
}

/// Scans for the first CRLF pair at or after `pos`.
fn scan_crlf(input: &[u8], pos: usize) -> (r: Option<usize>)
    requires
        pos <= input@.len(),
    ensures
        (match r {
            Some(eol) => find_crlf(input@, pos as int) == Some(eol as int) && pos <= eol && eol + 2
                <= input@.len() && input@[eol as int] == CR && input@[eol + 1] == LF,
            None => find_crlf(input@, pos as int) is None,
        }),
{
    let mut i: usize = pos;
    loop
        invariant
            pos <= i <= input@.len(),
            find_crlf(input@, pos as int) == find_crlf(input@, i as int),
        decreases input@.len() - i,
    {
        if input.len() - i < 2 {
            return None;
        }
        if input[i] == CR && input[i + 1] == LF {
            return Some(i);
        }
        i = i + 1;
    }
}

impl Value {
    /// Appends the wire encoding of this value to `out`.
    #[verifier::loop_isolation(false)]
    pub fn encode_into(&self, out: &mut Vec<u8>)
        ensures
            final(out)@ == old(out)@ + wire(self@),
        decreases self,
    {
        match self {
            Value::SimpleString(s) => {
                out.push(43);
                push_all(s.as_slice(), out);
                out.push(CR);
                out.push(LF);
                assert(out@ =~= old(out)@ + wire(self@));
            },
            Value::Error(s) => {
                out.push(45);
                push_all(s.as_slice(), out);
                out.push(CR);
                out.push(LF);
                assert(out@ =~= old(out)@ + wire(self@));
            },
            Value::Integer(n) => {
                out.push(58);
                push_decimal_i64(*n, out);
                out.push(CR);
                out.push(LF);
                assert(out@ =~= old(out)@ + wire(self@));
            },
            Value::BulkString(Some(b)) => {
                out.push(36);
                push_decimal(b.len() as u64, out);
                out.push(CR);
                out.push(LF);
                push_all(b.as_slice(), out);
                out.push(CR);
                out.push(LF);
                assert(out@ =~= old(out)@ + wire(self@));
            },
            Value::BulkString(None) => {
                out.push(36);
                out.push(45);
                out.push(49);
                out.push(CR);
                out.push(LF);
                assert(out@ =~= old(out)@ + wire(self@));
            },
            Value::Array(items) => {
                out.push(42);
                push_decimal(items.len() as u64, out);
                out.push(CR);
                out.push(LF);
                let ghost vs = views_of(items@, 0);
                let ghost base = out@;
                proof {
                    lemma_views_of(items@, 0);
                    assert(base =~= old(out)@ + line(42, dec_int(items@.len() as int)));
                }
                let n = items.len();
                let mut idx: usize = 0;
                while idx < n
                    invariant
                        idx <= n,
                        out@ + wire_seq(vs, idx as int) == base + wire_seq(vs, 0),
                    decreases n - idx,
                {
                    let ghost before = out@;
                    items[idx].encode_into(out);
                    proof {
                        assert(vs[idx as int] == items@[idx as int]@);
                        assert((before + wire(vs[idx as int])) + wire_seq(vs, idx + 1) =~= before
                            + (wire(vs[idx as int]) + wire_seq(vs, idx + 1)));
                    }
                    idx = idx + 1;
                }
                proof {
                    assert(wire_seq(vs, n as int) =~= Seq::<u8>::empty());
                    assert(out@ + Seq::<u8>::empty() =~= out@);
                    assert(out@ =~= old(out)@ + wire(self@));
                }
            },
        }
    }

    /// Decodes exactly one value from `input`, starting at `pos`; it returns
    /// the value and the position just after its last byte, or the failure
    /// that `parse` assigns to the input.
    #[verifier::loop_isolation(false)]
    pub fn decode_from(input: &[u8], pos: usize) -> (r: Result<(Value, usize), RedisError>)
        requires
            pos <= input@.len(),
        ensures
            (match r {
                Ok(p) => parse(input@, pos as int) == ParseOutcome::Found(p.0@, p.1 as int) && pos
                    < p.1 <= input@.len(),
                Err(e) => (match e {
                    RedisError::ParseError(_) => parse(input@, pos as int)
                        == ParseOutcome::<ValueSpec>::ParseFail,
                    RedisError::ProtocolError(_) => parse(input@, pos as int)
                        == ParseOutcome::<ValueSpec>::ProtocolFail,
                    _ => false,
                }),
            }),
        decreases input@.len() - pos,
    {
        let eol = match scan_crlf(input, pos) {
            None => {
                return Err(
                    RedisError::ParseError(
                        String::from_str("reply ended before a line terminator"),
                    ),
                );
            },
            Some(e) => e,
        };
        if eol == pos {
            return Err(RedisError::ProtocolError(String::from_str("empty line in place of a reply")));
        }
        let ghost payload = input@.subrange(pos + 1, eol as int);
        let tag = input[pos];
        let next = eol + 2;
        if tag == 43 {
            let s = copy_range(input, pos + 1, eol);
            Ok((Value::SimpleString(s), next))
        } else if tag == 45 {
            let s = copy_range(input, pos + 1, eol);
            Ok((Value::Error(s), next))
        } else if tag == 58 {
            match parse_numeral(input, pos + 1, eol) {
                Some(n) => Ok((Value::Integer(n), next)),
                None => Err(RedisError::ParseError(String::from_str("integer reply is not a number"))),
            }
        } else if tag == 36 {
            let n = match parse_numeral(input, pos + 1, eol) {
                None => {
                    return Err(
                        RedisError::ParseError(String::from_str("bulk length is not a number")),
                    );
                },
                Some(n) => n,
            };
            if n == -1 {
                return Ok((Value::BulkString(None), next));
            }
            if n < 0 {
                return Err(RedisError::ProtocolError(String::from_str("negative bulk length")));
            }
            if (n as u64) > ((input.len() - next) as u64) {
                return Err(
                    RedisError::ParseError(String::from_str("reply ended inside a bulk string")),
                );
            }
            let nn = n as usize;
            if input.len() - (next + nn) < 2 {
                return Err(
                    RedisError::ParseError(String::from_str("reply ended inside a bulk string")),
                );
            }
            if input[next + nn] == CR && input[next + nn + 1] == LF {
                let b = copy_range(input, next, next + nn);
                Ok((Value::BulkString(Some(b)), next + nn + 2))
            } else {
                Err(
                    RedisError::ProtocolError(
                        String::from_str("bulk payload not terminated by CRLF"),
                    ),
                )
            }
        } else if tag == 42 {
            if input[pos + 1] == 45 {
                return Err(
                    RedisError::ParseError(String::from_str("array count is not an unsigned number")),
                );
            }
            let n = match parse_numeral(input, pos + 1, eol) {
                None => {
                    proof {
                        if payload.len() > 0 {
                            assert(payload[0] == input@[pos + 1]);
                        }
                        if is_digits(payload) {
                            lemma_digits_val_nonneg(payload);
                        }
                    }
                    return Err(
                        RedisError::ParseError(String::from_str("array count is not a number")),
                    );
                },
                Some(n) => n,
            };
            proof {
                if payload.len() > 0 && payload[0] == 45 {
                    assert(payload[0] == input@[pos + 1]);
                }
                assert(is_digits(payload));
                lemma_digits_val_nonneg(payload);
                assert(parse(input@, pos as int) == list_outcome_value(
                    parse_list(input@, next as int, n as int),
                ));
            }
            let mut items: Vec<Value> = Vec::new();
            let mut cur: usize = next;
            let mut k: u64 = 0;
            let n_u: u64 = n as u64;
            proof {
                lemma_prepend_empty(parse_list(input@, cur as int, n as int));
                assert(views_of(items@, 0) =~= Seq::<ValueSpec>::empty());
            }
            while k < n_u
                invariant
                    pos < cur <= input@.len(),
                    k <= n_u,
                    items@.len() == k as int,
                    parse(input@, pos as int) == list_outcome_value(
                        prepend_list(
                            views_of(items@, 0),
                            parse_list(input@, cur as int, (n_u - k) as int),
                        ),
                    ),
                decreases n_u - k,
            {
                match Value::decode_from(input, cur) {
                    Err(e) => {
                        return Err(e);
                    },
                    Ok((v, np)) => {
                        proof {
                            lemma_prepend_compose(
                                views_of(items@, 0),
                                seq![v@],
                                parse_list(input@, np as int, (n_u - k - 1) as int),
                            );
                            lemma_views_of_push(items@, v);
                        }
                        items.push(v);
                        cur = np;
                        k = k + 1;
                    },
                }
            }
            proof {
                assert(views_of(items@, 0) + Seq::<ValueSpec>::empty() =~= views_of(items@, 0));
            }
            Ok((Value::Array(items), cur))
        } else {
            Err(RedisError::ProtocolError(String::from_str("unknown reply tag byte")))
        }
    }
}

/// Every encoding is at least one full line long.
pub proof fn lemma_wire_len(v: ValueSpec)
    ensures
        wire(v).len() >= 3,
{
    match v {
        ValueSpec::Array(items) => {
            assert(wire_seq(items, 0).len() >= 0);
        },
        _ => {},
    }
}

/// Decimal digit renderings consist of digit bytes, at least one.
pub proof fn lemma_dec_digits_bytes(n: int)
    requires
        n >= 0,
    ensures
        dec_digits(n).len() >= 1,
        forall|i: int| 0 <= i < dec_digits(n).len() ==> 48 <= (#[trigger] dec_digits(n)[i]) <= 57,
    decreases n,
{
    if n >= 10 {
        lemma_dec_digits_bytes(n / 10);
        let s = dec_digits(n / 10);
        let d = (48 + n % 10) as u8;
        assert forall|i: int| 0 <= i < dec_digits(n).len() implies 48 <= (#[trigger] dec_digits(
            n,
        )[i]) <= 57 by {
            if i < s.len() {
                assert(dec_digits(n)[i] == s[i]);
            } else {
                assert(dec_digits(n)[i] == d);
            }
        }
    }
}

/// Rendering a non-negative number and reading it back yields it again.
pub proof fn lemma_digits_roundtrip(n: int)
    requires
        n >= 0,
    ensures
        is_digits(dec_digits(n)),
        digits_val(dec_digits(n)) == n,
    decreases n,
{
    lemma_dec_digits_bytes(n);
    if n < 10 {
        assert(dec_digits(n) == seq![(48 + n) as u8]);
        assert(dec_digits(n).drop_last() =~= Seq::<u8>::empty());
        assert(digits_val(Seq::<u8>::empty()) == 0);
    } else {
        lemma_digits_roundtrip(n / 10);
        let s = dec_digits(n / 10);
        let d = (48 + n % 10) as u8;
        assert(s.push(d).drop_last() =~= s);
        assert(s.push(d).last() == d);
        assert(digits_val(s.push(d)) == n / 10 * 10 + n % 10);
    }
}

/// Rendering a signed number and reading it back yields it again.
pub proof fn lemma_numeral_roundtrip(n: int)
    ensures
        is_numeral(dec_int(n)),
        numeral_val(dec_int(n)) == n,
{
    if n < 0 {
        lemma_digits_roundtrip(-n);
        lemma_dec_digits_bytes(-n);
        let s = seq![45u8] + dec_digits(-n);
        assert(s[0] == 45);
        assert(s.skip(1) =~= dec_digits(-n));
    } else {
        lemma_digits_roundtrip(n);
        lemma_dec_digits_bytes(n);
        assert(dec_digits(n)[0] != 45);
    }
}

/// A decimal rendering holds no carriage return, so it is line safe.
pub proof fn lemma_dec_int_line_safe(n: int)
    ensures
        line_safe(dec_int(n)),
{
    let s = dec_int(n);
    if n < 0 {
        lemma_dec_digits_bytes(-n);
        assert forall|i: int| 0 <= i < s.len() implies (#[trigger] s[i]) != CR by {
            if i > 0 {
                assert(s[i] == dec_digits(-n)[i - 1]);
            }
        }
    } else {
        lemma_dec_digits_bytes(n);
        assert forall|i: int| 0 <= i < s.len() implies (#[trigger] s[i]) != CR by {}
    }
}

/// Scanning from `pos` finds exactly the terminator at `eol` when no CRLF
/// pair starts before it.
proof fn lemma_find_crlf_in_line(input: Seq<u8>, pos: int, eol: int)
    requires
        0 <= pos <= eol,
        eol + 2 <= input.len(),
        input[eol] == CR,
        input[eol + 1] == LF,
        forall|i: int| pos <= i < eol ==> !((#[trigger] input[i]) == CR && input[i + 1] == LF),
    ensures
        find_crlf(input, pos) == Some(eol),
    decreases eol - pos,
{
    if pos < eol {
        lemma_find_crlf_in_line(input, pos + 1, eol);
    }
}

/// A line placed at `pos` is read back as its tag and payload: the scan
/// stops exactly at the line's own terminator.
proof fn lemma_parse_line(input: Seq<u8>, pos: int, tag: u8, payload: Seq<u8>)
    requires
        0 <= pos,
        tag != CR,
        line_safe(payload),
        pos + line(tag, payload).len() <= input.len(),
        input.subrange(pos, pos + line(tag, payload).len()) == line(tag, payload),
    ensures
        find_crlf(input, pos) == Some(pos + 1 + payload.len()),
        input[pos] == tag,
        input.subrange(pos + 1, pos + 1 + payload.len()) == payload,
{
    let l = line(tag, payload);
    let eol = pos + 1 + payload.len();
    assert forall|j: int| 0 <= j < l.len() implies input[pos + j] == l[j] by {
        assert(input.subrange(pos, pos + l.len())[j] == input[pos + j]);
    }
    let head = seq![tag] + payload;
    assert(l == head + seq![CR, LF]);
    assert(l[0] == tag);
    assert forall|j: int| 0 <= j < payload.len() implies l[1 + j] == payload[j] by {
        assert(l[1 + j] == head[1 + j]);
        assert(head[1 + j] == payload[j]);
    }
    assert(l[1 + payload.len() as int] == CR);
    assert(l[1 + payload.len() as int + 1] == LF);
    assert forall|i: int| pos <= i < eol implies !((#[trigger] input[i]) == CR && input[i + 1]
        == LF) by {
        if i == pos {
            assert(input[i] == tag);
        } else if i < eol - 1 {
            assert(input[i] == payload[i - pos - 1]);
            assert(input[i + 1] == payload[i - pos]);
        } else {
            assert(input[i + 1] == CR);
        }
    }
    lemma_find_crlf_in_line(input, pos, eol);
    assert(input.subrange(pos + 1, pos + 1 + payload.len()) =~= payload);
}

/// Round trip: a well-formed value written at `pos` decodes to itself, and
/// decoding consumes exactly its encoding, whatever bytes follow.
pub proof fn lemma_round_trip(v: ValueSpec, input: Seq<u8>, pos: int)
    requires
        wf(v),
        0 <= pos,
        pos + wire(v).len() <= input.len(),
        input.subrange(pos, pos + wire(v).len()) == wire(v),
    ensures
        parse(input, pos) == ParseOutcome::Found(v, pos + wire(v).len()),
    decreases v, 0int,
{
    let w = wire(v);
    assert forall|j: int| 0 <= j < w.len() implies input[pos + j] == w[j] by {
        assert(input.subrange(pos, pos + w.len())[j] == input[pos + j]);
    }
    match v {
        ValueSpec::SimpleString(s) => {
            lemma_parse_line(input, pos, 43, s);
        },
        ValueSpec::Error(s) => {
            lemma_parse_line(input, pos, 45, s);
        },
        ValueSpec::Integer(n) => {
            lemma_dec_int_line_safe(n as int);
            lemma_parse_line(input, pos, 58, dec_int(n as int));
            lemma_numeral_roundtrip(n as int);
        },
        ValueSpec::BulkString(None) => {
            let p = seq![45u8, 49u8];
            assert(line_safe(p));
            lemma_parse_line(input, pos, 36, p);
            assert(p.skip(1) =~= seq![49u8]);
            assert(seq![49u8].drop_last() =~= Seq::<u8>::empty());
            assert(digits_val(Seq::<u8>::empty()) == 0);
            assert(digits_val(seq![49u8]) == 1);
            assert(numeral_val(p) == -1);
        },
        ValueSpec::BulkString(Some(b)) => {
            let d = dec_int(b.len() as int);
            let l = line(36, d);
            assert forall|j: int| 0 <= j < l.len() implies w[j] == l[j] by {
                assert(w == (l + b) + seq![CR, LF]);
                assert(w[j] == (l + b)[j]);
                assert((l + b)[j] == l[j]);
            }
            assert(input.subrange(pos, pos + l.len()) =~= l);
            lemma_dec_int_line_safe(b.len() as int);
            lemma_parse_line(input, pos, 36, d);
            lemma_numeral_roundtrip(b.len() as int);
            let next = pos + l.len();
            assert forall|j: int| 0 <= j < b.len() implies input[next + j] == b[j] by {
                assert(w == (l + b) + seq![CR, LF]);
                assert(w[l.len() + j] == (l + b)[l.len() + j]);
                assert((l + b)[l.len() + j] == b[j]);
            }
            assert(input.subrange(next, next + b.len()) =~= b);
            assert(w == (l + b) + seq![CR, LF]);
            assert(w[l.len() + b.len() as int] == CR);
            assert(w[l.len() + b.len() as int + 1] == LF);
            assert(input[next + b.len()] == CR);
            assert(input[next + b.len() + 1] == LF);
        },
        ValueSpec::Array(items) => {
            let d = dec_int(items.len() as int);
            let l = line(42, d);
            let ws = wire_seq(items, 0);
            assert(w == l + ws);
            assert forall|j: int| 0 <= j < l.len() implies w[j] == l[j] by {
                assert(w[j] == (l + ws)[j]);
            }
            assert(input.subrange(pos, pos + l.len()) =~= l);
            lemma_dec_int_line_safe(items.len() as int);
            lemma_parse_line(input, pos, 42, d);
            lemma_digits_roundtrip(items.len() as int);
            let next = pos + l.len();
            assert forall|j: int| 0 <= j < ws.len() implies input[next + j] == ws[j] by {
                assert(w[l.len() + j] == (l + ws)[l.len() + j]);
            }
            assert(input.subrange(next, next + ws.len()) =~= ws);
            lemma_round_trip_seq(items, input, next, 0);
            assert(items.skip(0) =~= items);
        },
    }
}

/// Round trip for the elements of a list: the encodings of `items[i..]`
/// written at `pos` decode back to exactly those elements, in order.
proof fn lemma_round_trip_seq(items: Seq<ValueSpec>, input: Seq<u8>, pos: int, i: int)
    requires
        0 <= i <= items.len(),
        forall|j: int| 0 <= j < items.len() ==> wf(#[trigger] items[j]),
        0 <= pos,
        pos + wire_seq(items, i).len() <= input.len(),
        input.subrange(pos, pos + wire_seq(items, i).len()) == wire_seq(items, i),
    ensures
        parse_list(input, pos, items.len() - i) == ListOutcome::LFound(
            items.skip(i),
            pos + wire_seq(items, i).len(),
        ),
    decreases items, items.len() - i,
{
    if i == items.len() {
        assert(items.skip(i) =~= Seq::<ValueSpec>::empty());
    } else {
        let ws = wire_seq(items, i);
        let w0 = wire(items[i]);
        let rest = wire_seq(items, i + 1);
        assert(ws == w0 + rest);
        assert forall|j: int| 0 <= j < ws.len() implies input[pos + j] == ws[j] by {
            assert(input.subrange(pos, pos + ws.len())[j] == input[pos + j]);
        }
        assert forall|j: int| 0 <= j < w0.len() implies input[pos + j] == w0[j] by {
            assert(ws[j] == (w0 + rest)[j]);
        }
        assert(input.subrange(pos, pos + w0.len()) =~= w0);
        lemma_round_trip(items[i], input, pos);
        let next = pos + w0.len();
        assert forall|j: int| 0 <= j < rest.len() implies input[next + j] == rest[j] by {
            assert(ws[w0.len() + j] == (w0 + rest)[w0.len() + j]);
        }
        assert(input.subrange(next, next + rest.len()) =~= rest);
        lemma_round_trip_seq(items, input, next, i + 1);
        lemma_wire_len(items[i]);
        assert(seq![items[i]] + items.skip(i + 1) =~= items.skip(i));
    }
}

/// Round trip on nothing but the encoding itself.
pub proof fn lemma_round_trip_exact(v: ValueSpec)
    requires
        wf(v),
    ensures
        parse(wire(v), 0) == ParseOutcome::Found(v, wire(v).len() as int),
{
    assert(wire(v).subrange(0, wire(v).len() as int) =~= wire(v));
    lemma_round_trip(v, wire(v), 0);
}

/// Null distinctness: the null bulk string differs from every present bulk
/// string, the empty one included, and so do their encodings.
pub proof fn lemma_null_distinct(b: Seq<u8>)
    ensures
        ValueSpec::BulkString(None) != ValueSpec::BulkString(Some(b)),
        wire(ValueSpec::BulkString(None)) != wire(ValueSpec::BulkString(Some(b))),
{
    lemma_dec_digits_bytes(b.len() as int);
    let wn = wire(ValueSpec::BulkString(None));
    let ws = wire(ValueSpec::BulkString(Some(b)));
    let d = dec_int(b.len() as int);
    assert(wn[1] == 45);
    assert(ws == (line(36, d) + b) + seq![CR, LF]);
    assert(ws[1] == line(36, d)[1]);
    assert(line(36, d)[1] == d[0]);
    assert(d[0] == dec_digits(b.len() as int)[0]);
    assert(ws[1] != 45);
}

/// Length fidelity: a list parse that succeeds yields exactly the declared
/// count of elements, never fewer.
pub proof fn lemma_list_length(input: Seq<u8>, pos: int, k: int, items: Seq<ValueSpec>, end: int)
    requires
        0 <= k,
        parse_list(input, pos, k) == ListOutcome::LFound(items, end),
    ensures
        items.len() == k,
    decreases k,
{
    if k > 0 {
        match parse(input, pos) {
            ParseOutcome::Found(v, next) => {
                match parse_list(input, next, k - 1) {
                    ListOutcome::LFound(items2, end2) => {
                        lemma_list_length(input, next, k - 1, items2, end2);
                    },
                    _ => {},
                }
            },
            _ => {},
        }
    }
}

/// Nothing before a found terminator is itself a CRLF pair: the scan stops
/// at the first one.
pub proof fn lemma_find_crlf_first(input: Seq<u8>, pos: int)
    ensures
        match find_crlf(input, pos) {
            Some(eol) => forall|i: int|
                pos <= i < eol ==> !((#[trigger] input[i]) == CR && input[i + 1] == LF),
            None => true,
        },
    decreases input.len() - pos,
{
    if !(pos < 0 || pos + 1 >= input.len()) && !(input[pos] == CR && input[pos + 1] == LF) {
        lemma_find_crlf_first(input, pos + 1);
    }
}

/// Whatever decodes is well-formed — it can be encoded back — and decoding
/// always advances: a found value ends after its start and inside the input.
pub proof fn lemma_parse_wf(input: Seq<u8>, pos: int)
    ensures
        match parse(input, pos) {
            ParseOutcome::Found(v, end) => wf(v) && pos < end <= input.len(),
            _ => true,
        },
    decreases input.len() - pos, 0int, 0int,
{
    lemma_find_crlf_bounds(input, pos);
    lemma_find_crlf_first(input, pos);
    match find_crlf(input, pos) {
        None => {},
        Some(eol) => {
            if eol != pos {
                let tag = input[pos];
                let payload = input.subrange(pos + 1, eol);
                let next = eol + 2;
                if tag == 43 || tag == 45 {
                    assert forall|i: int| 0 <= i < payload.len() - 1 implies !((
                    #[trigger] payload[i]) == CR && payload[i + 1] == LF) by {
                        assert(payload[i] == input[pos + 1 + i]);
                        assert(payload[i + 1] == input[pos + 1 + i + 1]);
                    }
                } else if tag == 42 {
                    if is_digits(payload) && digits_val(payload) <= i64::MAX {
                        lemma_digits_val_nonneg(payload);
                        lemma_parse_list_wf(input, next, digits_val(payload));
                        match parse_list(input, next, digits_val(payload)) {
                            ListOutcome::LFound(items, end) => {
                                lemma_list_length(input, next, digits_val(payload), items, end);
                            },
                            _ => {},
                        }
                    }
                }
            }
        },
    }
}

/// Every element of a decoded list is well-formed, and the list's end lies
/// inside the input.
proof fn lemma_parse_list_wf(input: Seq<u8>, pos: int, k: int)
    requires
        0 <= pos <= input.len(),
    ensures
        match parse_list(input, pos, k) {
            ListOutcome::LFound(items, end) => (forall|j: int|
                0 <= j < items.len() ==> wf(#[trigger] items[j])) && pos <= end <= input.len(),
            _ => true,
        },
    decreases input.len() - pos, 1int, k,
{
    if k > 0 {
        lemma_parse_wf(input, pos);
        match parse(input, pos) {
            ParseOutcome::Found(v, next) => {
                if pos < next <= input.len() {
                    lemma_parse_list_wf(input, next, k - 1);
                    match parse_list(input, next, k - 1) {
                        ListOutcome::LFound(items, end) => {
                            assert forall|j: int| 0 <= j < (seq![v] + items).len() implies wf(
                                #[trigger] (seq![v] + items)[j],
                            ) by {
                                if j == 0 {
                                    assert((seq![v] + items)[0] == v);
                                } else {
                                    assert((seq![v] + items)[j] == items[j - 1]);
                                }
                            }
                        },
                        _ => {},
                    }
                }
            },
            _ => {},
        }
    }
}

/// Serialization on one stream: when two replies stand back to back, the
/// first decode consumes exactly the first reply and the second decode,
/// started where the first ended, consumes exactly the second — the two
/// never interleave.
pub proof fn lemma_sequential_replies(v1: ValueSpec, v2: ValueSpec, input: Seq<u8>, pos: int)
    requires
        wf(v1),
        wf(v2),
        0 <= pos,
        pos + wire(v1).len() + wire(v2).len() <= input.len(),
        input.subrange(pos, pos + wire(v1).len()) == wire(v1),
        input.subrange(pos + wire(v1).len(), pos + wire(v1).len() + wire(v2).len()) == wire(v2),
    ensures
        parse(input, pos) == ParseOutcome::Found(v1, pos + wire(v1).len()),
        parse(input, pos + wire(v1).len()) == ParseOutcome::Found(
            v2,
            pos + wire(v1).len() + wire(v2).len(),
        ),
{
    lemma_round_trip(v1, input, pos);
    lemma_round_trip(v2, input, pos + wire(v1).len());
}

impl RespCodec for Value {
    open spec fn wire_spec(&self) -> Seq<u8> {
        wire(self@)
    }

    open spec fn parse_spec(input: Seq<u8>, pos: int) -> ParseOutcome<ValueSpec> {
        parse(input, pos)
    }

    fn encode(&self, out: &mut Vec<u8>) {
        self.encode_into(out)
    }

    fn decode(input: &[u8], pos: usize) -> (r: Result<(Self, usize), RedisError>) {
        Value::decode_from(input, pos)
    }
}

} // verus!

