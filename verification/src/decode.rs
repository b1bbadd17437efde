//! The executable decoders. Each one is proved to return exactly what the
//! spec-level grammar says for its input: the same value, the same consumed
//! byte count, or the same error.
//!
//! Every decoder either fully succeeds, returning one well-formed frame and
//! how many input bytes it occupies, or fully fails with an error and no
//! partial result; the input is never mutated.

use vstd::prelude::*;
use vstd::slice::slice_subrange;
use vstd::slice::slice_to_vec;

use crate::grammar;
use crate::grammar::ARRAY_TAG;
use crate::grammar::BULK_STRING_TAG;
use crate::grammar::CR;
use crate::grammar::DIGIT_ZERO;
use crate::grammar::ERROR_TAG;
use crate::grammar::INTEGER_TAG;
use crate::grammar::LF;
use crate::grammar::MINUS;
use crate::grammar::SIMPLE_STRING_TAG;
use crate::value::RespError;
use crate::value::SpecValue;
use crate::value::RespValue;
use crate::value::seq_model;
use crate::value::value_model;

verus! {

/// Does the executable decode result `r` say exactly what the spec-level
/// parse result `pr` says: the same decoded value (through its model), the
/// same consumed count, or the same error?
pub open spec fn decodes_to(
    r: Result<(RespValue, usize), RespError>,
    pr: Result<(SpecValue, int), RespError>,
) -> bool {
    match r {
        Ok((v, n)) => pr == Ok::<_, RespError>((value_model(v), n as int)),
        Err(e) => pr == Err::<(SpecValue, int), _>(e),
    }
}

/// The position of the first two-byte terminator in `s`, if any.
fn find_crlf(s: &[u8]) -> (r: Option<usize>)
    ensures
        match r {
            Some(i) => grammar::find_crlf(s@) == Some(i as int) && i + 2 <= s@.len(),
            None => grammar::find_crlf(s@) is None,
        },
{
    let n = s.len();
    if n < 2 {
        proof {
            grammar::lemma_find_crlf(s@);
        }
        return None;
    }
    let mut i: usize = 0;
    while i < n - 1
        invariant
            n == s@.len(),
            2 <= n,
            0 <= i <= n,
            forall|j: int| 0 <= j < i ==> !grammar::crlf_at(s@, j),
        decreases n - i,
    {
        if s[i] == CR && s[i + 1] == LF {
            proof {
                grammar::lemma_find_crlf(s@);
                assert(grammar::crlf_at(s@, i as int));
            }
            return Some(i);
        }
        i = i + 1;
    }
    proof {
        grammar::lemma_find_crlf(s@);
        assert(forall|j: int| !grammar::crlf_at(s@, j));
    }
    None
}

/// One line-shaped component: the expected tag byte, the payload up to the
/// first terminator, the terminator itself. Returns the payload and the
/// bytes consumed through the terminator.
fn parse_line_frame(s: &[u8], tag: u8) -> (r: Result<(Vec<u8>, usize), RespError>)
    ensures
        match r {
            Ok((p, n)) => grammar::parse_line(s@, tag) == Ok::<_, RespError>((p@, n as int)) && 3
                <= n <= s@.len(),
            Err(e) => grammar::parse_line(s@, tag) == Err::<(Seq<u8>, int), _>(e),
        },
{
    if s.len() == 0 {
        return Err(RespError::EmptyInput);
    }
    if s[0] != tag {
        return Err(RespError::UnrecognizedTag);
    }
    let tail = slice_subrange(s, 1, s.len());
    proof {
        assert(tail@ =~= s@.skip(1));
    }
    match find_crlf(tail) {
        None => Err(RespError::MissingTerminator),
        Some(i) => {
            let payload = slice_to_vec(slice_subrange(s, 1, 1 + i));
            proof {
                assert(payload@ =~= s@.skip(1).take(i as int));
            }
            Ok((payload, i + 3))
        },
    }
}

/// The magnitude of the smallest signed 64-bit integer.
const I64_MIN_MAGNITUDE: u64 = 9223372036854775808;

/// The signed 64-bit value of a signed decimal body: an optional minus sign,
/// then one or more digits. `None` when the body is not of that shape or its
/// value does not fit.
fn parse_int_body(body: &[u8]) -> (r: Option<i64>)
    ensures
        match r {
            Some(v) => grammar::is_int_body(body@) && v as int == grammar::int_body_val(body@),
            None => !(grammar::is_int_body(body@) && i64::MIN <= grammar::int_body_val(body@)
                <= i64::MAX),
        },
{
    let n = body.len();
    if n == 0 {
        return None;
    }
    let neg = body[0] == MINUS;
    let start: usize = if neg {
        1
    } else {
        0
    };
    if start == n {
        return None;
    }
    let ghost digits: Seq<u8> = body@.skip(start as int);
    let bound: u64 = if neg {
        I64_MIN_MAGNITUDE
    } else {
        I64_MIN_MAGNITUDE - 1
    };
    let mut acc: u64 = 0;
    let mut j: usize = start;
    proof {
        assert(digits.take(0) =~= Seq::<u8>::empty());
    }
    while j < n
        invariant
            n == body@.len(),
            start <= j <= n,
            start < n,
            start == 1 <==> neg,
            start == 0 || start == 1,
            neg <==> body@[0] == MINUS,
            digits == body@.skip(start as int),
            bound == if neg {
                I64_MIN_MAGNITUDE
            } else {
                (I64_MIN_MAGNITUDE - 1) as u64
            },
            grammar::all_digits(digits.take(j - start)),
            acc == grammar::digits_val(digits.take(j - start)),
            acc <= bound,
        decreases n - j,
    {
        let b = body[j];
        proof {
            assert(digits[j - start] == body@[j as int]);
        }
        if b < DIGIT_ZERO || b > DIGIT_ZERO + 9 {
            proof {
                if grammar::is_int_body(body@) {
                    if neg {
                        assert(grammar::all_digits(body@.skip(1)));
                    }
                    assert(grammar::is_digit(digits[j - start]));
                }
            }
            return None;
        }
        let d = (b - DIGIT_ZERO) as u64;
        if acc > (bound - d) / 10 {
            proof {
                lemma_rejected_digit_overflows(body@, digits, neg, start as int, j as int, bound);
            }
            return None;
        }
        proof {
            assert(acc * 10 + d <= bound) by (nonlinear_arith)
                requires
                    acc <= (bound - d) / 10,
                    d <= bound,
            {}
            grammar::lemma_digits_val_step(digits, j - start);
            assert(digits.take(j - start + 1).drop_last() =~= digits.take(j - start));
            assert(grammar::all_digits(digits.take(j - start + 1))) by {
                assert forall|k: int| 0 <= k < j - start + 1 implies grammar::is_digit(
                    #[trigger] digits.take(j - start + 1)[k],
                ) by {
                    if k < j - start {
                        assert(digits.take(j - start + 1)[k] == digits.take(j - start)[k]);
                    } else {
                        assert(digits.take(j - start + 1)[k] == digits[j - start]);
                    }
                }
            }
        }
        acc = acc * 10 + d;
        j = j + 1;
    }
    proof {
        assert(digits.take(n - start) =~= digits);
        if neg {
            assert(body@.skip(1) == digits);
            assert(grammar::is_int_body(body@));
            assert(grammar::int_body_val(body@) == -grammar::digits_val(digits));
        } else {
            assert(digits =~= body@);
            assert(grammar::is_int_body(body@));
            assert(grammar::int_body_val(body@) == grammar::digits_val(digits));
        }
    }
    if neg {
        if acc == I64_MIN_MAGNITUDE {
            Some(i64::MIN)
        } else {
            Some(-(acc as i64))
        }
    } else {
        Some(acc as i64)
    }
}

/// The length header shared by bulk strings and arrays: the tag, a signed
/// decimal length that is -1 or non-negative, the terminator.
fn parse_length_header(s: &[u8], tag: u8) -> (r: Result<(i64, usize), RespError>)
    ensures
        match r {
            Ok((len, h)) => grammar::parse_len_header(s@, tag) == Ok::<_, RespError>(
                (len as int, h as int),
            ) && 3 <= h <= s@.len() && len >= -1,
            Err(e) => grammar::parse_len_header(s@, tag) == Err::<(int, int), _>(e),
        },
{
    match parse_line_frame(s, tag) {
        Err(e) => Err(e),
        Ok((body, n)) => match parse_int_body(body.as_slice()) {
            None => Err(RespError::InvalidLength),
            Some(v) => if v < -1 {
                Err(RespError::InvalidLength)
            } else {
                Ok((v, n))
            },
        },
    }
}

/// Decodes one simple string frame: the `+` tag, the text up to the first
/// terminator, the terminator. Returns the decoded value and the bytes
/// consumed, exactly as the spec-level grammar says.
pub fn simple_string(input: &[u8]) -> (r: Result<(RespValue, usize), RespError>)
    ensures
        decodes_to(r, grammar::parse_simple_string(input@)),
        r matches Ok(p) ==> 1 <= p.1 <= input@.len(),
{
    match parse_line_frame(input, SIMPLE_STRING_TAG) {
        Err(e) => Err(e),
        Ok((p, n)) => Ok((RespValue::SimpleString(p), n)),
    }
}

/// Decodes one error frame: the same grammar as a simple string under the
/// `-` tag, yielding the error variant.
pub fn error(input: &[u8]) -> (r: Result<(RespValue, usize), RespError>)
    ensures
        decodes_to(r, grammar::parse_error(input@)),
        r matches Ok(p) ==> 1 <= p.1 <= input@.len(),
{
    match parse_line_frame(input, ERROR_TAG) {
        Err(e) => Err(e),
        Ok((p, n)) => Ok((RespValue::Error(p), n)),
    }
}

/// Decodes one integer frame: the `:` tag, an optional minus sign and one or
/// more digits within the signed 64-bit range, the terminator.
pub fn integer(input: &[u8]) -> (r: Result<(RespValue, usize), RespError>)
    ensures
        decodes_to(r, grammar::parse_integer_frame(input@)),
        r matches Ok(p) ==> 1 <= p.1 <= input@.len(),
{
    match parse_line_frame(input, INTEGER_TAG) {
        Err(e) => Err(e),
        Ok((body, n)) => match parse_int_body(body.as_slice()) {
            None => Err(RespError::InvalidIntegerLiteral),
            Some(v) => Ok((RespValue::Integer(v), n)),
        },
    }
}

/// Decodes one bulk string frame: the `$` tag and a declared length; then,
/// unless the length is -1 (the null bulk string), exactly that many raw
/// payload bytes — never inspected or validated — and the terminator.
pub fn bulk_string(input: &[u8]) -> (r: Result<(RespValue, usize), RespError>)
    ensures
        decodes_to(r, grammar::parse_bulk_string(input@)),
        r matches Ok(p) ==> 1 <= p.1 <= input@.len(),
{
    let (len, h) = match parse_length_header(input, BULK_STRING_TAG) {
        Err(e) => return Err(e),
        Ok(x) => x,
    };
    if len == -1 {
        return Ok((RespValue::BulkString(None), h));
    }
    let ghost rest = input@.skip(h as int);
    let rem = input.len() - h;
    if (len as u64) > (rem as u64) {
        return Err(RespError::TruncatedPayload);
    }
    let plen = len as usize;
    if rem - plen < 2 {
        return Err(RespError::MissingTerminator);
    }
    proof {
        assert(rest[len as int] == input@[h + len]);
        assert(rest[len as int + 1] == input@[h + len + 1]);
    }
    if input[h + plen] != CR || input[h + plen + 1] != LF {
        return Err(RespError::MissingTerminator);
    }
    let payload = slice_to_vec(slice_subrange(input, h, h + plen));
    proof {
        assert(payload@ =~= rest.take(len as int));
    }
    Ok((RespValue::BulkString(Some(payload)), h + plen + 2))
}

/// Decodes one array frame: the `*` tag and a declared element count; then,
/// unless the count is -1 (the null array), exactly that many frames of any
/// kind, nested arrays included. The first failing element's error propagates
/// unmodified; the array itself has no trailing terminator.
pub fn array(input: &[u8]) -> (r: Result<(RespValue, usize), RespError>)
    ensures
        decodes_to(r, grammar::parse_array(input@)),
        r matches Ok(p) ==> 1 <= p.1 <= input@.len(),
    decreases input@.len(), 0int,
{
    let (len, h) = match parse_length_header(input, ARRAY_TAG) {
        Err(e) => return Err(e),
        Ok(x) => x,
    };
    if len == -1 {
        return Ok((RespValue::Array(None), h));
    }
    let ghost s = input@;
    let count = len as u64;
    let mut elems: Vec<RespValue> = Vec::new();
    let mut cur: usize = h;
    let mut k: u64 = 0;
    proof {
        match grammar::parse_elements(s.skip(h as int), len as nat) {
            Ok((tail, m)) => {
                assert(seq_model(elems@) + tail =~= tail);
            },
            Err(_) => {},
        }
    }
    while k < count
        invariant
            s == input@,
            3 <= h <= cur <= s.len(),
            0 <= k <= count,
            count == len as u64,
            0 <= len <= i64::MAX,
            grammar::parse_len_header(s, ARRAY_TAG) == Ok::<_, RespError>((len as int, h as int)),
            elems@.len() == k,
            grammar::parse_elements(s.skip(h as int), len as nat) == (match grammar::parse_elements(
                s.skip(cur as int),
                (count - k) as nat,
            ) {
                Ok((tail, m)) => Ok::<_, RespError>((seq_model(elems@) + tail, cur - h + m)),
                Err(e) => Err::<(Seq<SpecValue>, int), _>(e),
            }),
        decreases count - k,
    {
        let rest = slice_subrange(input, cur, input.len());
        proof {
            assert(rest@ =~= s.skip(cur as int));
        }
        match decode(rest) {
            Err(e) => {
                return Err(e);
            },
            Ok((v, n)) => {
                proof {
                    assert(s.skip(cur as int).skip(n as int) =~= s.skip(cur + n));
                    assert(elems@.push(v).drop_last() =~= elems@);
                    assert(seq_model(elems@.push(v)) == seq_model(elems@).push(value_model(v)));
                    match grammar::parse_elements(s.skip(cur + n), (count - k - 1) as nat) {
                        Ok((tail, m)) => {
                            assert(seq_model(elems@) + (seq![value_model(v)] + tail) =~= seq_model(
                                elems@.push(v),
                            ) + tail);
                        },
                        Err(_) => {},
                    }
                }
                elems.push(v);
                cur = cur + n;
                k = k + 1;
            },
        }
    }
    proof {
        match grammar::parse_elements(s.skip(cur as int), 0) {
            Ok((tail, m)) => {
                assert(seq_model(elems@) + tail =~= seq_model(elems@));
            },
            Err(_) => {},
        }
    }
    Ok((RespValue::Array(Some(elems)), cur))
}

/// Decodes one frame of any kind, dispatching on the leading tag byte; this
/// is the general entry point. Fails with `EmptyInput` on zero-length input
/// and with `UnrecognizedTag` when the leading byte matches none of the five
/// tags; otherwise it returns whatever the matching decoder returns.
pub fn decode(input: &[u8]) -> (r: Result<(RespValue, usize), RespError>)
    ensures
        decodes_to(r, grammar::parse_value(input@)),
        r matches Ok(p) ==> 1 <= p.1 <= input@.len(),
    decreases input@.len(), 1int,
{
    if input.len() == 0 {
        return Err(RespError::EmptyInput);
    }
    let tag = input[0];
    if tag == SIMPLE_STRING_TAG {
        simple_string(input)
    } else if tag == ERROR_TAG {
        error(input)
    } else if tag == INTEGER_TAG {
        integer(input)
    } else if tag == BULK_STRING_TAG {
        bulk_string(input)
    } else if tag == ARRAY_TAG {
        array(input)
    } else {
        Err(RespError::UnrecognizedTag)
    }
}

/// When the digit accumulated so far already exceeds the overflow bound, the
/// whole body's value lies outside the signed 64-bit range.
proof fn lemma_rejected_digit_overflows(
    body: Seq<u8>,
    digits: Seq<u8>,
    neg: bool,
    start: int,
    j: int,
    bound: u64,
)
    requires
        body.len() > 0,
        start == if neg {
            1int
        } else {
            0int
        },
        neg <==> body[0] == MINUS,
        start <= j < body.len(),
        digits == body.skip(start),
        bound == if neg {
            I64_MIN_MAGNITUDE
        } else {
            (I64_MIN_MAGNITUDE - 1) as u64
        },
        grammar::is_digit(body[j]),
        grammar::digits_val(digits.take(j - start)) * 10 + (body[j] - DIGIT_ZERO) > bound,
    ensures
        !(grammar::is_int_body(body) && i64::MIN <= grammar::int_body_val(body) <= i64::MAX),
{
    if grammar::is_int_body(body) {
        if neg {
            assert(grammar::all_digits(body.skip(1)));
        }
        assert(grammar::all_digits(digits));
        grammar::lemma_digits_val_step(digits, j - start);
        assert(digits[j - start] == body[j]);
        grammar::lemma_digits_val_prefix(digits, j - start + 1);
        assert(grammar::digits_val(digits) > bound);
        if neg {
            assert(grammar::int_body_val(body) == -grammar::digits_val(digits));
            assert(grammar::int_body_val(body) < i64::MIN);
        } else {
            assert(digits =~= body);
            assert(grammar::int_body_val(body) == grammar::digits_val(digits));
            assert(grammar::int_body_val(body) > i64::MAX);
        }
    }
}

} // verus!
