//! The wire grammar, stated once as spec-level parse functions over byte
//! sequences. Every executable decoder is proved against these functions, so
//! they are the single reference for what each frame kind means.
//!
//! A parse function returns `Ok((result, consumed))`, where `consumed` is the
//! number of bytes of the input the frame occupies, or the `RespError` the
//! input deserves. Parsing never looks past the consumed prefix.

use vstd::prelude::*;

use crate::value::RespError;
use crate::value::SpecValue;

verus! {

/// Carriage return, the first terminator byte.
pub const CR: u8 = 13;

/// Line feed, the second terminator byte.
pub const LF: u8 = 10;

/// Tag byte of a simple string frame: `+`.
pub const SIMPLE_STRING_TAG: u8 = 43;

/// Tag byte of an error frame: `-`.
pub const ERROR_TAG: u8 = 45;

/// Tag byte of an integer frame: `:`.
pub const INTEGER_TAG: u8 = 58;

/// Tag byte of a bulk string frame: `$`.
pub const BULK_STRING_TAG: u8 = 36;

/// Tag byte of an array frame: `*`.
pub const ARRAY_TAG: u8 = 42;

/// The minus sign that may open a signed decimal body.
pub const MINUS: u8 = 45;

/// ASCII zero, the base of the decimal digits.
pub const DIGIT_ZERO: u8 = 48;

/// Does the two-byte terminator stand at position `i` of `s`?
pub open spec fn crlf_at(s: Seq<u8>, i: int) -> bool {
    &&& 0 <= i
    &&& i + 2 <= s.len()
    &&& s[i] == CR
    &&& s[i + 1] == LF
}

/// The position of the first terminator occurrence in `s`, if any.
pub open spec fn find_crlf(s: Seq<u8>) -> Option<int>
    decreases s.len(),
{
    if s.len() < 2 {
        None
    } else if s[0] == CR && s[1] == LF {
        Some(0)
    } else {
        match find_crlf(s.skip(1)) {
            Some(i) => Some(i + 1),
            None => None,
        }
    }
}

/// `find_crlf` returns the first terminator occurrence: a position where the
/// terminator stands, with none at any earlier position; `None` only when no
/// position holds one.
pub proof fn lemma_find_crlf(s: Seq<u8>)
    ensures
        match find_crlf(s) {
            Some(i) => crlf_at(s, i) && forall|j: int| 0 <= j < i ==> !crlf_at(s, j),
            None => forall|j: int| !crlf_at(s, j),
        },
    decreases s.len(),
{
    if s.len() < 2 {
    } else if s[0] == CR && s[1] == LF {
    } else {
        let t = s.skip(1);
        lemma_find_crlf(t);
        assert forall|j: int| 1 <= j && #[trigger] crlf_at(s, j) implies crlf_at(t, j - 1) by {
            assert(t[j - 1] == s[j]);
            assert(t[j] == s[j + 1]);
        }
        match find_crlf(t) {
            Some(i) => {
                assert(crlf_at(s, i + 1)) by {
                    assert(t[i] == s[i + 1]);
                    assert(t[i + 1] == s[i + 2]);
                }
                assert forall|j: int| 0 <= j < i + 1 implies !crlf_at(s, j) by {
                    if j >= 1 && crlf_at(s, j) {
                        assert(crlf_at(t, j - 1));
                    }
                }
            },
            None => {
                assert forall|j: int| !crlf_at(s, j) by {
                    if j >= 1 && crlf_at(s, j) {
                        assert(crlf_at(t, j - 1));
                    }
                }
            },
        }
    }
}

/// On success, `parse_line` consumes between three bytes and the whole input,
/// and its payload is the input between the tag and the terminator.
pub proof fn lemma_parse_line_ok(s: Seq<u8>, tag: u8)
    ensures
        match parse_line(s, tag) {
            Ok((p, n)) => {
                &&& 3 <= n <= s.len()
                &&& p =~= s.subrange(1, n - 2)
                &&& p.len() == n - 3
                &&& s[n - 2] == CR
                &&& s[n - 1] == LF
            },
            Err(_) => true,
        },
{
    if s.len() > 0 && s[0] == tag {
        let t = s.skip(1);
        lemma_find_crlf(t);
        if let Some(i) = find_crlf(t) {
            assert(t[i] == s[i + 1]);
            assert(t[i + 1] == s[i + 2]);
            assert(t.take(i) =~= s.subrange(1, i + 1));
        }
    }
}

/// Is `b` a decimal digit?
pub open spec fn is_digit(b: u8) -> bool {
    DIGIT_ZERO <= b <= DIGIT_ZERO + 9
}

/// Is every byte of `s` a decimal digit?
pub open spec fn all_digits(s: Seq<u8>) -> bool {
    forall|i: int| 0 <= i < s.len() ==> is_digit(#[trigger] s[i])
}

/// The non-negative value of a run of decimal digits, most significant first.
pub open spec fn digits_val(s: Seq<u8>) -> int
    decreases s.len(),
{
    if s.len() == 0 {
        0
    } else {
        digits_val(s.drop_last()) * 10 + (s.last() - DIGIT_ZERO)
    }
}

/// Extending a digit run by one digit multiplies its value by ten and adds
/// the new digit.
pub proof fn lemma_digits_val_step(s: Seq<u8>, j: int)
    requires
        0 <= j < s.len(),
    ensures
        digits_val(s.take(j + 1)) == digits_val(s.take(j)) * 10 + (s[j] - DIGIT_ZERO),
{
    assert(s.take(j + 1).drop_last() =~= s.take(j));
    assert(s.take(j + 1).last() == s[j]);
}

/// The value of a digit run is non-negative, and no prefix of it exceeds it.
pub proof fn lemma_digits_val_prefix(s: Seq<u8>, j: int)
    requires
        all_digits(s),
        0 <= j <= s.len(),
    ensures
        0 <= digits_val(s.take(j)) <= digits_val(s),
    decreases s.len() - j,
{
    if j == s.len() {
        assert(s.take(j) =~= s);
        lemma_digits_val_nonneg(s);
    } else {
        lemma_digits_val_prefix(s, j + 1);
        lemma_digits_val_step(s, j);
        assert(all_digits(s.take(j))) by {
            assert forall|k: int| 0 <= k < j implies is_digit(#[trigger] s.take(j)[k]) by {
                assert(s.take(j)[k] == s[k]);
            }
        }
        lemma_digits_val_nonneg(s.take(j));
    }
}

/// The value of a digit run is non-negative.
pub proof fn lemma_digits_val_nonneg(s: Seq<u8>)
    requires
        all_digits(s),
    ensures
        digits_val(s) >= 0,
    decreases s.len(),
{
    if s.len() > 0 {
        assert(all_digits(s.drop_last())) by {
            assert forall|k: int| 0 <= k < s.len() - 1 implies is_digit(
                #[trigger] s.drop_last()[k],
            ) by {
                assert(s.drop_last()[k] == s[k]);
            }
        }
        lemma_digits_val_nonneg(s.drop_last());
        assert(is_digit(s.last()));
    }
}

/// Is `s` a well-formed signed decimal body: an optional leading minus sign,
/// then one or more digits?
pub open spec fn is_int_body(s: Seq<u8>) -> bool {
    if s.len() == 0 {
        false
    } else if s[0] == MINUS {
        s.len() >= 2 && all_digits(s.skip(1))
    } else {
        all_digits(s)
    }
}

/// The signed value of a well-formed signed decimal body.
pub open spec fn int_body_val(s: Seq<u8>) -> int {
    if s.len() > 0 && s[0] == MINUS {
        -digits_val(s.skip(1))
    } else {
        digits_val(s)
    }
}

/// One line-shaped component: the tag byte `tag`, then every byte up to, but
/// not including, the first terminator. Returns the payload between tag and
/// terminator, and the bytes consumed through the terminator.
pub open spec fn parse_line(s: Seq<u8>, tag: u8) -> Result<(Seq<u8>, int), RespError> {
    if s.len() == 0 {
        Err(RespError::EmptyInput)
    } else if s[0] != tag {
        Err(RespError::UnrecognizedTag)
    } else {
        match find_crlf(s.skip(1)) {
            None => Err(RespError::MissingTerminator),
            Some(i) => Ok((s.skip(1).take(i), 1 + i + 2)),
        }
    }
}

/// An integer frame: the integer tag, a signed decimal body within the signed
/// 64-bit range, the terminator.
pub open spec fn parse_integer(s: Seq<u8>) -> Result<(int, int), RespError> {
    match parse_line(s, INTEGER_TAG) {
        Err(e) => Err(e),
        Ok((body, n)) => if is_int_body(body) && i64::MIN <= int_body_val(body) <= i64::MAX {
            Ok((int_body_val(body), n))
        } else {
            Err(RespError::InvalidIntegerLiteral)
        },
    }
}

/// The length header shared by bulk strings and arrays: the tag, a signed
/// decimal length that is either -1 or non-negative (and within the signed
/// 64-bit range that a machine length can carry), the terminator.
pub open spec fn parse_len_header(s: Seq<u8>, tag: u8) -> Result<(int, int), RespError> {
    match parse_line(s, tag) {
        Err(e) => Err(e),
        Ok((body, n)) => if is_int_body(body) && (int_body_val(body) == -1 || 0 <= int_body_val(
            body,
        ) <= i64::MAX) {
            Ok((int_body_val(body), n))
        } else {
            Err(RespError::InvalidLength)
        },
    }
}

/// A simple string frame: the payload is every byte between the tag and the
/// first terminator.
pub open spec fn parse_simple_string(s: Seq<u8>) -> Result<(SpecValue, int), RespError> {
    match parse_line(s, SIMPLE_STRING_TAG) {
        Err(e) => Err(e),
        Ok((p, n)) => Ok((SpecValue::SimpleString(p), n)),
    }
}

/// An error frame: the same grammar as a simple string under the error tag.
pub open spec fn parse_error(s: Seq<u8>) -> Result<(SpecValue, int), RespError> {
    match parse_line(s, ERROR_TAG) {
        Err(e) => Err(e),
        Ok((p, n)) => Ok((SpecValue::Error(p), n)),
    }
}

/// An integer frame as a decoded value.
pub open spec fn parse_integer_frame(s: Seq<u8>) -> Result<(SpecValue, int), RespError> {
    match parse_integer(s) {
        Err(e) => Err(e),
        Ok((v, n)) => Ok((SpecValue::Integer(v), n)),
    }
}

/// A bulk string frame: a length header; then, unless the length is -1,
/// exactly that many raw payload bytes (never inspected) and a terminator.
pub open spec fn parse_bulk_string(s: Seq<u8>) -> Result<(SpecValue, int), RespError> {
    match parse_len_header(s, BULK_STRING_TAG) {
        Err(e) => Err(e),
        Ok((len, h)) => if len == -1 {
            Ok((SpecValue::BulkString(None), h))
        } else {
            let rest = s.skip(h);
            if rest.len() < len {
                Err(RespError::TruncatedPayload)
            } else if rest.len() < len + 2 || rest[len] != CR || rest[len + 1] != LF {
                Err(RespError::MissingTerminator)
            } else {
                Ok((SpecValue::BulkString(Some(rest.take(len))), h + len + 2))
            }
        },
    }
}

/// One frame of any kind, dispatched on the leading tag byte. The five tags
/// are disjoint, so dispatch is deterministic.
pub open spec fn parse_value(s: Seq<u8>) -> Result<(SpecValue, int), RespError>
    decreases s.len(), 2int,
{
    if s.len() == 0 {
        Err(RespError::EmptyInput)
    } else if s[0] == SIMPLE_STRING_TAG {
        parse_simple_string(s)
    } else if s[0] == ERROR_TAG {
        parse_error(s)
    } else if s[0] == INTEGER_TAG {
        parse_integer_frame(s)
    } else if s[0] == BULK_STRING_TAG {
        parse_bulk_string(s)
    } else if s[0] == ARRAY_TAG {
        parse_array(s)
    } else {
        Err(RespError::UnrecognizedTag)
    }
}

/// An array frame: a length header; then, unless the length is -1, exactly
/// that many frames of any kind. The array itself has no trailing terminator.
pub open spec fn parse_array(s: Seq<u8>) -> Result<(SpecValue, int), RespError>
    decreases s.len(), 1int,
{
    match parse_len_header(s, ARRAY_TAG) {
        Err(e) => Err(e),
        Ok((len, h)) => if len == -1 {
            Ok((SpecValue::Array(None), h))
        } else if 1 <= h <= s.len() {
            match parse_elements(s.skip(h), len as nat) {
                Err(e) => Err(e),
                Ok((elems, m)) => Ok((SpecValue::Array(Some(elems)), h + m)),
            }
        } else {
            // A header never consumes less than one byte or more than the
            // input; the branch exists only for the termination measure.
            Err(RespError::InvalidLength)
        },
    }
}

/// `count` consecutive frames of any kind. Returns the decoded elements and
/// the total bytes consumed; the first failing element's error propagates
/// unmodified.
pub open spec fn parse_elements(s: Seq<u8>, count: nat) -> Result<(Seq<SpecValue>, int), RespError>
    decreases s.len(), 3int + count,
{
    if count == 0 {
        Ok((Seq::empty(), 0))
    } else {
        match parse_value(s) {
            Err(e) => Err(e),
            Ok((v, n)) => if 1 <= n <= s.len() {
                match parse_elements(s.skip(n), (count - 1) as nat) {
                    Err(e) => Err(e),
                    Ok((tail, m)) => Ok((seq![v] + tail, n + m)),
                }
            } else {
                // A frame never consumes less than one byte or more than the
                // input; the branch exists only for the termination measure.
                Err(RespError::EmptyInput)
            },
        }
    }
}

} // verus!
