//! The laws the decoder obeys, stated over the spec-level grammar and proved
//! once for all inputs: a well-formed value's wire encoding decodes back to
//! that value, consuming exactly the frame and leaving any trailing bytes
//! untouched; and the null and present-but-empty forms of bulk strings and
//! arrays decode to distinct values.

use vstd::prelude::*;

use crate::grammar;
use crate::grammar::ARRAY_TAG;
use crate::grammar::BULK_STRING_TAG;
use crate::grammar::CR;
use crate::grammar::DIGIT_ZERO;
use crate::grammar::ERROR_TAG;
use crate::grammar::INTEGER_TAG;
use crate::grammar::LF;
use crate::grammar::MINUS;
use crate::grammar::SIMPLE_STRING_TAG;
use crate::value::RespError;
use crate::value::SpecValue;

verus! {

/// No byte of `s` is a terminator byte.
pub open spec fn no_line_break(s: Seq<u8>) -> bool {
    forall|i: int| 0 <= i < s.len() ==> s[i] != CR && s[i] != LF
}

/// A value the wire format can carry: simple string and error payloads hold
/// no terminator byte, integers fit the signed 64-bit range, and every
/// declared length fits the signed 64-bit range.
pub open spec fn wf_value(v: SpecValue) -> bool
    decreases v,
{
    match v {
        SpecValue::SimpleString(p) => no_line_break(p),
        SpecValue::Error(p) => no_line_break(p),
        SpecValue::Integer(n) => i64::MIN <= n <= i64::MAX,
        SpecValue::BulkString(None) => true,
        SpecValue::BulkString(Some(p)) => p.len() <= i64::MAX,
        SpecValue::Array(None) => true,
        SpecValue::Array(Some(es)) => es.len() <= i64::MAX && forall|i: int|
            0 <= i < es.len() ==> wf_value(#[trigger] es[i]),
    }
}

/// The two-byte terminator.
pub open spec fn crlf() -> Seq<u8> {
    seq![CR, LF]
}

/// The canonical decimal digits of a non-negative `n`, most significant
/// first.
pub open spec fn dec_digits(n: int) -> Seq<u8>
    recommends
        n >= 0,
    decreases n,
{
    if n <= 9 {
        seq![(DIGIT_ZERO + n) as u8]
    } else {
        dec_digits(n / 10).push((DIGIT_ZERO + n % 10) as u8)
    }
}

/// The canonical signed decimal of `n`: a minus sign for negative values,
/// then the digits of the magnitude.
pub open spec fn dec_int(n: int) -> Seq<u8> {
    if n < 0 {
        seq![MINUS] + dec_digits(-n)
    } else {
        dec_digits(n)
    }
}

/// The wire encoding of a value: the frame its decoding comes from.
pub open spec fn encode_value(v: SpecValue) -> Seq<u8>
    decreases v,
{
    match v {
        SpecValue::SimpleString(p) => seq![SIMPLE_STRING_TAG] + p + crlf(),
        SpecValue::Error(p) => seq![ERROR_TAG] + p + crlf(),
        SpecValue::Integer(n) => seq![INTEGER_TAG] + dec_int(n) + crlf(),
        SpecValue::BulkString(None) => seq![BULK_STRING_TAG] + dec_int(-1) + crlf(),
        SpecValue::BulkString(Some(p)) => seq![BULK_STRING_TAG] + dec_int(p.len() as int) + crlf()
            + p + crlf(),
        SpecValue::Array(None) => seq![ARRAY_TAG] + dec_int(-1) + crlf(),
        SpecValue::Array(Some(es)) => seq![ARRAY_TAG] + dec_int(es.len() as int) + crlf()
            + encode_elements(es),
    }
}

/// The wire encodings of a run of values, frame after frame.
pub open spec fn encode_elements(es: Seq<SpecValue>) -> Seq<u8>
    decreases es,
{
    if es.len() == 0 {
        Seq::empty()
    } else {
        encode_value(es[0]) + encode_elements(es.skip(1))
    }
}

/// The canonical digits of `n` carry the value `n` and are all digits.
proof fn lemma_dec_digits(n: int)
    requires
        n >= 0,
    ensures
        grammar::all_digits(dec_digits(n)),
        grammar::digits_val(dec_digits(n)) == n,
        dec_digits(n).len() >= 1,
    decreases n,
{
    if n <= 9 {
        let s = dec_digits(n);
        assert(s.len() == 1);
        assert(s.drop_last() =~= Seq::<u8>::empty());
        assert(grammar::digits_val(Seq::<u8>::empty()) == 0);
        assert(s.last() == (DIGIT_ZERO + n) as u8);
        assert(grammar::digits_val(s) == n);
    } else {
        lemma_dec_digits(n / 10);
        let d = dec_digits(n / 10);
        let s = dec_digits(n);
        assert(s.drop_last() =~= d);
        assert(s.last() == (DIGIT_ZERO + n % 10) as u8);
        assert(grammar::digits_val(s) == (n / 10) * 10 + n % 10);
        assert(grammar::all_digits(s)) by {
            assert forall|i: int| 0 <= i < s.len() implies grammar::is_digit(#[trigger] s[i]) by {
                if i < d.len() {
                    assert(s[i] == d[i]);
                }
            }
        }
    }
}

/// The canonical signed decimal of `n` is a well-formed signed body carrying
/// the value `n`, and holds no terminator byte.
proof fn lemma_dec_int(n: int)
    ensures
        grammar::is_int_body(dec_int(n)),
        grammar::int_body_val(dec_int(n)) == n,
        no_line_break(dec_int(n)),
        dec_int(n).len() >= 1,
{
    let s = dec_int(n);
    if n < 0 {
        lemma_dec_digits(-n);
        let d = dec_digits(-n);
        assert(s[0] == MINUS);
        assert(s.skip(1) =~= d);
        assert(grammar::int_body_val(s) == -grammar::digits_val(d));
        assert(no_line_break(s)) by {
            assert forall|i: int| 0 <= i < s.len() implies s[i] != CR && s[i] != LF by {
                if i >= 1 {
                    assert(grammar::is_digit(d[i - 1]));
                }
            }
        }
    } else {
        lemma_dec_digits(n);
        assert(grammar::is_digit(s[0]));
        assert(s[0] != MINUS);
        assert(no_line_break(s)) by {
            assert forall|i: int| 0 <= i < s.len() implies s[i] != CR && s[i] != LF by {
                assert(grammar::is_digit(s[i]));
            }
        }
    }
}

/// Parsing a composed line — the tag, a payload free of terminator bytes,
/// the terminator, then anything — yields exactly that payload and consumes
/// through the terminator.
proof fn lemma_parse_line_compose(tag: u8, p: Seq<u8>, rest: Seq<u8>)
    requires
        no_line_break(p),
    ensures
        grammar::parse_line(seq![tag] + p + crlf() + rest, tag) == Ok::<_, RespError>(
            (p, p.len() + 3int),
        ),
{
    let s = seq![tag] + p + crlf() + rest;
    assert(s[0] == tag);
    let t = s.skip(1);
    assert(t =~= p + crlf() + rest);
    grammar::lemma_find_crlf(t);
    let pl = p.len() as int;
    assert(grammar::crlf_at(t, pl)) by {
        assert(t[pl] == CR);
        assert(t[pl + 1] == LF);
    }
    match grammar::find_crlf(t) {
        None => {
            assert(false);
        },
        Some(i) => {
            if i < pl {
                assert(t[i] == p[i]);
                assert(!grammar::crlf_at(t, i));
                assert(false);
            }
            if i > pl {
                assert(!grammar::crlf_at(t, pl));
                assert(false);
            }
            assert(t.take(i) =~= p);
        },
    }
}

/// Every frame occupies at least one byte.
proof fn lemma_encode_value_len(v: SpecValue)
    ensures
        encode_value(v).len() >= 1,
{
    match v {
        SpecValue::SimpleString(p) => {},
        SpecValue::Error(p) => {},
        SpecValue::Integer(n) => {},
        SpecValue::BulkString(o) => {},
        SpecValue::Array(o) => {},
    }
}

/// Decoding a well-formed value's wire encoding followed by arbitrary
/// trailing bytes succeeds, returns exactly that value, and consumes exactly
/// the frame — the trailing bytes are untouched. With empty trailing bytes
/// this says a buffer holding exactly one frame decodes to the value with an
/// empty remainder; taken over all well-formed values it covers arbitrary
/// nesting and heterogeneous, null-including arrays.
pub proof fn lemma_decode_frame(v: SpecValue, rest: Seq<u8>)
    requires
        wf_value(v),
    ensures
        grammar::parse_value(encode_value(v) + rest) == Ok::<_, RespError>(
            (v, encode_value(v).len() as int),
        ),
    decreases v,
{
    let enc = encode_value(v);
    let s = enc + rest;
    match v {
        SpecValue::SimpleString(p) => {
            assert(s =~= seq![SIMPLE_STRING_TAG] + p + crlf() + rest);
            lemma_parse_line_compose(SIMPLE_STRING_TAG, p, rest);
            assert(s[0] == SIMPLE_STRING_TAG);
        },
        SpecValue::Error(p) => {
            assert(s =~= seq![ERROR_TAG] + p + crlf() + rest);
            lemma_parse_line_compose(ERROR_TAG, p, rest);
            assert(s[0] == ERROR_TAG);
        },
        SpecValue::Integer(n) => {
            lemma_dec_int(n);
            assert(s =~= seq![INTEGER_TAG] + dec_int(n) + crlf() + rest);
            lemma_parse_line_compose(INTEGER_TAG, dec_int(n), rest);
            assert(s[0] == INTEGER_TAG);
        },
        SpecValue::BulkString(None) => {
            lemma_dec_int(-1);
            assert(s =~= seq![BULK_STRING_TAG] + dec_int(-1) + crlf() + rest);
            lemma_parse_line_compose(BULK_STRING_TAG, dec_int(-1), rest);
            assert(s[0] == BULK_STRING_TAG);
        },
        SpecValue::BulkString(Some(p)) => {
            let l = p.len() as int;
            lemma_dec_int(l);
            let after = p + crlf() + rest;
            assert(s =~= seq![BULK_STRING_TAG] + dec_int(l) + crlf() + after);
            lemma_parse_line_compose(BULK_STRING_TAG, dec_int(l), after);
            assert(s[0] == BULK_STRING_TAG);
            let h = dec_int(l).len() + 3;
            assert(s.skip(h as int) =~= after);
            assert(after[l] == CR);
            assert(after[l + 1] == LF);
            assert(after.take(l) =~= p);
        },
        SpecValue::Array(None) => {
            lemma_dec_int(-1);
            assert(s =~= seq![ARRAY_TAG] + dec_int(-1) + crlf() + rest);
            lemma_parse_line_compose(ARRAY_TAG, dec_int(-1), rest);
            assert(s[0] == ARRAY_TAG);
        },
        SpecValue::Array(Some(es)) => {
            let l = es.len() as int;
            lemma_dec_int(l);
            let after = encode_elements(es) + rest;
            assert(s =~= seq![ARRAY_TAG] + dec_int(l) + crlf() + after);
            lemma_parse_line_compose(ARRAY_TAG, dec_int(l), after);
            assert(s[0] == ARRAY_TAG);
            let h = dec_int(l).len() + 3;
            assert(s.skip(h as int) =~= after);
            lemma_decode_elements(es, rest);
        },
    }
}

/// Decoding the concatenated encodings of a run of well-formed values,
/// followed by arbitrary trailing bytes, yields exactly those values and
/// consumes exactly the encodings.
pub proof fn lemma_decode_elements(es: Seq<SpecValue>, rest: Seq<u8>)
    requires
        forall|i: int| 0 <= i < es.len() ==> wf_value(#[trigger] es[i]),
    ensures
        grammar::parse_elements(encode_elements(es) + rest, es.len()) == Ok::<_, RespError>(
            (es, encode_elements(es).len() as int),
        ),
    decreases es,
{
    let s = encode_elements(es) + rest;
    if es.len() == 0 {
        assert(es =~= Seq::<SpecValue>::empty());
    } else {
        let e0 = es[0];
        let tail = es.skip(1);
        let enc0 = encode_value(e0);
        lemma_encode_value_len(e0);
        assert(s =~= enc0 + (encode_elements(tail) + rest));
        lemma_decode_frame(e0, encode_elements(tail) + rest);
        assert(s.skip(enc0.len() as int) =~= encode_elements(tail) + rest);
        assert(forall|i: int| 0 <= i < tail.len() ==> wf_value(#[trigger] tail[i])) by {
            assert forall|i: int| 0 <= i < tail.len() implies wf_value(#[trigger] tail[i]) by {
                assert(tail[i] == es[i + 1]);
            }
        }
        lemma_decode_elements(tail, rest);
        assert(seq![e0] + tail =~= es);
    }
}

/// The first terminator occurrence does not move when everything from `k`
/// on — a cut at or after the occurrence — is replaced by other bytes.
proof fn lemma_find_crlf_prefix(s: Seq<u8>, k: int, t: Seq<u8>)
    requires
        match grammar::find_crlf(s) {
            Some(i) => i + 2 <= k,
            None => false,
        },
        k <= s.len(),
    ensures
        grammar::find_crlf(s.take(k) + t) == grammar::find_crlf(s),
{
    grammar::lemma_find_crlf(s);
    let i = grammar::find_crlf(s)->Some_0;
    let s2 = s.take(k) + t;
    grammar::lemma_find_crlf(s2);
    assert(grammar::crlf_at(s2, i)) by {
        assert(s2[i] == s[i]);
        assert(s2[i + 1] == s[i + 1]);
    }
    match grammar::find_crlf(s2) {
        None => {
            assert(false);
        },
        Some(i2) => {
            if i2 < i {
                assert(s2[i2] == s[i2]);
                assert(s2[i2 + 1] == s[i2 + 1]);
                assert(grammar::crlf_at(s, i2));
                assert(false);
            }
            if i2 > i {
                assert(!grammar::crlf_at(s2, i));
                assert(false);
            }
        },
    }
}

/// A successfully parsed line does not change when everything from `k` on —
/// a cut at or after its terminator — is replaced by other bytes.
proof fn lemma_parse_line_prefix(s: Seq<u8>, tag: u8, k: int, t: Seq<u8>)
    requires
        match grammar::parse_line(s, tag) {
            Ok((p, n)) => n <= k,
            Err(_) => false,
        },
        k <= s.len(),
    ensures
        grammar::parse_line(s.take(k) + t, tag) == grammar::parse_line(s, tag),
{
    grammar::lemma_parse_line_ok(s, tag);
    let n = grammar::parse_line(s, tag)->Ok_0.1;
    let s2 = s.take(k) + t;
    assert(s2[0] == s[0]);
    assert(s2.skip(1) =~= s.skip(1).take(k - 1) + t);
    lemma_find_crlf_prefix(s.skip(1), k - 1, t);
    assert(s2.skip(1).take(n - 3) =~= s.skip(1).take(n - 3));
}

/// Prefix determinism: when a buffer decodes to a value consuming `n` bytes,
/// any buffer with the same first `n` bytes — whatever follows them —
/// decodes to the same value, consuming the same `n` bytes.
pub proof fn lemma_decode_prefix_deterministic(s: Seq<u8>, t: Seq<u8>)
    ensures
        match grammar::parse_value(s) {
            Ok((v, n)) => 1 <= n <= s.len() && grammar::parse_value(s.take(n) + t) == Ok::<
                _,
                RespError,
            >((v, n)),
            Err(_) => true,
        },
    decreases s.len(), 1int,
{
    if let Ok((v, n)) = grammar::parse_value(s) {
        let s2 = s.take(n) + t;
        grammar::lemma_parse_line_ok(s, s[0]);
        if s[0] == SIMPLE_STRING_TAG || s[0] == ERROR_TAG {
            assert(s2[0] == s[0]);
            lemma_parse_line_prefix(s, s[0], n, t);
        } else if s[0] == INTEGER_TAG {
            assert(s2[0] == s[0]);
            lemma_parse_line_prefix(s, INTEGER_TAG, n, t);
        } else if s[0] == BULK_STRING_TAG {
            let (len, h) = grammar::parse_len_header(s, BULK_STRING_TAG)->Ok_0;
            if len == -1 {
                assert(s2[0] == s[0]);
                lemma_parse_line_prefix(s, BULK_STRING_TAG, n, t);
            } else {
                let rest = s.skip(h);
                assert(n == h + len + 2);
                assert(n <= s.len()) by {
                    assert(rest.len() >= len + 2);
                }
                assert(s2[0] == s[0]);
                lemma_parse_line_prefix(s, BULK_STRING_TAG, n, t);
                let rest2 = s2.skip(h);
                assert(rest2 =~= rest.take(len + 2) + t);
                assert(rest2[len] == rest[len]);
                assert(rest2[len + 1] == rest[len + 1]);
                assert(rest2.take(len) =~= rest.take(len));
            }
        } else if s[0] == ARRAY_TAG {
            let (len, h) = grammar::parse_len_header(s, ARRAY_TAG)->Ok_0;
            if len == -1 {
                assert(s2[0] == s[0]);
                lemma_parse_line_prefix(s, ARRAY_TAG, n, t);
            } else {
                let (es, m) = grammar::parse_elements(s.skip(h), len as nat)->Ok_0;
                assert(n == h + m);
                lemma_elements_prefix_deterministic(s.skip(h), len as nat, t);
                assert(n <= s.len());
                assert(s2[0] == s[0]);
                lemma_parse_line_prefix(s, ARRAY_TAG, n, t);
                assert(s2.skip(h) =~= s.skip(h).take(m) + t);
            }
        }
    }
}

/// Prefix determinism for a run of frames: when `count` consecutive frames
/// decode consuming `m` bytes, any buffer with the same first `m` bytes
/// decodes to the same run, consuming the same `m` bytes.
pub proof fn lemma_elements_prefix_deterministic(s: Seq<u8>, count: nat, t: Seq<u8>)
    ensures
        match grammar::parse_elements(s, count) {
            Ok((es, m)) => 0 <= m <= s.len() && es.len() == count && grammar::parse_elements(
                s.take(m) + t,
                count,
            ) == Ok::<_, RespError>((es, m)),
            Err(_) => true,
        },
    decreases s.len(), 2int + count,
{
    if count == 0 {
        assert(grammar::parse_elements(s, count) == Ok::<_, RespError>(
            (Seq::<SpecValue>::empty(), 0int),
        ));
        assert(s.take(0) + t =~= t);
    } else {
        if let Ok((v, n)) = grammar::parse_value(s) {
            if 1 <= n <= s.len() {
                if let Ok((tail, m1)) = grammar::parse_elements(s.skip(n), (count - 1) as nat) {
                    let m = n + m1;
                    lemma_elements_prefix_deterministic(s.skip(n), (count - 1) as nat, t);
                    lemma_decode_prefix_deterministic(s, s.skip(n).take(m1) + t);
                    let s2 = s.take(m) + t;
                    assert(s2 =~= s.take(n) + (s.skip(n).take(m1) + t));
                    assert(s2.skip(n) =~= s.skip(n).take(m1) + t);
                    assert(grammar::parse_value(s2) == Ok::<_, RespError>((v, n as int)));
                }
            }
        }
    }
}

/// A buffer holding exactly one well-formed frame decodes to that frame's
/// value and consumes the whole buffer: the remainder is empty.
pub proof fn lemma_decode_exact_frame(v: SpecValue)
    requires
        wf_value(v),
    ensures
        grammar::parse_value(encode_value(v)) == Ok::<_, RespError>(
            (v, encode_value(v).len() as int),
        ),
{
    lemma_decode_frame(v, Seq::empty());
    assert(encode_value(v) + Seq::<u8>::empty() =~= encode_value(v));
}

/// Integer decoding round-trips every signed 64-bit value, the minimum and
/// maximum included, with or without trailing bytes.
pub proof fn lemma_integer_round_trip(n: i64, rest: Seq<u8>)
    ensures
        grammar::parse_value(encode_value(SpecValue::Integer(n as int)) + rest) == Ok::<
            _,
            RespError,
        >((SpecValue::Integer(n as int), encode_value(SpecValue::Integer(n as int)).len() as int)),
{
    lemma_decode_frame(SpecValue::Integer(n as int), rest);
}

/// Null and present-but-empty are distinguishable: a bulk string of declared
/// length -1 decodes to the null bulk string, one of declared length 0 to a
/// present, empty one, and the two values differ; likewise for arrays.
pub proof fn lemma_null_distinct_from_empty(rest: Seq<u8>)
    ensures
        grammar::parse_value(encode_value(SpecValue::BulkString(None)) + rest) == Ok::<
            _,
            RespError,
        >((SpecValue::BulkString(None), 5int)),
        grammar::parse_value(encode_value(SpecValue::BulkString(Some(Seq::empty()))) + rest)
            == Ok::<_, RespError>((SpecValue::BulkString(Some(Seq::empty())), 6int)),
        SpecValue::BulkString(None) != SpecValue::BulkString(Some(Seq::<u8>::empty())),
        grammar::parse_value(encode_value(SpecValue::Array(None)) + rest) == Ok::<_, RespError>(
            (SpecValue::Array(None), 5int),
        ),
        grammar::parse_value(encode_value(SpecValue::Array(Some(Seq::empty()))) + rest) == Ok::<
            _,
            RespError,
        >((SpecValue::Array(Some(Seq::empty())), 4int)),
        SpecValue::Array(None) != SpecValue::Array(Some(Seq::<SpecValue>::empty())),
{
    lemma_decode_frame(SpecValue::BulkString(None), rest);
    assert(encode_value(SpecValue::BulkString(None)).len() == 5) by {
        assert(dec_digits(1int).len() == 1);
    }
    lemma_decode_frame(SpecValue::BulkString(Some(Seq::empty())), rest);
    assert(encode_value(SpecValue::BulkString(Some(Seq::<u8>::empty()))).len() == 6) by {
        assert(dec_digits(0int).len() == 1);
    }
    lemma_decode_frame(SpecValue::Array(None), rest);
    assert(encode_value(SpecValue::Array(None)).len() == 5) by {
        assert(dec_digits(1int).len() == 1);
    }
    lemma_decode_frame(SpecValue::Array(Some(Seq::empty())), rest);
    assert(encode_value(SpecValue::Array(Some(Seq::<SpecValue>::empty()))).len() == 4) by {
        assert(dec_digits(0int).len() == 1);
        assert(encode_elements(Seq::<SpecValue>::empty()).len() == 0);
    }
}

} // verus!
