use resp::decode;
use resp::RespError;
use resp::RespValue;
use resp::array;
use resp::bulk_string;
use resp::integer;
use resp::simple_string;

// One exact frame of each of the five kinds decodes through the dispatcher
// with an empty remainder.

#[test]
fn dispatch_simple_string_exact() {
    let i = b"+OK\r\n";
    assert_eq!(
        decode(i),
        Ok((RespValue::SimpleString(b"OK".to_vec()), i.len()))
    );
}

#[test]
fn dispatch_error_exact() {
    let i = b"-ERR unknown command\r\n";
    assert_eq!(
        decode(i),
        Ok((RespValue::Error(b"ERR unknown command".to_vec()), i.len()))
    );
}

#[test]
fn dispatch_integer_exact() {
    assert_eq!(decode(b":1000\r\n"), Ok((RespValue::Integer(1000), 7)));
    assert_eq!(decode(b":-1000\r\n"), Ok((RespValue::Integer(-1000), 8)));
}

#[test]
fn dispatch_bulk_string_exact() {
    let i = b"$6\r\nfoobar\r\n";
    assert_eq!(
        decode(i),
        Ok((RespValue::BulkString(Some(b"foobar".to_vec())), i.len()))
    );
}

#[test]
fn dispatch_array_exact() {
    let i = b"*2\r\n$3\r\nfoo\r\n$3\r\nbar\r\n";
    assert_eq!(
        decode(i),
        Ok((
            RespValue::Array(Some(vec![
                RespValue::BulkString(Some(b"foo".to_vec())),
                RespValue::BulkString(Some(b"bar".to_vec())),
            ])),
            i.len()
        ))
    );
}

// A valid frame followed by arbitrary trailing bytes consumes exactly the
// frame; the trailing bytes are untouched.

#[test]
fn trailing_bytes_untouched() {
    let i = b"+OK\r\n*9\r\n\x00garbage";
    assert_eq!(decode(i), Ok((RespValue::SimpleString(b"OK".to_vec()), 5)));
    assert_eq!(&i[5..], b"*9\r\n\x00garbage");

    let i = b"$3\r\nfoo\r\n:42\r\n";
    assert_eq!(
        decode(i),
        Ok((RespValue::BulkString(Some(b"foo".to_vec())), 9))
    );
    assert_eq!(decode(&i[9..]), Ok((RespValue::Integer(42), 5)));
}

// Null and present-but-empty are distinct values.

#[test]
fn null_versus_empty_bulk_string() {
    assert_eq!(decode(b"$-1\r\n"), Ok((RespValue::BulkString(None), 5)));
    assert_eq!(
        decode(b"$0\r\n\r\n"),
        Ok((RespValue::BulkString(Some(Vec::new())), 6))
    );
    assert_ne!(
        RespValue::BulkString(None),
        RespValue::BulkString(Some(Vec::new()))
    );
}

#[test]
fn null_versus_empty_array() {
    assert_eq!(decode(b"*-1\r\n"), Ok((RespValue::Array(None), 5)));
    assert_eq!(decode(b"*0\r\n"), Ok((RespValue::Array(Some(vec![])), 4)));
    assert_ne!(
        RespValue::Array(None),
        RespValue::Array(Some(Vec::new()))
    );
}

// The full signed 64-bit range decodes, extremes included.

#[test]
fn integer_full_range() {
    assert_eq!(
        decode(b":9223372036854775807\r\n"),
        Ok((RespValue::Integer(i64::MAX), 22))
    );
    assert_eq!(
        decode(b":-9223372036854775808\r\n"),
        Ok((RespValue::Integer(i64::MIN), 23))
    );
    assert_eq!(decode(b":0\r\n"), Ok((RespValue::Integer(0), 4)));
    assert_eq!(decode(b":007\r\n"), Ok((RespValue::Integer(7), 6)));
}

#[test]
fn integer_just_out_of_range() {
    assert_eq!(
        integer(b":9223372036854775808\r\n"),
        Err(RespError::InvalidIntegerLiteral)
    );
    assert_eq!(
        integer(b":-9223372036854775809\r\n"),
        Err(RespError::InvalidIntegerLiteral)
    );
}

// Arrays nest to arbitrary depth and mix element kinds.

#[test]
fn nested_heterogeneous_arrays() {
    let i = b"*2\r\n*1\r\n*1\r\n:7\r\n+ok\r\n";
    assert_eq!(
        decode(i),
        Ok((
            RespValue::Array(Some(vec![
                RespValue::Array(Some(vec![RespValue::Array(Some(vec![
                    RespValue::Integer(7)
                ]))])),
                RespValue::SimpleString(b"ok".to_vec()),
            ])),
            i.len()
        ))
    );
}

#[test]
fn array_null_element_inside_present_array() {
    let i = b"*3\r\n$3\r\nfoo\r\n$-1\r\n$3\r\nbar\r\n";
    assert_eq!(
        decode(i),
        Ok((
            RespValue::Array(Some(vec![
                RespValue::BulkString(Some(b"foo".to_vec())),
                RespValue::BulkString(None),
                RespValue::BulkString(Some(b"bar".to_vec())),
            ])),
            i.len()
        ))
    );
}

// Bulk string payloads are binary safe: any byte may appear, terminator
// bytes included.

#[test]
fn bulk_string_binary_safe_payload() {
    let i = b"$7\r\na\r\nb\x00\xffc\r\n";
    assert_eq!(
        decode(i),
        Ok((RespValue::BulkString(Some(b"a\r\nb\x00\xffc".to_vec())), i.len()))
    );
}

// Each error variant, from an input that earns exactly it.

#[test]
fn error_empty_input() {
    assert_eq!(decode(b""), Err(RespError::EmptyInput));
    assert_eq!(simple_string(b""), Err(RespError::EmptyInput));
}

#[test]
fn error_unrecognized_tag() {
    assert_eq!(decode(b"?what\r\n"), Err(RespError::UnrecognizedTag));
    assert_eq!(simple_string(b"-nope\r\n"), Err(RespError::UnrecognizedTag));
    assert_eq!(array(b"+OK\r\n"), Err(RespError::UnrecognizedTag));
}

#[test]
fn error_missing_terminator() {
    assert_eq!(decode(b"+OK"), Err(RespError::MissingTerminator));
    assert_eq!(decode(b"+OK\rno"), Err(RespError::MissingTerminator));
    // The declared bytes are present but the closing terminator is not.
    assert_eq!(decode(b"$3\r\nfoo"), Err(RespError::MissingTerminator));
    assert_eq!(decode(b"$3\r\nfooXY"), Err(RespError::MissingTerminator));
}

#[test]
fn error_invalid_length() {
    assert_eq!(decode(b"$abc\r\n"), Err(RespError::InvalidLength));
    assert_eq!(decode(b"$-2\r\n"), Err(RespError::InvalidLength));
    assert_eq!(decode(b"$\r\n"), Err(RespError::InvalidLength));
    assert_eq!(decode(b"*1x\r\n"), Err(RespError::InvalidLength));
    assert_eq!(
        decode(b"$99999999999999999999\r\n"),
        Err(RespError::InvalidLength)
    );
}

#[test]
fn error_truncated_payload() {
    assert_eq!(decode(b"$10\r\nabc"), Err(RespError::TruncatedPayload));
    assert_eq!(bulk_string(b"$4\r\nab"), Err(RespError::TruncatedPayload));
}

#[test]
fn error_invalid_integer_literal() {
    assert_eq!(decode(b":\r\n"), Err(RespError::InvalidIntegerLiteral));
    assert_eq!(decode(b":-\r\n"), Err(RespError::InvalidIntegerLiteral));
    assert_eq!(decode(b":12a\r\n"), Err(RespError::InvalidIntegerLiteral));
    assert_eq!(decode(b":+5\r\n"), Err(RespError::InvalidIntegerLiteral));
}

// A failing element inside an array propagates its own error, unwrapped.

#[test]
fn array_element_failure_propagates() {
    assert_eq!(
        decode(b"*2\r\n:1\r\n:bad\r\n"),
        Err(RespError::InvalidIntegerLiteral)
    );
    assert_eq!(decode(b"*3\r\n:1\r\n"), Err(RespError::EmptyInput));
    assert_eq!(
        decode(b"*2\r\n$5\r\nab\r\n"),
        Err(RespError::TruncatedPayload)
    );
}
