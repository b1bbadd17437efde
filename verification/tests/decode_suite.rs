use resp::RespError;
use resp::RespValue;
use resp::array;
use resp::bulk_string;
use resp::error;
use resp::integer;
use resp::simple_string;

/// Decodes frames of one kind repeatedly until the buffer is exhausted,
/// checking that each frame's remainder starts where the next frame begins.
fn decode_all(f: fn(&[u8]) -> Result<(RespValue, usize), RespError>, input: &[u8]) -> Vec<RespValue> {
    let mut out = Vec::new();
    let mut at = 0;
    while at < input.len() {
        let (v, n) = f(&input[at..]).expect("frame should decode");
        out.push(v);
        at += n;
    }
    assert_eq!(at, input.len());
    out
}

#[test]
fn test_simple_strings() {
    let i = b"+OK\r\n";
    assert_eq!(
        simple_string(i),
        Ok((RespValue::SimpleString(b"OK".to_vec()), i.len()))
    );
}

#[test]
fn test_errors() {
    let i = b"-Error message\r\n";
    assert_eq!(
        error(i),
        Ok((RespValue::Error(b"Error message".to_vec()), i.len()))
    );
    let i = b"-ERR unknown command 'foobar'\r\n-WRONGTYPE Operation against a key holding the wrong kind of value\r\n";
    assert_eq!(
        decode_all(error, i),
        vec![
            RespValue::Error(b"ERR unknown command 'foobar'".to_vec()),
            RespValue::Error(
                b"WRONGTYPE Operation against a key holding the wrong kind of value".to_vec()
            ),
        ]
    );
}

#[test]
fn test_integer() {
    let i = b":0\r\n";
    assert_eq!(integer(i), Ok((RespValue::Integer(0), i.len())));
    let i = b":1000\r\n:-1000\r\n";
    assert_eq!(
        decode_all(integer, i),
        vec![RespValue::Integer(1000), RespValue::Integer(-1000)]
    );
}

#[test]
fn test_bulk_string() {
    let i = b"$6\r\nfoobar\r\n";
    assert_eq!(
        bulk_string(i),
        Ok((RespValue::BulkString(Some(b"foobar".to_vec())), i.len()))
    );
    let i = b"$0\r\n\r\n";
    assert_eq!(
        bulk_string(i),
        Ok((RespValue::BulkString(Some(Vec::new())), i.len()))
    );
    let i = b"$-1\r\n";
    assert_eq!(bulk_string(i), Ok((RespValue::BulkString(None), i.len())));
}

#[test]
fn test_array() {
    let i = b"*0\r\n";
    assert_eq!(array(i), Ok((RespValue::Array(Some(vec![])), i.len())));
    let i = b"*2\r\n$3\r\nfoo\r\n$3\r\nbar\r\n";
    assert_eq!(
        array(i),
        Ok((
            RespValue::Array(Some(vec![
                RespValue::BulkString(Some(b"foo".to_vec())),
                RespValue::BulkString(Some(b"bar".to_vec())),
            ])),
            i.len()
        ))
    );
    let i = b"*3\r\n:1\r\n:2\r\n:3\r\n";
    assert_eq!(
        array(i),
        Ok((
            RespValue::Array(Some(vec![
                RespValue::Integer(1),
                RespValue::Integer(2),
                RespValue::Integer(3),
            ])),
            i.len()
        ))
    );
    let i = b"*5\r\n:1\r\n:2\r\n:3\r\n:4\r\n$6\r\nfoobar\r\n";
    assert_eq!(
        array(i),
        Ok((
            RespValue::Array(Some(vec![
                RespValue::Integer(1),
                RespValue::Integer(2),
                RespValue::Integer(3),
                RespValue::Integer(4),
                RespValue::BulkString(Some(b"foobar".to_vec())),
            ])),
            i.len()
        ))
    );

    let i = b"*-1\r\n";
    assert_eq!(array(i), Ok((RespValue::Array(None), i.len())));

    let i = b"*2\r\n*3\r\n:1\r\n:2\r\n:3\r\n*2\r\n+Foo\r\n-Bar\r\n";
    assert_eq!(
        array(i),
        Ok((
            RespValue::Array(Some(vec![
                RespValue::Array(Some(vec![
                    RespValue::Integer(1),
                    RespValue::Integer(2),
                    RespValue::Integer(3),
                ])),
                RespValue::Array(Some(vec![
                    RespValue::SimpleString(b"Foo".to_vec()),
                    RespValue::Error(b"Bar".to_vec()),
                ])),
            ])),
            i.len()
        ))
    );

    // Null elements in arrays.
    let i = b"*3\r\n$3\r\nfoo\r\n$-1\r\n$3\r\nbar\r\n";
    assert_eq!(
        array(i),
        Ok((
            RespValue::Array(Some(vec![
                RespValue::BulkString(Some(b"foo".to_vec())),
                RespValue::BulkString(None),
                RespValue::BulkString(Some(b"bar".to_vec())),
            ])),
            i.len()
        ))
    );
}
