//! The decoded value model: the five frame kinds, the error taxonomy, and the
//! mathematical model each executable value abstracts to.

use vstd::prelude::*;

verus! {

/// One decoded frame. The variant is determined by the frame's leading tag
/// byte: `+` simple string, `-` error, `:` integer, `$` bulk string,
/// `*` array. Bulk strings and arrays distinguish a null value (wire length
/// -1, payload `None`) from a present-but-empty one (`Some` of an empty
/// payload).
#[derive(Debug, PartialEq, Eq)]
pub enum RespValue {
    SimpleString(Vec<u8>),
    Error(Vec<u8>),
    Integer(i64),
    BulkString(Option<Vec<u8>>),
    Array(Option<Vec<RespValue>>),
}

/// The mathematical model of a decoded frame: byte sequences in place of
/// vectors, unbounded integers in place of machine words.
pub enum SpecValue {
    SimpleString(Seq<u8>),
    Error(Seq<u8>),
    Integer(int),
    BulkString(Option<Seq<u8>>),
    Array(Option<Seq<SpecValue>>),
}

/// Why a decode failed.
#[derive(Clone, Copy, Debug, PartialEq, Eq, Structural)]
pub enum RespError {
    /// The leading byte matches none of the five recognized tags.
    UnrecognizedTag,
    /// No CR LF terminator found before the input ends.
    MissingTerminator,
    /// A declared length is not a valid integer, or is negative and not -1.
    InvalidLength,
    /// A declared payload length exceeds the bytes available.
    TruncatedPayload,
    /// An integer frame body is empty, non-numeric, or outside the signed
    /// 64-bit range.
    InvalidIntegerLiteral,
    /// A decode was attempted on zero-length input.
    EmptyInput,
}

/// The model a `RespValue` stands for.
pub open spec fn value_model(v: RespValue) -> SpecValue
    decreases v,
{
    match v {
        RespValue::SimpleString(p) => SpecValue::SimpleString(p@),
        RespValue::Error(p) => SpecValue::Error(p@),
        RespValue::Integer(n) => SpecValue::Integer(n as int),
        RespValue::BulkString(None) => SpecValue::BulkString(None),
        RespValue::BulkString(Some(p)) => SpecValue::BulkString(Some(p@)),
        RespValue::Array(None) => SpecValue::Array(None),
        RespValue::Array(Some(elems)) => SpecValue::Array(Some(seq_model(elems@))),
    }
}

/// The models of a sequence of decoded values, element by element.
pub open spec fn seq_model(s: Seq<RespValue>) -> Seq<SpecValue>
    decreases s,
{
    if s.len() == 0 {
        Seq::empty()
    } else {
        seq_model(s.drop_last()).push(value_model(s.last()))
    }
}

} // verus!
