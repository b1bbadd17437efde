//! A decoder for a line-oriented, length-prefixed wire protocol with five
//! tagged frame kinds (simple string, error, integer, bulk string, array),
//! each component terminated by a CR LF delimiter.
//!
//! The wire grammar is defined once, as spec-level parse functions over byte
//! sequences, and every executable decoder is proved to return exactly what
//! the spec-level parser says: the decoded value, the number of bytes
//! consumed, or the precise error.

pub mod decode;
pub mod grammar;
pub mod laws;
pub mod value;

pub use decode::array;
pub use decode::bulk_string;
pub use decode::decode;
pub use decode::error;
pub use decode::integer;
pub use decode::simple_string;
pub use value::RespError;
pub use value::RespValue;
