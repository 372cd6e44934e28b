use vstd::prelude::*;

verus! {

/// A value of the Redis serialization protocol.
///
/// The kind of a value is chosen by the first byte of its encoding (the tag
/// byte), and every part of an encoding is terminated by "\r\n" (CRLF):
///
/// - `+` a simple string: short text that cannot hold a CRLF, as in `"+OK\r\n"`;
/// - `-` an error reported by the server, as in `"-ERR unknown command 'foobar'\r\n"`;
/// - `:` a signed 64-bit integer, as in `":1000\r\n"`;
/// - `$` a bulk string: a length prefix, then exactly that many raw bytes,
///   then CRLF, as in `"$6\r\nfoobar\r\n"` or `"$0\r\n\r\n"`;
/// - `*` an array: an element count, then each element, as in
///   `"*2\r\n$3\r\nfoo\r\n:1\r\n"`;
/// - a length of -1 after `$` or `*` stands for the null value: `"$-1\r\n"`, `"*-1\r\n"`.
#[derive(Debug, PartialEq)]
pub enum DataType {
    SimpleString(String),
    Error(String),
    Int(i64),
    /// Bulk strings are binary safe: the payload is kept byte for byte.
    BulkString(Vec<u8>),
    Array(Vec<DataType>),
    Null,
}

/// The mathematical model of a [`DataType`].
pub enum Value {
    SimpleString(Seq<char>),
    Error(Seq<char>),
    Int(int),
    BulkString(Seq<u8>),
    Array(Seq<Value>),
    Null,
}

impl DataType {
    pub open spec fn view(&self) -> Value
        decreases self,
    {
        match self {
            DataType::SimpleString(s) => Value::SimpleString(s@),
            DataType::Error(s) => Value::Error(s@),
            DataType::Int(i) => Value::Int(*i as int),
            DataType::BulkString(b) => Value::BulkString(b@),
            DataType::Array(items) => Value::Array(
                Seq::new(
                    items.len() as nat,
                    |i: int|
                        if 0 <= i < items.len() {
                            items[i].view()
                        } else {
                            Value::Null
                        },
                ),
            ),
            DataType::Null => Value::Null,
        }
    }
}

} // verus!
