//! A decoder whose errors carry what a diagnostic needs: the input as text,
//! and the span of it (byte offset and length) at which decoding stopped.
use vstd::prelude::*;
use vstd::string::StringExecFns;
use crate::data_type::DataType;
use crate::decoder::{decode, decode_spec, Fault};
use crate::text::{lossy, lossy_text};

verus! {

/// Why a reply could not be decoded; `src` is the whole input as text, and
/// `offset` and `length` mark the offending bytes in it.
#[derive(Debug, PartialEq)]
pub enum ParserError {
    /// A CRLF was expected, and other bytes stand there.
    UnexpectedByte { src: String, offset: usize, length: usize },
    /// The input ended while a tag byte, a line or a payload was still
    /// expected.
    UnexpectedEndOfInput { src: String, offset: usize, length: usize },
    /// The byte is none of the five tag bytes.
    UnexpectedTag { src: String, offset: usize, length: usize },
    /// The bytes do not spell a signed 64-bit integer.
    UnexpectedType { src: String, offset: usize, length: usize, message: String },
    /// The length prefix is below -1.
    UnexpectedValue { src: String, offset: usize, length: usize, message: String },
}

/// `e` points at the bytes where decoding `input` met the fault `f`.
pub open spec fn diagnoses(e: ParserError, f: Fault, input: Seq<u8>) -> bool {
    match (f, e) {
        (
            Fault::UnexpectedByte { offset },
            ParserError::UnexpectedByte { src, offset: o, length },
        ) => src@ == lossy_text(input) && o == offset && length == 2,
        (
            Fault::UnexpectedEndOfInput { offset },
            ParserError::UnexpectedEndOfInput { src, offset: o, length },
        ) => src@ == lossy_text(input) && o == offset && length == 0,
        (
            Fault::UnknownTag { offset, .. },
            ParserError::UnexpectedTag { src, offset: o, length },
        ) => src@ == lossy_text(input) && o == offset && length == 1,
        (
            Fault::NotAnInteger { offset, length },
            ParserError::UnexpectedType { src, offset: o, length: l, message },
        ) => src@ == lossy_text(input) && o == offset && l == length && message@
            == "expected integer"@,
        (
            Fault::NegativeLength { offset, length, .. },
            ParserError::UnexpectedValue { src, offset: o, length: l, message },
        ) => src@ == lossy_text(input) && o == offset && l == length && message@
            == "expected integer greater than or equal to -1"@,
        _ => false,
    }
}

fn diagnose(f: Fault, input: &[u8]) -> (e: ParserError)
    ensures
        diagnoses(e, f, input@),
{
    let src = lossy(input);
    match f {
        Fault::UnexpectedByte { offset } => ParserError::UnexpectedByte { src, offset, length: 2 },
        Fault::UnexpectedEndOfInput { offset } => ParserError::UnexpectedEndOfInput {
            src,
            offset,
            length: 0,
        },
        Fault::UnknownTag { offset, .. } => ParserError::UnexpectedTag { src, offset, length: 1 },
        Fault::NotAnInteger { offset, length } => ParserError::UnexpectedType {
            src,
            offset,
            length,
            message: String::from_str("expected integer"),
        },
        Fault::NegativeLength { offset, length, .. } => ParserError::UnexpectedValue {
            src,
            offset,
            length,
            message: String::from_str("expected integer greater than or equal to -1"),
        },
    }
}

/// Decodes the reply at the start of `input`.
pub fn parse(input: Vec<u8>) -> (r: Result<DataType, ParserError>)
    ensures
        match decode_spec(input@) {
            Ok(v) => r is Ok && r->Ok_0@ == v,
            Err(f) => r is Err && diagnoses(r->Err_0, f, input@),
        },
{
    match decode(input.as_slice()) {
        Ok(value) => Ok(value),
        Err(f) => Err(diagnose(f, input.as_slice())),
    }
}

} // verus!
