//! The protocol codec: [`parse`] decodes the bytes of a reply, [`encode`]
//! turns a textual command into the bytes of a request.
//!
//! The protocol uses length prefixes for bulk data, so a payload is never
//! scanned for special characters nor quoted.
use vstd::prelude::*;
use vstd::string::{StrSliceExecFns, StringExecFns};
use vstd::utf8::encode_utf8;
use crate::data_type::{DataType, Value};
use crate::decoder::{decode, decode_spec, Fault};
use crate::text::{
    decimal, lossy, lossy_text, push_char, push_decimal, push_signed_decimal, signed_decimal,
};

verus! {

/// Why a reply could not be decoded.
#[derive(Debug, PartialEq)]
pub enum ParserError {
    /// A CRLF was expected at this offset, and other bytes stand there.
    UnexpectedByte(usize),
    /// The input ends at this offset, while a tag byte, a line or a payload
    /// was still expected.
    UnexpectedEndOfInput(usize),
    /// The byte at `offset` is none of the five tag bytes.
    UnexpectedTag { offset: usize, byte: u8 },
    /// A lexeme that should be an integer is not one.
    UnexpectedType { expected: String, got: String },
    /// A length prefix is below -1.
    UnexpectedValue { expected: String, got: String },
}

/// `e` reports the fault `f` met while decoding `input`.
pub open spec fn reports(e: ParserError, f: Fault, input: Seq<u8>) -> bool {
    match f {
        Fault::UnexpectedByte { offset } => e == ParserError::UnexpectedByte(offset),
        Fault::UnexpectedEndOfInput { offset } => e == ParserError::UnexpectedEndOfInput(offset),
        Fault::UnknownTag { offset, byte } => e == ParserError::UnexpectedTag { offset, byte },
        Fault::NotAnInteger { offset, length } => match e {
            ParserError::UnexpectedType { expected, got } => expected@ == "int"@ && got@
                == lossy_text(input.subrange(offset as int, offset + length)),
            _ => false,
        },
        Fault::NegativeLength { value, .. } => match e {
            ParserError::UnexpectedValue { expected, got } => expected@
                == "integer greater than or equal to -1"@ && got@ == signed_decimal(value as int),
            _ => false,
        },
    }
}

fn report(f: Fault, input: &[u8]) -> (e: ParserError)
    requires
        input@.len() <= usize::MAX,
        match f {
            Fault::NotAnInteger { offset, length } => offset + length <= input@.len(),
            _ => true,
        },
    ensures
        reports(e, f, input@),
{
    match f {
        Fault::UnexpectedByte { offset } => ParserError::UnexpectedByte(offset),
        Fault::UnexpectedEndOfInput { offset } => ParserError::UnexpectedEndOfInput(offset),
        Fault::UnknownTag { offset, byte } => ParserError::UnexpectedTag { offset, byte },
        Fault::NotAnInteger { offset, length } => ParserError::UnexpectedType {
            expected: String::from_str("int"),
            got: lossy(vstd::slice::slice_subrange(input, offset, offset + length)),
        },
        Fault::NegativeLength { value, .. } => {
            let mut got = String::new();
            push_signed_decimal(&mut got, value);
            assert(got@ =~= signed_decimal(value as int));
            ParserError::UnexpectedValue {
                expected: String::from_str("integer greater than or equal to -1"),
                got,
            }
        },
    }
}

/// Decodes the reply at the start of `input`.
pub fn parse(input: Vec<u8>) -> (r: Result<DataType, ParserError>)
    ensures
        match decode_spec(input@) {
            Ok(v) => r is Ok && r->Ok_0@ == v,
            Err(f) => r is Err && reports(r->Err_0, f, input@),
        },
{
    match decode(input.as_slice()) {
        Ok(value) => Ok(value),
        Err(f) => {
            proof {
                crate::decoder::lemma_decode_bounds(input@, 0);
            }
            Err(report(f, input.as_slice()))
        },
    }
}

/// Why a command could not be encoded.
#[derive(Debug, PartialEq)]
pub enum EncodeError {
    /// The token at `index` is empty: the command starts or ends with a
    /// space, or holds two spaces in a row.
    EmptyToken { index: usize },
}

/// The tokens of `s`: the runs of characters between single spaces.
pub open spec fn split_spaces(s: Seq<char>) -> Seq<Seq<char>>
    decreases s.len(),
{
    if s.len() == 0 {
        seq![Seq::empty()]
    } else {
        let tokens = split_spaces(s.drop_last());
        if s.last() == ' ' {
            tokens.push(Seq::empty())
        } else {
            tokens.update(tokens.len() - 1, tokens.last().push(s.last()))
        }
    }
}

pub open spec fn is_decimal_digit(c: char) -> bool {
    48 <= (c as u32) <= 57
}

pub open spec fn crlf() -> Seq<char> {
    seq!['\r', '\n']
}

/// A token that starts with a decimal digit is sent as an integer, any
/// other as a bulk string of its UTF-8 bytes.
pub open spec fn encode_token(t: Seq<char>) -> Seq<char> {
    if t.len() > 0 && is_decimal_digit(t[0]) {
        seq![':'] + t + crlf()
    } else {
        seq!['$'] + decimal(encode_utf8(t).len()) + crlf() + t + crlf()
    }
}

pub open spec fn encode_tokens(tokens: Seq<Seq<char>>) -> Seq<char>
    decreases tokens.len(),
{
    if tokens.len() == 0 {
        Seq::empty()
    } else {
        encode_tokens(tokens.drop_last()) + encode_token(tokens.last())
    }
}

/// The request that carries `tokens`: an array of one element per token.
pub open spec fn request(tokens: Seq<Seq<char>>) -> Seq<char> {
    seq!['*'] + decimal(tokens.len()) + crlf() + encode_tokens(tokens)
}

/// The command `command` is well formed: none of its tokens is empty.
pub open spec fn all_tokens_filled(command: Seq<char>) -> bool {
    forall|i: int|
        0 <= i < split_spaces(command).len() ==> (#[trigger] split_spaces(command)[i]).len() > 0
}

proof fn lemma_encode_utf8_concat(a: Seq<char>, b: Seq<char>)
    ensures
        encode_utf8(a + b) == encode_utf8(a) + encode_utf8(b),
    decreases a.len(),
{
    if a.len() == 0 {
        assert(a + b =~= b);
        assert(encode_utf8(a) + encode_utf8(b) =~= encode_utf8(b));
    } else {
        assert((a + b).drop_first() =~= a.drop_first() + b);
        lemma_encode_utf8_concat(a.drop_first(), b);
        assert(encode_utf8(a + b) =~= encode_utf8(a) + encode_utf8(b));
    }
}

/// The number of bytes of the UTF-8 encoding of `c`.
fn utf8_width(c: char) -> (w: u128)
    ensures
        w == vstd::utf8::encode_scalar(c as u32).len(),
{
    proof {
        vstd::utf8::char_is_scalar(c);
    }
    let v = c as u32;
    if v <= 0x7F {
        1
    } else if v <= 0x7FF {
        2
    } else if v <= 0xFFFF {
        3
    } else {
        4
    }
}

/// Encodes a command as a request: the tokens between single spaces, each
/// as an integer where it starts with a decimal digit and as a bulk string
/// otherwise, wrapped in an array. Quotes are ordinary characters, and a
/// token cannot hold a space.
pub fn encode(input: &str) -> (r: Result<String, EncodeError>)
    ensures
        match r {
            Ok(out) => all_tokens_filled(input@) && out@ == request(split_spaces(input@)),
            Err(EncodeError::EmptyToken { index }) => index < split_spaces(input@).len()
                && split_spaces(input@)[index as int].len() == 0 && forall|j: int|
                0 <= j < index ==> (#[trigger] split_spaces(input@)[j]).len() > 0,
        },
{
    // Commands are short lines: reading them character by character is cheap.
    let n = input.unicode_len();
    let mut tokens: Vec<String> = Vec::new();
    // The number of UTF-8 bytes of each token.
    let mut widths: Vec<u128> = Vec::new();
    let mut current = String::new();
    let mut width: u128 = 0;
    let mut i: usize = 0;
    while i < n
        invariant
            n == input@.len(),
            i <= n,
            tokens@.map_values(|t: String| t@).push(current@) == split_spaces(
                input@.subrange(0, i as int),
            ),
            widths@.len() == tokens@.len(),
            forall|k: int|
                0 <= k < widths@.len() ==> #[trigger] widths@[k] == encode_utf8(tokens@[k]@).len(),
            width == encode_utf8(current@).len(),
            width <= 4 * i,
        decreases n - i,
    {
        let c = input.get_char(i);
        let ghost before = tokens@.map_values(|t: String| t@).push(current@);
        assert(input@.subrange(0, i + 1).drop_last() =~= input@.subrange(0, i as int));
        if c == ' ' {
            tokens.push(current);
            widths.push(width);
            current = String::new();
            width = 0;
            assert(tokens@.map_values(|t: String| t@).push(current@) =~= before.push(
                Seq::empty(),
            ));
        } else {
            let ghost old_current = current@;
            proof {
                lemma_encode_utf8_concat(old_current, seq![c]);
                assert(seq![c].drop_first() =~= Seq::<char>::empty());
                assert(encode_utf8(seq![c]) =~= vstd::utf8::encode_scalar(c as u32) + encode_utf8(
                    Seq::<char>::empty(),
                ));
                assert(encode_utf8(seq![c]) =~= vstd::utf8::encode_scalar(c as u32));
            }
            push_char(&mut current, c);
            width = width + utf8_width(c);
            assert(old_current.push(c) =~= old_current + seq![c]);
            assert(tokens@.map_values(|t: String| t@).push(current@) =~= before.update(
                before.len() - 1,
                before.last().push(c),
            ));
        }
        i = i + 1;
    }
    tokens.push(current);
    widths.push(width);
    let ghost views = tokens@.map_values(|t: String| t@);
    assert(input@.subrange(0, n as int) =~= input@);
    assert(views =~= split_spaces(input@));

    let mut out = String::new();
    push_char(&mut out, '*');
    push_decimal(&mut out, tokens.len() as u128);
    push_char(&mut out, '\r');
    push_char(&mut out, '\n');
    let mut j: usize = 0;
    while j < tokens.len()
        invariant
            views == split_spaces(input@),
            views == tokens@.map_values(|t: String| t@),
            widths@.len() == tokens@.len(),
            forall|k: int|
                0 <= k < widths@.len() ==> #[trigger] widths@[k] == encode_utf8(tokens@[k]@).len(),
            j <= tokens@.len(),
            forall|k: int| 0 <= k < j ==> (#[trigger] views[k]).len() > 0,
            out@ == seq!['*'] + decimal(views.len()) + crlf() + encode_tokens(
                views.subrange(0, j as int),
            ),
        decreases tokens@.len() - j,
    {
        let token = tokens[j].as_str();
        assert(token@ == views[j as int]);
        if token.is_empty() {
            return Err(EncodeError::EmptyToken { index: j });
        }
        let ghost prefix = out@;
        let first = token.get_char(0) as u32;
        if first >= 48 && first <= 57 {
            push_char(&mut out, ':');
            out.append(token);
            push_char(&mut out, '\r');
            push_char(&mut out, '\n');
        } else {
            push_char(&mut out, '$');
            push_decimal(&mut out, widths[j]);
            push_char(&mut out, '\r');
            push_char(&mut out, '\n');
            out.append(token);
            push_char(&mut out, '\r');
            push_char(&mut out, '\n');
        }
        assert(views.subrange(0, j + 1).drop_last() =~= views.subrange(0, j as int));
        assert(out@ =~= prefix + encode_token(views[j as int]));
        j = j + 1;
    }
    assert(views.subrange(0, j as int) =~= views);
    Ok(out)
}

} // verus!
