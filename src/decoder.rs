//! The decoder: a cursor over a byte buffer and a recursive descent over the
//! tag bytes, stated first as spec functions on byte sequences.
use vstd::prelude::*;
use vstd::slice::{slice_subrange, slice_to_vec};
use crate::data_type::{DataType, Value};
use crate::text::{lossy, lossy_text};

verus! {

/// Where and why decoding stopped.
#[derive(Debug, PartialEq, Eq, Clone, Copy)]
pub enum Fault {
    /// A CRLF was expected at `offset`, and other bytes stand there.
    UnexpectedByte { offset: usize },
    /// The input ends at `offset`, while a tag byte, a line or a payload was
    /// still expected.
    UnexpectedEndOfInput { offset: usize },
    /// The byte at `offset` is none of the five tag bytes.
    UnknownTag { offset: usize, byte: u8 },
    /// The `length` bytes at `offset` do not spell a signed 64-bit integer.
    NotAnInteger { offset: usize, length: usize },
    /// The length prefix of `length` bytes at `offset` holds `value`, which
    /// is below -1.
    NegativeLength { offset: usize, length: usize, value: i64 },
}

pub open spec fn is_crlf_at(b: Seq<u8>, i: int) -> bool {
    0 <= i && i + 1 < b.len() && b[i] == 13 && b[i + 1] == 10
}

/// The position of the first CRLF at or after `start`, if there is one.
pub open spec fn line_end(b: Seq<u8>, start: int) -> Option<int>
    decreases b.len() - start,
{
    if start < 0 || start + 1 >= b.len() {
        None
    } else if is_crlf_at(b, start) {
        Some(start)
    } else {
        line_end(b, start + 1)
    }
}

pub open spec fn is_digit(c: u8) -> bool {
    48 <= c <= 57
}

pub open spec fn all_digits(d: Seq<u8>) -> bool {
    d.len() > 0 && forall|i: int| 0 <= i < d.len() ==> is_digit(#[trigger] d[i])
}

/// The number that a run of decimal digits spells.
pub open spec fn digits_value(d: Seq<u8>) -> nat
    decreases d.len(),
{
    if d.len() == 0 {
        0
    } else {
        digits_value(d.drop_last()) * 10 + (d.last() - 48) as nat
    }
}

/// The integer that `lexeme` spells: an optional '+' or '-', then one or
/// more decimal digits.
pub open spec fn lexeme_int(lexeme: Seq<u8>) -> Option<int> {
    if lexeme.len() > 0 && (lexeme[0] == 43 || lexeme[0] == 45) {
        if all_digits(lexeme.drop_first()) {
            if lexeme[0] == 45 {
                Some(-digits_value(lexeme.drop_first()))
            } else {
                Some(digits_value(lexeme.drop_first()) as int)
            }
        } else {
            None
        }
    } else if all_digits(lexeme) {
        Some(digits_value(lexeme) as int)
    } else {
        None
    }
}

/// The integer that `lexeme` spells, where it fits in 64 signed bits.
pub open spec fn lexeme_i64(lexeme: Seq<u8>) -> Option<int> {
    match lexeme_int(lexeme) {
        Some(v) => if i64::MIN <= v <= i64::MAX {
            Some(v)
        } else {
            None
        },
        None => None,
    }
}

/// Reads the text from `start` to the next CRLF: the text and the position
/// after that CRLF.
pub open spec fn text_line(b: Seq<u8>, start: int) -> Result<(Seq<u8>, int), Fault> {
    match line_end(b, start) {
        Some(e) => Ok((b.subrange(start, e), e + 2)),
        None => Err(Fault::UnexpectedEndOfInput { offset: b.len() as usize }),
    }
}

/// Reads the integer from `start` to the next CRLF: the integer and the
/// position after that CRLF.
pub open spec fn int_line(b: Seq<u8>, start: int) -> Result<(int, int), Fault> {
    match line_end(b, start) {
        Some(e) => match lexeme_i64(b.subrange(start, e)) {
            Some(v) => Ok((v, e + 2)),
            None => Err(Fault::NotAnInteger { offset: start as usize, length: (e - start) as usize }),
        },
        None => Err(Fault::UnexpectedEndOfInput { offset: b.len() as usize }),
    }
}

/// The fault of a length prefix below -1: the prefix runs from `start`
/// up to the CRLF at `q - 2`.
pub open spec fn negative_length(start: int, q: int, n: int) -> Fault {
    Fault::NegativeLength { offset: start as usize, length: (q - 2 - start) as usize, value: n as i64 }
}

/// A bulk string or null whose length prefix starts at `s` (just after the
/// '$'), with the position just after it.
pub open spec fn decode_bulk(b: Seq<u8>, s: int) -> Result<(Value, int), Fault> {
    match int_line(b, s) {
        Ok((n, q)) => if n == -1 {
            Ok((Value::Null, q))
        } else if n < -1 {
            Err(negative_length(s, q, n))
        } else if q + n > b.len() {
            Err(Fault::UnexpectedEndOfInput { offset: b.len() as usize })
        } else if !is_crlf_at(b, q + n) {
            Err(Fault::UnexpectedByte { offset: (q + n) as usize })
        } else {
            Ok((Value::BulkString(b.subrange(q, q + n)), q + n + 2))
        },
        Err(f) => Err(f),
    }
}

/// An array or null whose element count starts at `s` (just after the '*'),
/// with the position just after it.
pub open spec fn decode_array(b: Seq<u8>, s: int) -> Result<(Value, int), Fault>
    decreases b.len() - s, 2int, 0int,
{
    match int_line(b, s) {
        Ok((n, q)) => if n == -1 {
            Ok((Value::Null, q))
        } else if n < -1 {
            Err(negative_length(s, q, n))
        } else {
            proof {
                lemma_line_end_bounds(b, s);
            }
            match decode_elems(b, q, n as nat) {
                Ok((items, r)) => Ok((Value::Array(items), r)),
                Err(f) => Err(f),
            }
        },
        Err(f) => Err(f),
    }
}

/// The value encoded at position `p` of `b`, with the position just after
/// its encoding; or the fault that stops decoding there.
pub open spec fn decode_at(b: Seq<u8>, p: int) -> Result<(Value, int), Fault>
    decreases b.len() - p, 0int, 0int,
{
    if p < 0 || p >= b.len() {
        Err(Fault::UnexpectedEndOfInput { offset: p as usize })
    } else if b[p] == 43 {
        // '+'
        match text_line(b, p + 1) {
            Ok((t, q)) => Ok((Value::SimpleString(lossy_text(t)), q)),
            Err(f) => Err(f),
        }
    } else if b[p] == 45 {
        // '-'
        match text_line(b, p + 1) {
            Ok((t, q)) => Ok((Value::Error(lossy_text(t)), q)),
            Err(f) => Err(f),
        }
    } else if b[p] == 58 {
        // ':'
        match int_line(b, p + 1) {
            Ok((v, q)) => Ok((Value::Int(v), q)),
            Err(f) => Err(f),
        }
    } else if b[p] == 36 {
        // '$'
        decode_bulk(b, p + 1)
    } else if b[p] == 42 {
        // '*'
        decode_array(b, p + 1)
    } else {
        Err(Fault::UnknownTag { offset: p as usize, byte: b[p] })
    }
}

/// The `n` values encoded one after another from position `p` of `b`, with
/// the position just after the last; or the first fault.
///
/// Each value starts where the one before it ended, never before `p` nor past
/// the end of `b` (`lemma_decode_bounds`); the test of this makes the
/// termination of the descent evident.
pub open spec fn decode_elems(b: Seq<u8>, p: int, n: nat) -> Result<(Seq<Value>, int), Fault>
    decreases b.len() - p, 1int, n,
{
    if n == 0 {
        Ok((Seq::empty(), p))
    } else {
        match decode_elems(b, p, (n - 1) as nat) {
            Ok((items, q)) => if p <= q <= b.len() {
                match decode_at(b, q) {
                    Ok((v, r)) => Ok((items.push(v), r)),
                    Err(f) => Err(f),
                }
            } else {
                Err(Fault::UnexpectedEndOfInput { offset: b.len() as usize })
            },
            Err(f) => Err(f),
        }
    }
}

/// The outcome of decoding a whole buffer: the first value in it.
pub open spec fn decode_spec(b: Seq<u8>) -> Result<Value, Fault> {
    match decode_at(b, 0) {
        Ok((v, _)) => Ok(v),
        Err(f) => Err(f),
    }
}

/// A complete message: one value whose encoding fills the buffer.
pub open spec fn is_message(b: Seq<u8>) -> bool {
    match decode_at(b, 0) {
        Ok((_, e)) => e == b.len(),
        Err(_) => false,
    }
}

/// The model of a decoding outcome.
pub open spec fn outcome(r: Result<DataType, Fault>) -> Result<Value, Fault> {
    match r {
        Ok(d) => Ok(d@),
        Err(f) => Err(f),
    }
}

/// The model of a decoding outcome, with the position where it ends.
pub open spec fn outcome_at(r: Result<DataType, Fault>, q: int) -> Result<(Value, int), Fault> {
    match r {
        Ok(d) => Ok((d@, q)),
        Err(f) => Err(f),
    }
}

/// The fault `f` names only bytes of a buffer of `len` bytes.
pub open spec fn fault_within(f: Fault, len: int) -> bool {
    match f {
        Fault::NotAnInteger { offset, length } => offset + length <= len,
        _ => true,
    }
}

pub proof fn lemma_line_end_bounds(b: Seq<u8>, start: int)
    requires
        0 <= start,
    ensures
        match line_end(b, start) {
            Some(e) => start <= e && e + 2 <= b.len() && is_crlf_at(b, e) && forall|k: int|
                start <= k < e ==> !is_crlf_at(b, k),
            None => forall|k: int| start <= k ==> !is_crlf_at(b, k),
        },
    decreases b.len() - start,
{
    if start < 0 || start + 1 >= b.len() {
    } else if is_crlf_at(b, start) {
    } else {
        lemma_line_end_bounds(b, start + 1);
    }
}

pub proof fn lemma_line_end_from(b: Seq<u8>, start: int, pos: int)
    requires
        0 <= start <= pos,
        forall|k: int| start <= k < pos ==> !is_crlf_at(b, k),
    ensures
        line_end(b, start) == line_end(b, pos),
    decreases pos - start,
{
    if start < pos && start + 1 < b.len() {
        lemma_line_end_from(b, start + 1, pos);
    }
}

pub proof fn lemma_digits_prefix(d: Seq<u8>, k: int)
    requires
        all_digits(d),
        0 < k <= d.len(),
    ensures
        digits_value(d.subrange(0, k)) <= digits_value(d),
    decreases d.len(),
{
    if k < d.len() {
        let e = d.drop_last();
        assert(e.subrange(0, k) =~= d.subrange(0, k));
        if k < e.len() {
            assert(all_digits(e)) by {
                assert forall|i: int| 0 <= i < e.len() implies is_digit(#[trigger] e[i]) by {
                    assert(e[i] == d[i]);
                }
            }
            lemma_digits_prefix(e, k);
        } else {
            assert(e.subrange(0, k) =~= e);
        }
    } else {
        assert(d.subrange(0, k) =~= d);
    }
}

/// A value decoded at `p` ends after `p` and within the buffer, and a fault
/// names only bytes of the buffer.
pub proof fn lemma_decode_bounds(b: Seq<u8>, p: int)
    requires
        0 <= p,
        b.len() <= usize::MAX,
    ensures
        match decode_at(b, p) {
            Ok((_, q)) => p < q <= b.len(),
            Err(f) => fault_within(f, b.len() as int),
        },
    decreases b.len() - p, 0int, 0int,
{
    if p < b.len() {
        lemma_line_end_bounds(b, p + 1);
        if b[p] == 42 {
            lemma_array_bounds(b, p + 1);
        }
    }
}

proof fn lemma_array_bounds(b: Seq<u8>, s: int)
    requires
        1 <= s <= b.len(),
        b.len() <= usize::MAX,
    ensures
        match decode_array(b, s) {
            Ok((_, q)) => s < q <= b.len(),
            Err(f) => fault_within(f, b.len() as int),
        },
    decreases b.len() - s, 2int, 0int,
{
    lemma_line_end_bounds(b, s);
    if let Ok((n, q)) = int_line(b, s) {
        if n >= 0 {
            lemma_elems_bounds(b, q, n as nat);
        }
    }
}

/// Values decoded one after another from `p` end within the buffer, and a
/// fault names only bytes of the buffer.
pub proof fn lemma_elems_bounds(b: Seq<u8>, p: int, n: nat)
    requires
        0 <= p <= b.len(),
        b.len() <= usize::MAX,
    ensures
        match decode_elems(b, p, n) {
            Ok((_, q)) => p <= q <= b.len(),
            Err(f) => fault_within(f, b.len() as int),
        },
    decreases b.len() - p, 1int, n,
{
    if n > 0 {
        lemma_elems_bounds(b, p, (n - 1) as nat);
        if let Ok((_, q)) = decode_elems(b, p, (n - 1) as nat) {
            if p <= q <= b.len() {
                lemma_decode_bounds(b, q);
            }
        }
    }
}

pub proof fn lemma_elems_fault_stays(b: Seq<u8>, p: int, i: nat, n: nat)
    requires
        decode_elems(b, p, i) is Err,
        i <= n,
    ensures
        decode_elems(b, p, n) == decode_elems(b, p, i),
    decreases n - i,
{
    if i < n {
        lemma_elems_fault_stays(b, p, i, (n - 1) as nat);
    }
}

/// The integer that `b[from..to]` spells, where it fits in an `i64`.
fn lexeme_value(b: &[u8], from: usize, to: usize) -> (r: Option<i64>)
    requires
        from <= to <= b@.len(),
    ensures
        match lexeme_i64(b@.subrange(from as int, to as int)) {
            Some(v) => r == Some(v as i64),
            None => r is None,
        },
{
    let ghost lex = b@.subrange(from as int, to as int);
    let mut i: usize = from;
    let mut negative = false;
    if i < to && (b[i] == 43u8 || b[i] == 45u8) {
        negative = b[i] == 45u8;
        i = i + 1;
    }
    let digits_from = i;
    let ghost d = b@.subrange(digits_from as int, to as int);
    assert(from < digits_from ==> d =~= lex.drop_first());
    assert(from == digits_from ==> d =~= lex);
    if i == to {
        return None;
    }
    let limit: u128 = 0x8000_0000_0000_0000;
    let mut acc: u128 = 0;
    while i < to
        invariant
            from <= digits_from <= i <= to <= b@.len(),
            d == b@.subrange(digits_from as int, to as int),
            d.len() > 0,
            lex == b@.subrange(from as int, to as int),
            from < digits_from ==> d == lex.drop_first() && (lex[0] == 43 || lex[0] == 45)
                && negative == (lex[0] == 45),
            from == digits_from ==> d == lex && !(lex.len() > 0 && (lex[0] == 43 || lex[0]
                == 45)),
            acc == digits_value(b@.subrange(digits_from as int, i as int)),
            limit == 0x8000_0000_0000_0000,
            acc <= limit,
            forall|k: int| digits_from <= k < i ==> is_digit(#[trigger] b@[k]),
        decreases to - i,
    {
        let c = b[i];
        if c < 48u8 || c > 57u8 {
            assert(d[i - digits_from] == c);
            return None;
        }
        let ghost prev = b@.subrange(digits_from as int, i as int);
        assert(b@.subrange(digits_from as int, i + 1).drop_last() =~= prev);
        acc = acc * 10 + (c - 48u8) as u128;
        i = i + 1;
        if acc > limit {
            proof {
                assert(forall|k: int| 0 <= k < d.len() ==> #[trigger] d[k] == b@[digits_from + k]);
                if all_digits(d) {
                    assert(d.subrange(0, i - digits_from) =~= b@.subrange(
                        digits_from as int,
                        i as int,
                    ));
                    lemma_digits_prefix(d, i - digits_from);
                }
            }
            return None;
        }
    }
    assert(b@.subrange(digits_from as int, i as int) =~= d);
    assert(all_digits(d)) by {
        assert forall|k: int| 0 <= k < d.len() implies is_digit(#[trigger] d[k]) by {
            assert(d[k] == b@[digits_from + k]);
        }
    }
    if negative {
        Some((0i128 - acc as i128) as i64)
    } else if acc < limit {
        Some(acc as i64)
    } else {
        None
    }
}

/// A cursor over the buffer being decoded: it owns no data, only an index
/// into the caller's buffer.
struct Parser<'a> {
    /// The position looked at in `input`; never past its end.
    position: usize,
    input: &'a [u8],
}

impl<'a> Parser<'a> {
    fn new(input: &'a [u8]) -> (r: Self)
        ensures
            r.input@ == input@,
            r.position == 0,
    {
        Parser { input, position: 0 }
    }

    /// Advances the position by 1.
    fn skip(&mut self)
        requires
            old(self).position < old(self).input.len(),
        ensures
            final(self).position == old(self).position + 1,
            final(self).input@ == old(self).input@,
    {
        self.position = self.position + 1;
    }

    /// Returns the byte at the position and advances past it, or `None` at
    /// the end of the input.
    fn next_byte(&mut self) -> (r: Option<u8>)
        requires
            old(self).position <= old(self).input@.len(),
        ensures
            final(self).input@ == old(self).input@,
            old(self).position < old(self).input@.len() ==> r == Some(
                old(self).input@[old(self).position as int],
            ) && final(self).position == old(self).position + 1,
            old(self).position == old(self).input@.len() ==> r is None && final(self).position
                == old(self).position,
    {
        if self.position < self.input.len() {
            let byte = self.input[self.position];
            self.skip();
            Some(byte)
        } else {
            None
        }
    }

    /// Whether a CRLF could still start after the position.
    fn has_bytes_to_parse(&self) -> (r: bool)
        ensures
            r == (self.position + 1 < self.input@.len()),
    {
        self.input.len() > 0 && self.position < self.input.len() - 1
    }

    /// Whether the position points at the start of a CRLF.
    fn is_at_crlf(&self) -> (r: bool)
        ensures
            r == is_crlf_at(self.input@, self.position as int),
    {
        if self.position >= self.input.len() || self.input.len() - self.position < 2 {
            return false;
        }
        self.input[self.position] == 13u8 && self.input[self.position + 1] == 10u8
    }

    /// Consumes the CRLF at the position, or fails where it is missing.
    fn consume_crlf(&mut self) -> (r: Result<(), Fault>)
        requires
            old(self).position <= old(self).input@.len(),
        ensures
            final(self).input@ == old(self).input@,
            final(self).position <= final(self).input@.len(),
            is_crlf_at(old(self).input@, old(self).position as int) ==> r is Ok
                && final(self).position == old(self).position + 2,
            !is_crlf_at(old(self).input@, old(self).position as int) ==> r == Err::<(), Fault>(
                Fault::UnexpectedByte { offset: old(self).position },
            ),
    {
        if !self.is_at_crlf() {
            Err(Fault::UnexpectedByte { offset: self.position })
        } else {
            // "\r"
            self.skip();
            // "\n"
            self.skip();
            Ok(())
        }
    }

    /// Moves to the first CRLF at or after the position; returns whether
    /// there is one.
    fn seek_line_end(&mut self) -> (found: bool)
        requires
            old(self).position <= old(self).input@.len(),
        ensures
            final(self).input@ == old(self).input@,
            final(self).position <= final(self).input@.len(),
            match line_end(old(self).input@, old(self).position as int) {
                Some(e) => found && final(self).position == e,
                None => !found,
            },
    {
        let ghost start = self.position as int;
        while self.has_bytes_to_parse() && !self.is_at_crlf()
            invariant
                self.input@ == old(self).input@,
                start <= self.position <= self.input@.len(),
                forall|k: int| start <= k < self.position ==> !is_crlf_at(self.input@, k),
            decreases self.input@.len() - self.position,
        {
            self.skip();
        }
        proof {
            lemma_line_end_from(self.input@, start, self.position as int);
        }
        self.is_at_crlf()
    }

    /// Reads the text up to the next CRLF and consumes that CRLF.
    fn line_text(&mut self) -> (r: Result<String, Fault>)
        requires
            old(self).position <= old(self).input@.len(),
        ensures
            r is Ok ==> old(self).position <= final(self).position,
            final(self).input@ == old(self).input@,
            final(self).position <= final(self).input@.len(),
            match text_line(old(self).input@, old(self).position as int) {
                Ok((t, q)) => r is Ok && r->Ok_0@ == lossy_text(t) && final(self).position == q,
                Err(f) => r == Err::<String, Fault>(f),
            },
    {
        let start = self.position;
        proof {
            lemma_line_end_bounds(self.input@, start as int);
        }
        if !self.seek_line_end() {
            return Err(Fault::UnexpectedEndOfInput { offset: self.input.len() });
        }
        let text = lossy(slice_subrange(self.input, start, self.position));
        if let Err(f) = self.consume_crlf() {
            return Err(f);
        }
        Ok(text)
    }

    fn simple_string(&mut self) -> (r: Result<DataType, Fault>)
        requires
            old(self).position <= old(self).input@.len(),
        ensures
            r is Ok ==> old(self).position <= final(self).position,
            final(self).input@ == old(self).input@,
            final(self).position <= final(self).input@.len(),
            match text_line(old(self).input@, old(self).position as int) {
                Ok((t, q)) => r is Ok && r->Ok_0@ == Value::SimpleString(lossy_text(t))
                    && final(self).position == q,
                Err(f) => r == Err::<DataType, Fault>(f),
            },
    {
        match self.line_text() {
            Ok(text) => Ok(DataType::SimpleString(text)),
            Err(f) => Err(f),
        }
    }

    fn error(&mut self) -> (r: Result<DataType, Fault>)
        requires
            old(self).position <= old(self).input@.len(),
        ensures
            r is Ok ==> old(self).position <= final(self).position,
            final(self).input@ == old(self).input@,
            final(self).position <= final(self).input@.len(),
            match text_line(old(self).input@, old(self).position as int) {
                Ok((t, q)) => r is Ok && r->Ok_0@ == Value::Error(lossy_text(t))
                    && final(self).position == q,
                Err(f) => r == Err::<DataType, Fault>(f),
            },
    {
        match self.line_text() {
            Ok(text) => Ok(DataType::Error(text)),
            Err(f) => Err(f),
        }
    }

    /// Reads the integer that runs up to the next CRLF, and stops at that
    /// CRLF.
    fn parse_int(&mut self) -> (r: Result<i64, Fault>)
        requires
            old(self).position <= old(self).input@.len(),
        ensures
            final(self).input@ == old(self).input@,
            final(self).position <= final(self).input@.len(),
            match int_line(old(self).input@, old(self).position as int) {
                Ok((v, q)) => r == Ok::<i64, Fault>(v as i64) && final(self).position == q - 2
                    && is_crlf_at(final(self).input@, final(self).position as int),
                Err(f) => r == Err::<i64, Fault>(f),
            },
            r is Ok ==> old(self).position <= final(self).position,
    {
        let start = self.position;
        proof {
            lemma_line_end_bounds(self.input@, start as int);
        }
        if !self.seek_line_end() {
            return Err(Fault::UnexpectedEndOfInput { offset: self.input.len() });
        }
        match lexeme_value(self.input, start, self.position) {
            Some(v) => Ok(v),
            None => Err(Fault::NotAnInteger { offset: start, length: self.position - start }),
        }
    }

    fn integer(&mut self) -> (r: Result<DataType, Fault>)
        requires
            old(self).position <= old(self).input@.len(),
        ensures
            r is Ok ==> old(self).position <= final(self).position,
            final(self).input@ == old(self).input@,
            final(self).position <= final(self).input@.len(),
            match int_line(old(self).input@, old(self).position as int) {
                Ok((v, q)) => r is Ok && r->Ok_0@ == Value::Int(v) && final(self).position == q,
                Err(f) => r == Err::<DataType, Fault>(f),
            },
    {
        match self.parse_int() {
            Ok(v) => {
                if let Err(f) = self.consume_crlf() {
                    return Err(f);
                }
                Ok(DataType::Int(v))
            },
            Err(f) => Err(f),
        }
    }

    fn bulk_string_or_null(&mut self) -> (r: Result<DataType, Fault>)
        requires
            old(self).position <= old(self).input@.len(),
        ensures
            r is Ok ==> old(self).position <= final(self).position,
            final(self).input@ == old(self).input@,
            final(self).position <= final(self).input@.len(),
            match decode_bulk(old(self).input@, old(self).position as int) {
                Ok((v, q)) => r is Ok && r->Ok_0@ == v && final(self).position == q,
                Err(f) => r == Err::<DataType, Fault>(f),
            },
    {
        let length_at = self.position;
        let string_length = match self.parse_int() {
            Ok(v) => v,
            Err(f) => return Err(f),
        };
        let length_ends_at = self.position;
        if let Err(f) = self.consume_crlf() {
            return Err(f);
        }
        if string_length == -1 {
            return Ok(DataType::Null);
        }
        if string_length < -1 {
            return Err(
                Fault::NegativeLength {
                    offset: length_at,
                    length: length_ends_at - length_at,
                    value: string_length,
                },
            );
        }
        let string_starts_at = self.position;
        if string_length as u64 > (self.input.len() - string_starts_at) as u64 {
            return Err(Fault::UnexpectedEndOfInput { offset: self.input.len() });
        }
        let string_ends_at = string_starts_at + string_length as usize;
        let payload = slice_to_vec(
            slice_subrange(self.input, string_starts_at, string_ends_at),
        );
        self.position = string_ends_at;
        match self.consume_crlf() {
            Ok(()) => Ok(DataType::BulkString(payload)),
            Err(f) => Err(f),
        }
    }

    fn array_or_null(&mut self) -> (r: Result<DataType, Fault>)
        requires
            old(self).position <= old(self).input@.len(),
        ensures
            r is Ok ==> old(self).position <= final(self).position,
            final(self).input@ == old(self).input@,
            final(self).position <= final(self).input@.len(),
            match decode_array(old(self).input@, old(self).position as int) {
                Ok((v, q)) => r is Ok && r->Ok_0@ == v && final(self).position == q,
                Err(f) => r == Err::<DataType, Fault>(f),
            },
        decreases old(self).input@.len() - old(self).position, 1int,
    {
        let length_at = self.position;
        let array_length = match self.parse_int() {
            Ok(v) => v,
            Err(f) => return Err(f),
        };
        let length_ends_at = self.position;
        if let Err(f) = self.consume_crlf() {
            return Err(f);
        }
        if array_length == -1 {
            return Ok(DataType::Null);
        }
        if array_length < -1 {
            return Err(
                Fault::NegativeLength {
                    offset: length_at,
                    length: length_ends_at - length_at,
                    value: array_length,
                },
            );
        }
        let ghost b = self.input@;
        let ghost first = self.position as int;
        let ghost mut items: Seq<Value> = Seq::empty();
        let count = array_length as u64;
        let mut elements: Vec<DataType> = Vec::new();
        let mut i: u64 = 0;
        while i < count
            invariant
                self.input@ == b,
                b == old(self).input@,
                length_at == old(self).position,
                decode_array(b, length_at as int) == match decode_elems(b, first, count as nat) {
                    Ok((all, r)) => Ok::<(Value, int), Fault>((Value::Array(all), r)),
                    Err(f) => Err(f),
                },
                length_at < first <= self.position <= b.len(),
                i <= count,
                decode_elems(b, first, i as nat) == Ok::<(Seq<Value>, int), Fault>(
                    (items, self.position as int),
                ),
                elements@.len() == items.len(),
                forall|k: int| 0 <= k < items.len() ==> (#[trigger] elements@[k])@ == items[k],
            decreases count - i,
        {
            let ghost before = self.position as int;
            match self.data_type() {
                Ok(v) => {
                    proof {
                        items = items.push(v@);
                    }
                    elements.push(v);
                },
                Err(f) => {
                    proof {
                        assert(decode_at(b, before) == Err::<(Value, int), Fault>(f));
                        assert(decode_elems(b, first, (i + 1) as nat) == Err::<
                            (Seq<Value>, int),
                            Fault,
                        >(f));
                        lemma_elems_fault_stays(b, first, (i + 1) as nat, count as nat);
                    }
                    return Err(f);
                },
            }
            i = i + 1;
        }
        let array = DataType::Array(elements);
        assert(array@ == Value::Array(items)) by {
            assert(array@->Array_0 =~= items);
        }
        Ok(array)
    }

    fn data_type(&mut self) -> (r: Result<DataType, Fault>)
        requires
            old(self).position <= old(self).input@.len(),
        ensures
            r is Ok ==> old(self).position <= final(self).position,
            final(self).input@ == old(self).input@,
            final(self).position <= final(self).input@.len(),
            outcome_at(r, final(self).position as int) == decode_at(
                old(self).input@,
                old(self).position as int,
            ),
        decreases old(self).input@.len() - old(self).position, 0int,
    {
        let tag_at = self.position;
        match self.next_byte() {
            None => Err(Fault::UnexpectedEndOfInput { offset: self.position }),
            Some(byte) => {
                if byte == 43u8 {
                    // '+'
                    self.simple_string()
                } else if byte == 36u8 {
                    // '$'
                    self.bulk_string_or_null()
                } else if byte == 45u8 {
                    // '-'
                    self.error()
                } else if byte == 58u8 {
                    // ':'
                    self.integer()
                } else if byte == 42u8 {
                    // '*'
                    self.array_or_null()
                } else {
                    Err(Fault::UnknownTag { offset: tag_at, byte })
                }
            },
        }
    }
}

/// Decodes the value that starts at the first byte of `input`; bytes after
/// its encoding are not read.
pub fn decode(input: &[u8]) -> (r: Result<DataType, Fault>)
    ensures
        outcome(r) == decode_spec(input@),
{
    let mut parser = Parser::new(input);
    parser.data_type()
}

proof fn lemma_line_end_prefix(m: Seq<u8>, k: int, s: int)
    requires
        0 <= s,
        0 <= k <= m.len(),
    ensures
        line_end(m.subrange(0, k), s) == match line_end(m, s) {
            Some(e) => if e + 2 <= k {
                Some(e)
            } else {
                None
            },
            None => None,
        },
    decreases m.len() - s,
{
    let b = m.subrange(0, k);
    lemma_line_end_bounds(m, s);
    if s + 1 < k {
        assert(is_crlf_at(b, s) == is_crlf_at(m, s));
        if !is_crlf_at(m, s) {
            lemma_line_end_prefix(m, k, s + 1);
        }
    }
}

proof fn lemma_prefix_at(m: Seq<u8>, k: int, p: int)
    requires
        0 <= p,
        0 <= k <= m.len(),
        m.len() <= usize::MAX,
        decode_at(m, p) is Ok,
    ensures
        decode_at(m, p)->Ok_0.1 <= k ==> decode_at(m.subrange(0, k), p) == decode_at(m, p),
        decode_at(m, p)->Ok_0.1 > k ==> decode_at(m.subrange(0, k), p) is Err,
    decreases m.len() - p, 0int, 0int,
{
    let b = m.subrange(0, k);
    lemma_decode_bounds(m, p);
    if p < k {
        assert(b[p] == m[p]);
        lemma_line_end_prefix(m, k, p + 1);
        lemma_line_end_bounds(m, p + 1);
        if let Some(e) = line_end(m, p + 1) {
            if e + 2 <= k {
                assert(b.subrange(p + 1, e) =~= m.subrange(p + 1, e));
            }
        }
        if m[p] == 36 {
            if let Ok((n, q)) = int_line(m, p + 1) {
                if 0 <= n && q + n + 2 <= k {
                    assert(b.subrange(q, q + n) =~= m.subrange(q, q + n));
                    assert(is_crlf_at(b, q + n));
                }
            }
        } else if m[p] == 42 {
            lemma_prefix_array(m, k, p + 1);
        }
    }
}

proof fn lemma_prefix_array(m: Seq<u8>, k: int, s: int)
    requires
        1 <= s <= m.len(),
        0 <= k <= m.len(),
        m.len() <= usize::MAX,
        decode_array(m, s) is Ok,
    ensures
        decode_array(m, s)->Ok_0.1 <= k ==> decode_array(m.subrange(0, k), s) == decode_array(m, s),
        decode_array(m, s)->Ok_0.1 > k ==> decode_array(m.subrange(0, k), s) is Err,
    decreases m.len() - s, 2int, 0int,
{
    let b = m.subrange(0, k);
    lemma_line_end_prefix(m, k, s);
    lemma_line_end_bounds(m, s);
    if let Some(e) = line_end(m, s) {
        if e + 2 <= k {
            assert(b.subrange(s, e) =~= m.subrange(s, e));
            if let Ok((n, q)) = int_line(m, s) {
                if n >= 0 {
                    lemma_prefix_elems(m, k, q, n as nat);
                }
            }
        } else {
            if let Ok((n, q)) = int_line(m, s) {
                if n >= 0 {
                    lemma_elems_bounds(m, q, n as nat);
                }
            }
        }
    }
}

proof fn lemma_prefix_elems(m: Seq<u8>, k: int, p: int, n: nat)
    requires
        0 <= p <= k <= m.len(),
        m.len() <= usize::MAX,
        decode_elems(m, p, n) is Ok,
    ensures
        decode_elems(m, p, n)->Ok_0.1 <= k ==> decode_elems(m.subrange(0, k), p, n)
            == decode_elems(m, p, n),
        decode_elems(m, p, n)->Ok_0.1 > k ==> decode_elems(m.subrange(0, k), p, n) is Err,
    decreases m.len() - p, 1int, n,
{
    if n > 0 {
        lemma_prefix_elems(m, k, p, (n - 1) as nat);
        let q = decode_elems(m, p, (n - 1) as nat)->Ok_0.1;
        if q <= k {
            lemma_prefix_at(m, k, q);
        } else {
            lemma_decode_bounds(m, q);
        }
    }
}

/// A strict prefix of a complete message does not decode: decoding it fails,
/// and yields no value.
pub proof fn strict_prefix_is_rejected(m: Seq<u8>, k: int)
    requires
        is_message(m),
        0 <= k < m.len(),
        m.len() <= usize::MAX,
    ensures
        decode_spec(m.subrange(0, k)) is Err,
{
    lemma_prefix_at(m, k, 0);
}

/// Decoding keeps no state between calls: two decodings of equal buffers
/// give structurally equal outcomes.
pub proof fn decoding_is_deterministic(
    a: Seq<u8>,
    b: Seq<u8>,
    ra: Result<DataType, Fault>,
    rb: Result<DataType, Fault>,
)
    requires
        a == b,
        outcome(ra) == decode_spec(a),
        outcome(rb) == decode_spec(b),
    ensures
        outcome(ra) == outcome(rb),
{
}

} // verus!
