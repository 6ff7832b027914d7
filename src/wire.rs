//! The wire format as mathematics: what a byte sequence decodes to, and the
//! canonical bytes of a value.
use crate::value::{DecodeError, Frame};
use vstd::prelude::*;
use vstd::utf8::*;

verus! {

pub const CR: u8 = 13;

pub const LF: u8 = 10;

pub const SIMPLE_MARKER: u8 = 43;

pub const BULK_MARKER: u8 = 36;

pub const ARRAY_MARKER: u8 = 42;

pub const PLUS_SIGN: u8 = 43;

/// `b[i]`, `b[i + 1]` is a terminator.
pub open spec fn crlf_at(b: Seq<u8>, i: int) -> bool {
    0 <= i && i + 1 < b.len() && b[i] == CR && b[i + 1] == LF
}

/// `i` is the position of the first terminator in `b`.
pub open spec fn is_line_end(b: Seq<u8>, i: int) -> bool {
    crlf_at(b, i) && forall|j: int| 0 <= j < i ==> !crlf_at(b, j)
}

/// `b` holds a complete line.
pub open spec fn has_line(b: Seq<u8>) -> bool {
    exists|i: int| is_line_end(b, i)
}

/// The length of the first line of `b`, without its terminator.
pub open spec fn line_len(b: Seq<u8>) -> int {
    choose|i: int| is_line_end(b, i)
}

/// The suffix of `b` after its first `k` bytes; empty when `b` is shorter.
pub open spec fn rest_after(b: Seq<u8>, k: nat) -> Seq<u8> {
    if k <= b.len() {
        b.skip(k as int)
    } else {
        Seq::empty()
    }
}

pub open spec fn is_digit(c: u8) -> bool {
    48 <= c <= 57
}

pub open spec fn all_digits(s: Seq<u8>) -> bool {
    forall|i: int| 0 <= i < s.len() ==> is_digit(#[trigger] s[i])
}

/// The number that a sequence of decimal digits denotes.
pub open spec fn digits_value(s: Seq<u8>) -> nat
    decreases s.len(),
{
    if s.len() == 0 {
        0
    } else {
        digits_value(s.drop_last()) * 10 + (s.last() - 48) as nat
    }
}

/// `s` without one leading `+`, if it has one.
pub open spec fn unsigned_digits(s: Seq<u8>) -> Seq<u8> {
    if s.len() > 0 && s[0] == PLUS_SIGN {
        s.drop_first()
    } else {
        s
    }
}

/// A length or count prefix: an optional `+` followed by one or more decimal
/// digits, whose value fits in `usize`.
pub open spec fn parse_count(s: Seq<u8>) -> Option<nat> {
    let d = unsigned_digits(s);
    if d.len() > 0 && all_digits(d) && digits_value(d) <= usize::MAX {
        Some(digits_value(d))
    } else {
        None
    }
}

/// Decodes the UTF-8 text `b`, or fails.
pub open spec fn text_of(b: Seq<u8>) -> Result<Seq<char>, DecodeError> {
    if valid_utf8(b) {
        Ok(decode_utf8(b))
    } else {
        Err(DecodeError::InvalidUtf8)
    }
}

/// `r` with one more byte taken before it.
pub open spec fn after_marker(r: Result<(Frame, nat), DecodeError>) -> Result<(Frame, nat), DecodeError> {
    match r {
        Ok((f, k)) => Ok((f, k + 1)),
        Err(e) => Err(e),
    }
}

/// What decoding one value at the start of `b` gives: the value and the
/// number of bytes it takes, or the error.
pub open spec fn parse_frame(b: Seq<u8>) -> Result<(Frame, nat), DecodeError>
    decreases b.len(), 0nat, 1nat,
{
    if b.len() == 0 {
        Err(DecodeError::Truncated)
    } else if b[0] == SIMPLE_MARKER {
        after_marker(parse_simple(b.skip(1)))
    } else if b[0] == BULK_MARKER {
        after_marker(parse_bulk(b.skip(1)))
    } else if b[0] == ARRAY_MARKER {
        after_marker(parse_array(b.skip(1)))
    } else {
        Err(DecodeError::InvalidMarker(b[0]))
    }
}

/// A simple string after its marker: text up to the first terminator.
pub open spec fn parse_simple(body: Seq<u8>) -> Result<(Frame, nat), DecodeError> {
    if !has_line(body) {
        Err(DecodeError::Truncated)
    } else {
        match text_of(body.take(line_len(body))) {
            Ok(s) => Ok((Frame::Simple(s), (line_len(body) + 2) as nat)),
            Err(e) => Err(e),
        }
    }
}

/// A length or count line: the number and the bytes the line takes.
pub open spec fn parse_header(body: Seq<u8>) -> Result<(nat, nat), DecodeError> {
    if !has_line(body) {
        Err(DecodeError::Truncated)
    } else {
        match parse_count(body.take(line_len(body))) {
            None => Err(DecodeError::InvalidLength),
            Some(n) => Ok((n, (line_len(body) + 2) as nat)),
        }
    }
}

/// A bulk string after its marker. The two bytes after the payload are
/// skipped without being checked.
pub open spec fn parse_bulk(body: Seq<u8>) -> Result<(Frame, nat), DecodeError> {
    match parse_header(body) {
        Err(e) => Err(e),
        Ok((n, k)) => {
            let after = rest_after(body, k);
            if after.len() < n + 2 {
                Err(DecodeError::Truncated)
            } else {
                match text_of(after.take(n as int)) {
                    Ok(s) => Ok((Frame::Bulk(s), k + n + 2)),
                    Err(e) => Err(e),
                }
            }
        },
    }
}

/// An array after its marker: the count, then that many values.
pub open spec fn parse_array(body: Seq<u8>) -> Result<(Frame, nat), DecodeError>
    decreases body.len() + 1, 0nat, 0nat,
{
    match parse_header(body) {
        Err(e) => Err(e),
        Ok((n, k)) => match parse_frames(rest_after(body, k), n) {
            Ok((fs, k2)) => Ok((Frame::Array(fs), k + k2)),
            Err(e) => Err(e),
        },
    }
}

/// What decoding `n` values one after another at the start of `b` gives.
pub open spec fn parse_frames(b: Seq<u8>, n: nat) -> Result<(Seq<Frame>, nat), DecodeError>
    decreases b.len(), n, 2nat,
{
    if n == 0 {
        Ok((Seq::empty(), 0))
    } else {
        match parse_frame(b) {
            Err(e) => Err(e),
            Ok((f, k)) => match parse_frames(rest_after(b, k), (n - 1) as nat) {
                Err(e) => Err(e),
                Ok((fs, k2)) => Ok((seq![f] + fs, k + k2)),
            },
        }
    }
}

/// The decimal digits of `n`, most significant first.
pub open spec fn decimal(n: nat) -> Seq<u8>
    decreases n,
{
    if n < 10 {
        seq![(48 + n) as u8]
    } else {
        decimal(n / 10).push((48 + n % 10) as u8)
    }
}

pub open spec fn crlf() -> Seq<u8> {
    seq![CR, LF]
}

/// The canonical bytes of a value.
pub open spec fn wire(f: Frame) -> Seq<u8>
    decreases f,
{
    match f {
        Frame::Simple(s) => seq![SIMPLE_MARKER] + encode_utf8(s) + crlf(),
        Frame::Bulk(s) => seq![BULK_MARKER] + decimal(encode_utf8(s).len()) + crlf() + encode_utf8(s)
            + crlf(),
        Frame::Array(fs) => seq![ARRAY_MARKER] + decimal(fs.len()) + crlf() + wire_all(fs),
    }
}

/// The canonical bytes of a sequence of values, one after another.
pub open spec fn wire_all(fs: Seq<Frame>) -> Seq<u8>
    decreases fs,
{
    if fs.len() == 0 {
        Seq::empty()
    } else {
        wire(fs[0]) + wire_all(fs.drop_first())
    }
}

/// A value that its canonical bytes can carry: no simple string holds a
/// terminator, and every length and count fits in `usize`.
pub open spec fn well_formed(f: Frame) -> bool
    decreases f,
{
    match f {
        Frame::Simple(s) => forall|i: int| !crlf_at(encode_utf8(s), i),
        Frame::Bulk(s) => encode_utf8(s).len() <= usize::MAX,
        Frame::Array(fs) => fs.len() <= usize::MAX && forall|i: int|
            0 <= i < fs.len() ==> well_formed(#[trigger] fs[i]),
    }
}

} // verus!
