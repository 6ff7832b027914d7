//! What holds between the canonical bytes of values and decoding.
use crate::value::{DecodeError, Frame};
use crate::wire::{
    all_digits, crlf, crlf_at, decimal, digits_value, has_line, is_digit, is_line_end, line_len,
    parse_count, parse_frame, parse_frames, rest_after, text_of, unsigned_digits, well_formed, wire,
    wire_all, ARRAY_MARKER, BULK_MARKER,
};
use vstd::prelude::*;
use vstd::utf8::*;

verus! {

/// The decimal digits of `n` are a count prefix that reads back as `n`.
pub proof fn lemma_decimal(n: nat)
    ensures
        decimal(n).len() > 0,
        all_digits(decimal(n)),
        digits_value(decimal(n)) == n,
        n <= usize::MAX ==> parse_count(decimal(n)) == Some(n),
    decreases n,
{
    if n >= 10 {
        lemma_decimal(n / 10);
        assert(decimal(n).drop_last() =~= decimal(n / 10));
        assert(n == (n / 10) * 10 + n % 10) by (nonlinear_arith);
        let r = n % 10;
        assert(r < 10);
        assert(decimal(n).last() == (48 + r) as u8);
        assert(decimal(n).last() - 48 == r);
        assert(digits_value(decimal(n)) == digits_value(decimal(n / 10)) * 10 + r);
    } else {
        assert(decimal(n).drop_last() =~= Seq::<u8>::empty());
        assert(decimal(n).last() - 48 == n);
        assert(digits_value(decimal(n)) == digits_value(Seq::<u8>::empty()) * 10 + n);
    }
    assert(unsigned_digits(decimal(n)) == decimal(n));
}

/// A line with no terminator inside, then a terminator: the first line is
/// that text, and what follows the terminator is the rest.
pub proof fn lemma_line(text: Seq<u8>, rest: Seq<u8>)
    requires
        forall|i: int| !crlf_at(text, i),
    ensures
        has_line(text + crlf() + rest),
        line_len(text + crlf() + rest) == text.len(),
        (text + crlf() + rest).take(text.len() as int) == text,
        rest_after(text + crlf() + rest, text.len() + 2) == rest,
{
    let b = text + crlf() + rest;
    let n = text.len() as int;
    assert(crlf_at(b, n));
    assert forall|j: int| 0 <= j < n implies !crlf_at(b, j) by {
        if j + 1 < n {
            assert(!crlf_at(text, j));
        }
    }
    assert(is_line_end(b, n));
    let c = line_len(b);
    assert(is_line_end(b, c));
    if c < n {
        assert(crlf_at(b, c));
    } else if n < c {
        assert(crlf_at(b, n));
    }
    assert(b.take(n) =~= text);
    assert(rest_after(b, (n + 2) as nat) =~= rest);
}

/// Decimal digits hold no terminator.
proof fn lemma_digits_no_crlf(d: Seq<u8>)
    requires
        all_digits(d),
    ensures
        forall|i: int| !crlf_at(d, i),
{
    assert forall|i: int| !crlf_at(d, i) by {
        if 0 <= i < d.len() {
            assert(is_digit(d[i]));
        }
    }
}

/// The canonical bytes of a value decode to that value, whatever follows
/// them, and decoding takes exactly those bytes.
pub proof fn lemma_round_trip(f: Frame, rest: Seq<u8>)
    requires
        well_formed(f),
    ensures
        parse_frame(wire(f) + rest) == Ok::<(Frame, nat), DecodeError>((f, wire(f).len())),
    decreases f,
{
    let b = wire(f) + rest;
    match f {
        Frame::Simple(s) => {
            let enc = encode_utf8(s);
            encode_utf8_valid_utf8(s);
            encode_utf8_decode_utf8(s);
            assert(b.skip(1) =~= enc + crlf() + rest);
            lemma_line(enc, rest);
        },
        Frame::Bulk(s) => {
            let enc = encode_utf8(s);
            encode_utf8_valid_utf8(s);
            encode_utf8_decode_utf8(s);
            let d = decimal(enc.len());
            lemma_decimal(enc.len());
            lemma_digits_no_crlf(d);
            assert(b.skip(1) =~= d + crlf() + (enc + crlf() + rest));
            lemma_line(d, enc + crlf() + rest);
            assert((enc + crlf() + rest).take(enc.len() as int) =~= enc);
        },
        Frame::Array(fs) => {
            let d = decimal(fs.len());
            lemma_decimal(fs.len());
            lemma_digits_no_crlf(d);
            assert(b.skip(1) =~= d + crlf() + (wire_all(fs) + rest));
            lemma_line(d, wire_all(fs) + rest);
            lemma_round_trip_all(fs, rest);
        },
    }
}

/// The canonical bytes of a sequence of values decode, one value after
/// another, to those values, whatever follows them.
pub proof fn lemma_round_trip_all(fs: Seq<Frame>, rest: Seq<u8>)
    requires
        forall|i: int| 0 <= i < fs.len() ==> well_formed(#[trigger] fs[i]),
    ensures
        parse_frames(wire_all(fs) + rest, fs.len()) == Ok::<(Seq<Frame>, nat), DecodeError>(
            (fs, wire_all(fs).len()),
        ),
    decreases fs,
{
    if fs.len() == 0 {
        assert(fs =~= Seq::<Frame>::empty());
    } else {
        let tail = fs.drop_first();
        let b = wire_all(fs) + rest;
        assert(b =~= wire(fs[0]) + (wire_all(tail) + rest));
        lemma_round_trip(fs[0], wire_all(tail) + rest);
        assert(rest_after(b, wire(fs[0]).len()) =~= wire_all(tail) + rest);
        assert forall|i: int| 0 <= i < tail.len() implies well_formed(#[trigger] tail[i]) by {
            assert(tail[i] == fs[i + 1]);
        }
        lemma_round_trip_all(tail, rest);
        assert(seq![fs[0]] + tail =~= fs);
    }
}

/// A bulk string that declares `n` bytes takes the line, exactly `n`
/// payload bytes and the two bytes after them, whatever those two bytes
/// are; decoding the rest starts right after.
pub proof fn lemma_bulk_exact(payload: Seq<u8>, end: Seq<u8>, rest: Seq<u8>)
    requires
        payload.len() <= usize::MAX,
        end.len() == 2,
    ensures
        ({
            let head = seq![BULK_MARKER] + decimal(payload.len()) + crlf();
            let b = head + payload + end + rest;
            parse_frame(b) == match text_of(payload) {
                Ok(s) => Ok((Frame::Bulk(s), (head.len() + payload.len() + 2) as nat)),
                Err(e) => Err::<(Frame, nat), DecodeError>(e),
            } && rest_after(b, (head.len() + payload.len() + 2) as nat) == rest
        }),
{
    let head = seq![BULK_MARKER] + decimal(payload.len()) + crlf();
    let b = head + payload + end + rest;
    let d = decimal(payload.len());
    lemma_decimal(payload.len());
    lemma_digits_no_crlf(d);
    assert(b.skip(1) =~= d + crlf() + (payload + end + rest));
    lemma_line(d, payload + end + rest);
    assert((payload + end + rest).take(payload.len() as int) =~= payload);
    assert(rest_after(b, (head.len() + payload.len() + 2) as nat) =~= rest);
}

/// An array that declares `n` elements takes its line and then exactly
/// `n` values, one after another; decoding the rest starts right after them.
pub proof fn lemma_array_exact(n: nat, rest: Seq<u8>)
    requires
        n <= usize::MAX,
    ensures
        ({
            let head = seq![ARRAY_MARKER] + decimal(n) + crlf();
            parse_frame(head + rest) == match parse_frames(rest, n) {
                Ok((fs, k)) => Ok((Frame::Array(fs), head.len() + k)),
                Err(e) => Err::<(Frame, nat), DecodeError>(e),
            }
        }),
{
    let head = seq![ARRAY_MARKER] + decimal(n) + crlf();
    let b = head + rest;
    let d = decimal(n);
    lemma_decimal(n);
    lemma_digits_no_crlf(d);
    assert(b.skip(1) =~= d + crlf() + rest);
    lemma_line(d, rest);
}

} // verus!
