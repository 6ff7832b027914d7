//! Decoding values from bytes, one value at a time.
use crate::value::{frames_of, lemma_array_view, DecodeError, Frame, RespValue};
use crate::wire::{
    crlf_at, has_line, is_line_end, line_len, parse_array, parse_bulk, parse_count, parse_frame,
    parse_frames, parse_header, parse_simple, rest_after, text_of, unsigned_digits,
    all_digits, digits_value, is_digit, ARRAY_MARKER, BULK_MARKER, CR, LF, PLUS_SIGN, SIMPLE_MARKER,
};
use vstd::prelude::*;
use vstd::utf8::*;

verus! {

/// Relies on `String::from_utf8`: it succeeds exactly on valid UTF-8, with
/// the characters that the bytes encode.
#[verifier::external_body]
fn string_from_utf8(b: Vec<u8>) -> (r: Option<String>)
    ensures
        match r {
            Some(s) => valid_utf8(b@) && s@ == decode_utf8(b@),
            None => !valid_utf8(b@),
        },
{
    String::from_utf8(b).ok()
}

/// Decodes `b` as UTF-8 text.
fn utf8_text(b: Vec<u8>) -> (r: Result<String, DecodeError>)
    ensures
        match r {
            Ok(s) => text_of(b@) == Ok::<Seq<char>, DecodeError>(s@),
            Err(e) => text_of(b@) == Err::<Seq<char>, DecodeError>(e),
        },
{
    match string_from_utf8(b) {
        Some(s) => Ok(s),
        None => Err(DecodeError::InvalidUtf8),
    }
}

/// The first line end in `b` is unique.
proof fn lemma_line_end_unique(b: Seq<u8>, i: int)
    requires
        is_line_end(b, i),
    ensures
        has_line(b),
        line_len(b) == i,
{
    let c = line_len(b);
    assert(is_line_end(b, c));
    if c < i {
        assert(crlf_at(b, c));
    } else if i < c {
        assert(crlf_at(b, i));
    }
}

/// Finds the first terminator at or after `start`.
fn find_line(buf: &[u8], start: usize) -> (r: Option<usize>)
    requires
        start <= buf@.len(),
    ensures
        match r {
            Some(i) => start <= i && i + 2 <= buf.len() && has_line(buf@.skip(start as int))
                && line_len(buf@.skip(start as int)) == i - start,
            None => !has_line(buf@.skip(start as int)),
        },
{
    let ghost b = buf@.skip(start as int);
    let mut i: usize = start;
    while i < buf.len()
        invariant
            start <= i <= buf@.len(),
            b == buf@.skip(start as int),
            forall|j: int| 0 <= j < i - start ==> !crlf_at(b, j),
        decreases buf@.len() - i,
    {
        if i + 1 < buf.len() && buf[i] == CR && buf[i + 1] == LF {
            proof {
                assert(crlf_at(b, i - start));
                lemma_line_end_unique(b, i - start);
            }
            return Some(i);
        }
        i = i + 1;
    }
    proof {
        if has_line(b) {
            let c = line_len(b);
            assert(crlf_at(b, c));
        }
    }
    None
}

/// A sequence of digits is worth at least any of its prefixes.
proof fn lemma_digits_prefix(s: Seq<u8>, k: int)
    requires
        0 <= k <= s.len(),
        all_digits(s),
    ensures
        digits_value(s.take(k)) <= digits_value(s),
    decreases s.len(),
{
    if k < s.len() {
        assert(s.drop_last().take(k) =~= s.take(k));
        lemma_digits_prefix(s.drop_last(), k);
    } else {
        assert(s.take(k) =~= s);
    }
}

/// Reads the count written in `buf[start..end]`.
fn parse_count_at(buf: &[u8], start: usize, end: usize) -> (r: Option<usize>)
    requires
        start <= end <= buf@.len(),
    ensures
        match r {
            Some(n) => parse_count(buf@.subrange(start as int, end as int)) == Some(n as nat),
            None => parse_count(buf@.subrange(start as int, end as int)) == None::<nat>,
        },
{
    let ghost s = buf@.subrange(start as int, end as int);
    let mut i: usize = start;
    if i < end && buf[i] == PLUS_SIGN {
        i = i + 1;
    }
    let first = i;
    let ghost d = buf@.subrange(first as int, end as int);
    assert(d =~= unsigned_digits(s));
    if i == end {
        assert(d.len() == 0);
        assert(parse_count(s) == None::<nat>);
        return None;
    }
    let mut acc: usize = 0;
    while i < end
        invariant
            start <= first <= i <= end <= buf@.len(),
            s == buf@.subrange(start as int, end as int),
            d == buf@.subrange(first as int, end as int),
            d == unsigned_digits(s),
            d.len() > 0,
            all_digits(d.take(i - first)),
            acc as nat == digits_value(d.take(i - first)),
        decreases end - i,
    {
        let c = buf[i];
        let ghost k = i - first;
        assert(d.take(k + 1).drop_last() =~= d.take(k));
        if c < 48 || c > 57 {
            assert(!is_digit(d[k]));
            assert(!all_digits(d));
            assert(parse_count(s) == None::<nat>);
            return None;
        }
        let digit = (c - 48) as usize;
        assert(digits_value(d.take(k + 1)) == acc * 10 + digit);
        let next = match acc.checked_mul(10) {
            None => None,
            Some(m) => m.checked_add(digit),
        };
        match next {
            None => {
                proof {
                    if all_digits(d) {
                        lemma_digits_prefix(d, k + 1);
                    }
                }
                return None;
            },
            Some(v) => {
                acc = v;
            },
        }
        i = i + 1;
    }
    assert(d.take(i - first) =~= d);
    Some(acc)
}

/// Copies `buf[start..end]`.
fn copy_range(buf: &[u8], start: usize, end: usize) -> (r: Vec<u8>)
    requires
        start <= end <= buf@.len(),
    ensures
        r@ == buf@.subrange(start as int, end as int),
{
    let mut out: Vec<u8> = Vec::new();
    let mut i: usize = start;
    while i < end
        invariant
            start <= i <= end <= buf@.len(),
            out@ == buf@.subrange(start as int, i as int),
        decreases end - i,
    {
        out.push(buf[i]);
        assert(out@ =~= buf@.subrange(start as int, i + 1));
        i = i + 1;
    }
    out
}

/// `r`, with `fs` put before its values and `k` added to its length.
pub open spec fn after_prefix(fs: Seq<Frame>, k: nat, r: Result<(Seq<Frame>, nat), DecodeError>) -> Result<
    (Seq<Frame>, nat),
    DecodeError,
> {
    match r {
        Ok((gs, k2)) => Ok((fs + gs, k + k2)),
        Err(e) => Err(e),
    }
}

/// The model of a decoding result.
pub open spec fn result_view(r: Result<(RespValue, usize), DecodeError>) -> Result<(Frame, nat), DecodeError> {
    match r {
        Ok((v, k)) => Ok((v@, k as nat)),
        Err(e) => Err(e),
    }
}

/// Decodes the value that starts at `buf[pos]`; on success also gives the
/// position just after it.
fn decode_at(buf: &[u8], pos: usize) -> (r: Result<(RespValue, usize), DecodeError>)
    requires
        pos <= buf@.len(),
    ensures
        match r {
            Ok((v, end)) => pos < end <= buf@.len() && parse_frame(buf@.skip(pos as int)) == Ok::<
                (Frame, nat),
                DecodeError,
            >((v@, (end - pos) as nat)),
            Err(e) => parse_frame(buf@.skip(pos as int)) == Err::<(Frame, nat), DecodeError>(e),
        },
    decreases buf@.len() - pos, 1nat,
{
    if pos >= buf.len() {
        return Err(DecodeError::Truncated);
    }
    let marker = buf[pos];
    let start = pos + 1;
    assert(buf@.skip(pos as int).skip(1) =~= buf@.skip(start as int));
    if marker == SIMPLE_MARKER {
        decode_simple_string(buf, start)
    } else if marker == BULK_MARKER {
        decode_bulk_string(buf, start)
    } else if marker == ARRAY_MARKER {
        decode_array(buf, start)
    } else {
        Err(DecodeError::InvalidMarker(marker))
    }
}

/// Decodes a simple string whose marker stands just before `buf[start]`.
fn decode_simple_string(buf: &[u8], start: usize) -> (r: Result<(RespValue, usize), DecodeError>)
    requires
        0 < start <= buf@.len(),
    ensures
        match r {
            Ok((v, end)) => start < end <= buf@.len() && parse_simple(buf@.skip(start as int)) == Ok::<
                (Frame, nat),
                DecodeError,
            >((v@, (end - start) as nat)),
            Err(e) => parse_simple(buf@.skip(start as int)) == Err::<(Frame, nat), DecodeError>(e),
        },
{
    let eol = match find_line(buf, start) {
        None => {
            return Err(DecodeError::Truncated);
        },
        Some(e) => e,
    };
    assert(buf@.skip(start as int).take(eol - start) =~= buf@.subrange(start as int, eol as int));
    let text = copy_range(buf, start, eol);
    match utf8_text(text) {
        Ok(s) => Ok((RespValue::SimpleString(s), eol + 2)),
        Err(e) => Err(e),
    }
}

/// Reads the length or count line that starts at `buf[start]`; gives the
/// number and the position after the line.
fn decode_header(buf: &[u8], start: usize) -> (r: Result<(usize, usize), DecodeError>)
    requires
        start <= buf@.len(),
    ensures
        match r {
            Ok((n, end)) => start < end <= buf@.len() && parse_header(buf@.skip(start as int)) == Ok::<
                (nat, nat),
                DecodeError,
            >((n as nat, (end - start) as nat)),
            Err(e) => parse_header(buf@.skip(start as int)) == Err::<(nat, nat), DecodeError>(e),
        },
{
    let eol = match find_line(buf, start) {
        None => {
            return Err(DecodeError::Truncated);
        },
        Some(e) => e,
    };
    assert(buf@.skip(start as int).take(eol - start) =~= buf@.subrange(start as int, eol as int));
    match parse_count_at(buf, start, eol) {
        None => Err(DecodeError::InvalidLength),
        Some(n) => Ok((n, eol + 2)),
    }
}

/// Decodes a bulk string whose marker stands just before `buf[start]`.
fn decode_bulk_string(buf: &[u8], start: usize) -> (r: Result<(RespValue, usize), DecodeError>)
    requires
        0 < start <= buf@.len(),
    ensures
        match r {
            Ok((v, end)) => start < end <= buf@.len() && parse_bulk(buf@.skip(start as int)) == Ok::<
                (Frame, nat),
                DecodeError,
            >((v@, (end - start) as nat)),
            Err(e) => parse_bulk(buf@.skip(start as int)) == Err::<(Frame, nat), DecodeError>(e),
        },
{
    let (n, next) = match decode_header(buf, start) {
        Err(e) => {
            return Err(e);
        },
        Ok(h) => h,
    };
    let ghost after = rest_after(buf@.skip(start as int), (next - start) as nat);
    assert(after =~= buf@.skip(next as int));
    if buf.len() - next < n || buf.len() - next - n < 2 {
        return Err(DecodeError::Truncated);
    }
    assert(after.take(n as int) =~= buf@.subrange(next as int, next + n));
    let text = copy_range(buf, next, next + n);
    match utf8_text(text) {
        Ok(s) => Ok((RespValue::BulkString(s), next + n + 2)),
        Err(e) => Err(e),
    }
}

/// Decodes an array whose marker stands just before `buf[start]`.
fn decode_array(buf: &[u8], start: usize) -> (r: Result<(RespValue, usize), DecodeError>)
    requires
        0 < start <= buf@.len(),
    ensures
        match r {
            Ok((v, end)) => start < end <= buf@.len() && parse_array(buf@.skip(start as int)) == Ok::<
                (Frame, nat),
                DecodeError,
            >((v@, (end - start) as nat)),
            Err(e) => parse_array(buf@.skip(start as int)) == Err::<(Frame, nat), DecodeError>(e),
        },
    decreases buf@.len() - start + 1, 0nat,
{
    let (n, next) = match decode_header(buf, start) {
        Err(e) => {
            return Err(e);
        },
        Ok(h) => h,
    };
    assert(rest_after(buf@.skip(start as int), (next - start) as nat) =~= buf@.skip(next as int));
    let mut items: Vec<RespValue> = Vec::new();
    let mut p: usize = next;
    let mut i: usize = 0;
    assert(frames_of(items@) + Seq::<Frame>::empty() =~= frames_of(items@));
    while i < n
        invariant
            start < next <= p <= buf@.len(),
            parse_header(buf@.skip(start as int)) == Ok::<(nat, nat), DecodeError>(
                (n as nat, (next - start) as nat),
            ),
            rest_after(buf@.skip(start as int), (next - start) as nat) == buf@.skip(next as int),
            i <= n,
            items@.len() == i,
            parse_frames(buf@.skip(next as int), n as nat) == after_prefix(
                frames_of(items@),
                (p - next) as nat,
                parse_frames(buf@.skip(p as int), (n - i) as nat),
            ),
        decreases n - i,
    {
        let ghost rest = buf@.skip(p as int);
        let ghost before = frames_of(items@);
        match decode_at(buf, p) {
            Ok((v, e)) => {
                assert(rest_after(rest, (e - p) as nat) =~= buf@.skip(e as int));
                let ghost f = v@;
                items.push(v);
                assert(frames_of(items@) =~= before.push(f));
                let ghost tail = parse_frames(buf@.skip(e as int), (n - i - 1) as nat);
                proof {
                    if tail is Ok {
                        let gs = tail->Ok_0.0;
                        assert(before + (seq![f] + gs) =~= before.push(f) + gs);
                    }
                }
                p = e;
            },
            Err(e) => {
                assert(parse_frames(rest, (n - i) as nat) == Err::<(Seq<Frame>, nat), DecodeError>(e));
                return Err(e);
            },
        }
        i = i + 1;
    }
    let ghost fs = frames_of(items@);
    assert(fs + Seq::<Frame>::empty() =~= fs);
    proof {
        lemma_array_view(items);
    }
    let r = RespValue::Array(items);
    Ok((r, p))
}

/// Decodes the value at the start of `input`, and gives the number of bytes
/// it takes.
pub fn decode(input: &[u8]) -> (r: Result<(RespValue, usize), DecodeError>)
    ensures
        result_view(r) == parse_frame(input@),
        r matches Ok((_, k)) ==> 0 < k <= input@.len(),
{
    assert(input@.skip(0) =~= input@);
    decode_at(input, 0)
}

} // verus!

verus! {

/// Decodes a stream of values from the bytes received so far. Bytes are
/// added as they arrive; each value is taken from the front once it is
/// complete.
pub struct Decoder {
    buffer: Vec<u8>,
    pos: usize,
}

impl View for Decoder {
    /// The bytes received and not yet taken by a decoded value.
    type V = Seq<u8>;

    closed spec fn view(&self) -> Seq<u8> {
        self.buffer@.skip(self.pos as int)
    }
}

impl Decoder {
    #[verifier::type_invariant]
    spec fn inv(&self) -> bool {
        self.pos <= self.buffer@.len()
    }

    /// A decoder over the bytes received so far.
    pub fn new(bytes: Vec<u8>) -> (r: Self)
        ensures
            r@ == bytes@,
    {
        let r = Decoder { buffer: bytes, pos: 0 };
        assert(r@ =~= bytes@);
        r
    }

    /// Adds bytes that arrived after those already held.
    pub fn feed(&mut self, bytes: &[u8])
        ensures
            final(self)@ == old(self)@ + bytes@,
    {
        proof {
            use_type_invariant(&*self);
        }
        let ghost unread = self@;
        let mut buffer: Vec<u8> = Vec::new();
        let mut i: usize = self.pos;
        while i < self.buffer.len()
            invariant
                self.pos <= i <= self.buffer@.len(),
                unread == self.buffer@.skip(self.pos as int),
                buffer@ == self.buffer@.subrange(self.pos as int, i as int),
            decreases self.buffer@.len() - i,
        {
            buffer.push(self.buffer[i]);
            assert(buffer@ =~= self.buffer@.subrange(self.pos as int, i + 1));
            i = i + 1;
        }
        let mut j: usize = 0;
        while j < bytes.len()
            invariant
                j <= bytes@.len(),
                buffer@ == unread + bytes@.take(j as int),
            decreases bytes@.len() - j,
        {
            buffer.push(bytes[j]);
            assert(bytes@.take(j + 1) =~= bytes@.take(j as int).push(bytes@[j as int]));
            j = j + 1;
        }
        assert(bytes@.take(j as int) =~= bytes@);
        *self = Decoder { buffer, pos: 0 };
        assert(self@ =~= unread + bytes@);
    }

    /// Decodes the next value.
    ///
    /// Gives `None` when no byte is held: the stream stands between values.
    /// Otherwise gives the value at the front and takes its bytes, or the
    /// error and takes nothing; `DecodeError::Truncated` then means that the
    /// value may still be completed by more bytes.
    pub fn next(&mut self) -> (r: Option<Result<RespValue, DecodeError>>)
        ensures
            old(self)@.len() == 0 ==> r is None && final(self)@ == old(self)@,
            old(self)@.len() > 0 ==> match parse_frame(old(self)@) {
                Ok((f, k)) => r matches Some(Ok(v)) && v@ == f && final(self)@ == old(self)@.skip(
                    k as int,
                ),
                Err(e) => r == Some(Err::<RespValue, DecodeError>(e)) && final(self)@ == old(self)@,
            },
    {
        proof {
            use_type_invariant(&*self);
        }
        if self.pos >= self.buffer.len() {
            return None;
        }
        match decode_at(self.buffer.as_slice(), self.pos) {
            Ok((v, end)) => {
                let ghost unread = self@;
                self.pos = end;
                assert(self@ =~= unread.skip(end - old(self).pos));
                Some(Ok(v))
            },
            Err(e) => Some(Err(e)),
        }
    }
}

} // verus!
