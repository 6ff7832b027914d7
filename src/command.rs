//! Answering decoded values: each top-level value is an array of bulk-string
//! commands, and `PING`, in any case, is answered with `+PONG\r\n`.
use crate::value::{DecodeError, RespValue};
use vstd::prelude::*;
use vstd::string::StrSliceExecFns;

verus! {

/// What `str::to_uppercase` gives for a text.
pub uninterp spec fn upper_of(s: Seq<char>) -> Seq<char>;

/// Relies on `str::to_uppercase`: the result depends on the characters
/// alone.
#[verifier::external_body]
fn uppercase(s: &str) -> (r: String)
    ensures
        r@ == upper_of(s@),
{
    s.to_uppercase()
}

/// The bytes of the reply `+PONG\r\n`.
pub open spec fn pong() -> Seq<u8> {
    seq![43u8, 80u8, 79u8, 78u8, 71u8, 13u8, 10u8]
}

/// The reply to a command whose name, upper-cased, is `upper`: `+PONG\r\n`
/// to `PING`, nothing to any other.
pub open spec fn reply_spec(upper: Seq<char>) -> Option<Seq<u8>> {
    if upper == seq!['P', 'I', 'N', 'G'] {
        Some(pong())
    } else {
        None
    }
}

/// The model of an optional reply.
pub open spec fn reply_view(r: Option<Vec<u8>>) -> Option<Seq<u8>> {
    match r {
        Some(b) => Some(b@),
        None => None,
    }
}

/// The reply to a command whose upper-cased name is `upper`.
pub fn reply_for(upper: &str) -> (r: Option<Vec<u8>>)
    ensures
        reply_view(r) == reply_spec(upper@),
{
    let ghost ping = seq!['P', 'I', 'N', 'G'];
    let is_ping = upper.unicode_len() == 4 && upper.get_char(0) == 'P' && upper.get_char(1) == 'I'
        && upper.get_char(2) == 'N' && upper.get_char(3) == 'G';
    if is_ping {
        assert(upper@ =~= ping);
        let mut out: Vec<u8> = Vec::new();
        out.push(43);
        out.push(80);
        out.push(79);
        out.push(78);
        out.push(71);
        out.push(13);
        out.push(10);
        assert(out@ =~= pong());
        Some(out)
    } else {
        assert(upper@ != ping ==> reply_spec(upper@) is None);
        assert(upper@ == ping ==> upper@.len() == 4 && upper@[0] == 'P' && upper@[1] == 'I'
            && upper@[2] == 'N' && upper@[3] == 'G');
        None
    }
}

/// The reply to the command `cmd`, whose name is compared without regard
/// to case.
pub fn process_command(cmd: &str) -> (r: Option<Vec<u8>>)
    ensures
        reply_view(r) == reply_spec(upper_of(cmd@)),
{
    let upper = uppercase(cmd);
    reply_for(upper.as_str())
}

/// Why a decoded value cannot be taken as commands.
#[derive(Debug, Clone, Copy, PartialEq, Eq, Structural)]
pub enum ProtocolError {
    /// The top-level value is not an array.
    NotAnArray,
    /// An element of the top-level array is not a bulk string.
    NotABulkString,
}

/// The bytes to send back for a value, and the violation that ends the
/// connection, if any. Replies to the commands before a violation are sent.
pub struct Response {
    pub output: Vec<u8>,
    pub error: Option<ProtocolError>,
}

/// The bytes of a reply, if there is one.
pub open spec fn reply_bytes(upper: Seq<char>) -> Seq<u8> {
    match reply_spec(upper) {
        Some(b) => b,
        None => Seq::empty(),
    }
}

/// The replies to the commands `items`, in order, up to the first element
/// that is not a bulk string.
pub open spec fn replies(items: Seq<RespValue>) -> (Seq<u8>, Option<ProtocolError>)
    decreases items.len(),
{
    if items.len() == 0 {
        (Seq::empty(), None)
    } else {
        match items[0] {
            RespValue::BulkString(s) => {
                let (o, e) = replies(items.drop_first());
                (reply_bytes(upper_of(s@)) + o, e)
            },
            _ => (Seq::empty(), Some(ProtocolError::NotABulkString)),
        }
    }
}

/// What answering `v` gives: the bytes to send back and the violation, if any.
pub open spec fn response_spec(v: RespValue) -> (Seq<u8>, Option<ProtocolError>) {
    match v {
        RespValue::Array(items) => replies(items@),
        _ => (Seq::empty(), Some(ProtocolError::NotAnArray)),
    }
}

/// Answers one decoded top-level value.
pub fn respond(value: &RespValue) -> (r: Response)
    ensures
        (r.output@, r.error) == response_spec(*value),
{
    match value {
        RespValue::Array(items) => {
            let mut out: Vec<u8> = Vec::new();
            let mut i: usize = 0;
            assert(items@.skip(0) =~= items@);
            while i < items.len()
                invariant
                    i <= items@.len(),
                    *value == RespValue::Array(*items),
                    replies(items@) == (out@ + replies(items@.skip(i as int)).0, replies(
                        items@.skip(i as int),
                    ).1),
                decreases items@.len() - i,
            {
                let ghost tail = items@.skip(i as int);
                assert(tail[0] == items@[i as int]);
                assert(tail.drop_first() =~= items@.skip(i + 1));
                match &items[i] {
                    RespValue::BulkString(cmd) => {
                        let ghost before = out@;
                        match process_command(cmd.as_str()) {
                            Some(reply) => {
                                let mut j: usize = 0;
                                while j < reply.len()
                                    invariant
                                        j <= reply@.len(),
                                        out@ == before + reply@.take(j as int),
                                    decreases reply@.len() - j,
                                {
                                    out.push(reply[j]);
                                    assert(reply@.take(j + 1) =~= reply@.take(j as int).push(
                                        reply@[j as int],
                                    ));
                                    j = j + 1;
                                }
                                assert(reply@.take(j as int) =~= reply@);
                            },
                            None => {
                                assert(out@ =~= before + Seq::<u8>::empty());
                            },
                        }
                        let ghost rest = replies(items@.skip(i + 1));
                        assert(before + (reply_bytes(upper_of(cmd@)) + rest.0) =~= out@ + rest.0);
                    },
                    _ => {
                        assert(out@ + Seq::<u8>::empty() =~= out@);
                        return Response { output: out, error: Some(ProtocolError::NotABulkString) };
                    },
                }
                i = i + 1;
            }
            assert(out@ + Seq::<u8>::empty() =~= out@);
            Response { output: out, error: None }
        },
        _ => Response { output: Vec::new(), error: Some(ProtocolError::NotAnArray) },
    }
}

/// What a connection does next.
#[derive(Debug, Clone, Copy, PartialEq, Eq, Structural)]
pub enum Step {
    /// Decode the next value from the bytes held.
    Continue,
    /// Wait for more bytes before decoding again.
    NeedInput,
    /// The peer closed the stream between values: end without error.
    Finished,
    /// End the connection with this decode error.
    DecodeFailed(DecodeError),
    /// End the connection with this protocol violation.
    ProtocolFailed(ProtocolError),
}

/// The bytes to send back and what to do next.
pub struct Action {
    pub output: Vec<u8>,
    pub step: Step,
}

/// What a connection does with the outcome of one decode attempt, given
/// whether the peer has closed the stream.
pub open spec fn action_spec(decoded: Option<Result<RespValue, DecodeError>>, closed: bool) -> (
    Seq<u8>,
    Step,
) {
    match decoded {
        None => (Seq::empty(), if closed {
            Step::Finished
        } else {
            Step::NeedInput
        }),
        Some(Err(DecodeError::Truncated)) => (Seq::empty(), if closed {
            Step::DecodeFailed(DecodeError::Truncated)
        } else {
            Step::NeedInput
        }),
        Some(Err(e)) => (Seq::empty(), Step::DecodeFailed(e)),
        Some(Ok(v)) => {
            let (o, e) = response_spec(v);
            (o, match e {
                Some(p) => Step::ProtocolFailed(p),
                None => Step::Continue,
            })
        },
    }
}

/// Decides what a connection does with the outcome of one decode attempt.
///
/// A stream that ends between values ends the connection cleanly; one
/// that ends inside a value, or holds a malformed value or a value that is
/// not an array of bulk-string commands, ends it with that error.
pub fn next_action(decoded: Option<Result<RespValue, DecodeError>>, closed: bool) -> (r: Action)
    ensures
        (r.output@, r.step) == action_spec(decoded, closed),
{
    match decoded {
        None => Action {
            output: Vec::new(),
            step: if closed {
                Step::Finished
            } else {
                Step::NeedInput
            },
        },
        Some(Err(DecodeError::Truncated)) => Action {
            output: Vec::new(),
            step: if closed {
                Step::DecodeFailed(DecodeError::Truncated)
            } else {
                Step::NeedInput
            },
        },
        Some(Err(e)) => Action { output: Vec::new(), step: Step::DecodeFailed(e) },
        Some(Ok(v)) => {
            let resp = respond(&v);
            let step = match resp.error {
                Some(p) => Step::ProtocolFailed(p),
                None => Step::Continue,
            };
            Action { output: resp.output, step }
        },
    }
}

} // verus!
