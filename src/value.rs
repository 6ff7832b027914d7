use vstd::prelude::*;

verus! {

/// A decoded protocol value.
#[derive(Debug, PartialEq, Eq)]
pub enum RespValue {
    SimpleString(String),
    BulkString(String),
    Array(Vec<RespValue>),
}

/// The mathematical model of a protocol value: texts as character sequences,
/// arrays as sequences of models.
pub enum Frame {
    Simple(Seq<char>),
    Bulk(Seq<char>),
    Array(Seq<Frame>),
}

impl View for RespValue {
    type V = Frame;

    open spec fn view(&self) -> Frame
        decreases self,
    {
        match self {
            RespValue::SimpleString(s) => Frame::Simple(s@),
            RespValue::BulkString(s) => Frame::Bulk(s@),
            RespValue::Array(vs) => Frame::Array(
                Seq::new(vs.len() as nat, |i: int| if 0 <= i < vs.len() { vs[i].view() } else { Frame::Array(seq![]) }),
            ),
        }
    }
}

/// The models of a sequence of values.
pub open spec fn frames_of(vs: Seq<RespValue>) -> Seq<Frame> {
    vs.map_values(|v: RespValue| v@)
}

/// The model of an array holds the models of its elements.
pub proof fn lemma_array_view(vs: Vec<RespValue>)
    ensures
        RespValue::Array(vs)@ == Frame::Array(frames_of(vs@)),
{
    let r = RespValue::Array(vs);
    let gs = r@->Array_0;
    assert(gs =~= frames_of(vs@));
}

/// Why a value could not be decoded.
#[derive(Debug, Clone, Copy, PartialEq, Eq, Structural)]
pub enum DecodeError {
    /// The input ended before the value was complete.
    Truncated,
    /// The first byte of a value is not a known type marker.
    InvalidMarker(u8),
    /// A length or count prefix is not a non-negative decimal integer that fits in `usize`.
    InvalidLength,
    /// A text payload is not valid UTF-8.
    InvalidUtf8,
}

} // verus!
