//! The canonical bytes of a value.
use crate::value::{frames_of, lemma_array_view, Frame, RespValue};
use crate::wire::{crlf, decimal, wire, wire_all, ARRAY_MARKER, BULK_MARKER, CR, LF, SIMPLE_MARKER};
use vstd::prelude::*;

verus! {

/// The bytes of values put one after another are those of the shorter
/// sequence, then those of the last value.
pub proof fn lemma_wire_all_push(fs: Seq<Frame>, f: Frame)
    ensures
        wire_all(fs.push(f)) == wire_all(fs) + wire(f),
    decreases fs.len(),
{
    if fs.len() == 0 {
        assert(fs.push(f).drop_first() =~= Seq::<Frame>::empty());
        assert(wire_all(fs.push(f)) =~= wire(f) + wire_all(Seq::<Frame>::empty()));
        assert(wire_all(fs) + wire(f) =~= wire(f));
    } else {
        assert(fs.push(f).drop_first() =~= fs.drop_first().push(f));
        lemma_wire_all_push(fs.drop_first(), f);
        assert(wire_all(fs.push(f)) =~= wire(fs[0]) + (wire_all(fs.drop_first()) + wire(f)));
    }
}

fn push_bytes(out: &mut Vec<u8>, bytes: &[u8])
    ensures
        final(out)@ == old(out)@ + bytes@,
{
    let mut i: usize = 0;
    while i < bytes.len()
        invariant
            i <= bytes@.len(),
            out@ == old(out)@ + bytes@.take(i as int),
        decreases bytes@.len() - i,
    {
        out.push(bytes[i]);
        assert(bytes@.take(i + 1) =~= bytes@.take(i as int).push(bytes@[i as int]));
        i = i + 1;
    }
    assert(bytes@.take(i as int) =~= bytes@);
}

fn push_decimal(out: &mut Vec<u8>, n: usize)
    ensures
        final(out)@ == old(out)@ + decimal(n as nat),
    decreases n,
{
    if n >= 10 {
        push_decimal(out, n / 10);
    }
    out.push(48 + (n % 10) as u8);
    assert(final(out)@ =~= old(out)@ + decimal(n as nat));
}

fn push_crlf(out: &mut Vec<u8>)
    ensures
        final(out)@ == old(out)@ + crlf(),
{
    out.push(CR);
    out.push(LF);
    assert(final(out)@ =~= old(out)@ + crlf());
}

/// Appends the canonical bytes of `v` to `out`.
fn encode_into(v: &RespValue, out: &mut Vec<u8>)
    ensures
        final(out)@ == old(out)@ + wire(v@),
    decreases v,
{
    match v {
        RespValue::SimpleString(s) => {
            out.push(SIMPLE_MARKER);
            push_bytes(out, s.as_str().as_bytes());
            push_crlf(out);
            assert(final(out)@ =~= old(out)@ + wire(v@));
        },
        RespValue::BulkString(s) => {
            let bytes = s.as_str().as_bytes();
            out.push(BULK_MARKER);
            push_decimal(out, bytes.len());
            push_crlf(out);
            push_bytes(out, bytes);
            push_crlf(out);
            assert(final(out)@ =~= old(out)@ + wire(v@));
        },
        RespValue::Array(vs) => {
            proof {
                lemma_array_view(*vs);
            }
            let ghost fs = frames_of(vs@);
            out.push(ARRAY_MARKER);
            push_decimal(out, vs.len());
            push_crlf(out);
            let ghost head = out@;
            assert(fs.take(0) =~= Seq::<Frame>::empty());
            assert(head + wire_all(fs.take(0)) =~= head);
            let mut i: usize = 0;
            while i < vs.len()
                invariant
                    i <= vs@.len(),
                    *v == RespValue::Array(*vs),
                    fs == frames_of(vs@),
                    out@ == head + wire_all(fs.take(i as int)),
                decreases vs@.len() - i,
            {
                proof {
                    let w = *v;
                    assert(decreases_to!(w => w->Array_0));
                    vstd::std_specs::vec::axiom_vec_index_decreases(w->Array_0, i as int);
                }
                encode_into(&vs[i], out);
                proof {
                    assert(fs.take(i + 1) =~= fs.take(i as int).push(fs[i as int]));
                    lemma_wire_all_push(fs.take(i as int), fs[i as int]);
                }
                i = i + 1;
            }
            assert(fs.take(i as int) =~= fs);
            assert(final(out)@ =~= old(out)@ + wire(v@));
        },
    }
}

/// The canonical bytes of `v`: the marker, the length or count line where
/// there is one, then the payload or the elements.
pub fn encode(v: &RespValue) -> (r: Vec<u8>)
    ensures
        r@ == wire(v@),
{
    let mut out: Vec<u8> = Vec::new();
    encode_into(v, &mut out);
    assert(out@ =~= wire(v@));
    out
}

} // verus!
