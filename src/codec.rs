//! The frame decoder and encoder. A frame is the varint length of its body
//! followed by the body; the decoder finds frames in a buffer that fills a
//! little at a time, and takes bytes out of it only once a whole varint or a
//! whole body is there.

use crate::buffer::{buffer_bytes, buffer_extend, buffer_len, buffer_split_to};
use crate::varint::{
    lemma_scan_bounded, lemma_scan_encoded, lemma_scan_encoded_prefix, lemma_scan_short, lemma_varint_bound_ten, prost_decode_varint,
    prost_encode_varint, varint_encode, varint_prefix, VarintScan, MAX_VARINT_LEN,
};
use vstd::prelude::*;

verus! {

/// Where the decoder stands between two calls.
#[derive(PartialEq, Eq, Structural, Clone, Copy, Debug)]
pub enum DecodeState {
    /// No length known yet: the next bytes are a varint.
    Head,
    /// A length was read: the next `len` bytes are the body.
    Body { len: u64 },
}

/// Why decoding stopped.
#[derive(PartialEq, Eq, Structural, Clone, Copy, Debug)]
pub enum DecodeError {
    /// The length prefix does not end within ten bytes, or its value does not
    /// fit in 64 bits.
    MalformedLength,
}

/// What one decode call reports.
pub enum Outcome {
    /// More bytes are needed.
    Waiting,
    /// A whole frame was found; this is its body.
    Frame(Seq<u8>),
    /// The length prefix is malformed.
    Malformed,
}

/// The decoder's state, the bytes left in the buffer, and the outcome, after
/// one decode call.
pub struct DecodeStep {
    pub state: DecodeState,
    pub rest: Seq<u8>,
    pub outcome: Outcome,
}

/// The wire form of one frame with body `body`.
pub open spec fn frame(body: Seq<u8>) -> Seq<u8> {
    varint_encode(body.len()) + body
}

/// A decode call with `len` body bytes expected.
pub open spec fn body_step(len: u64, buf: Seq<u8>) -> DecodeStep {
    if buf.len() < len {
        DecodeStep { state: DecodeState::Body { len }, rest: buf, outcome: Outcome::Waiting }
    } else {
        DecodeStep {
            state: DecodeState::Head,
            rest: buf.skip(len as int),
            outcome: Outcome::Frame(buf.take(len as int)),
        }
    }
}

/// One decode call from `state` on a buffer that holds `buf`. In `Head` a
/// whole varint is taken out and the call goes on at once with the body; an
/// unfinished varint leaves everything as it was.
pub open spec fn decode_step(state: DecodeState, buf: Seq<u8>) -> DecodeStep {
    match state {
        DecodeState::Head => match varint_prefix(buf) {
            VarintScan::Incomplete => DecodeStep {
                state: DecodeState::Head,
                rest: buf,
                outcome: Outcome::Waiting,
            },
            VarintScan::Malformed => DecodeStep {
                state: DecodeState::Head,
                rest: buf,
                outcome: Outcome::Malformed,
            },
            VarintScan::Complete { value, size } => body_step(value as u64, buf.skip(size as int)),
        },
        DecodeState::Body { len } => body_step(len, buf),
    }
}

/// An incremental frame decoder for one connection.
pub struct Decode {
    state: DecodeState,
}

impl View for Decode {
    type V = DecodeState;

    closed spec fn view(&self) -> DecodeState {
        self.state
    }
}

impl Default for Decode {
    fn default() -> (r: Self)
        ensures
            r@ == DecodeState::Head,
    {
        Decode { state: DecodeState::Head }
    }
}

impl Decode {
    /// Takes the next frame's body out of `src`, if the buffer holds all of it.
    /// After a body is handed out the decoder looks for a length again, so
    /// that a body its reader rejects leaves the stream at the next frame.
    pub fn decode(&mut self, src: &mut bytes::BytesMut) -> (r: Result<
        Option<bytes::BytesMut>,
        DecodeError,
    >)
        ensures
            ({
                let step = decode_step(old(self)@, buffer_bytes(*old(src)));
                &&& final(self)@ == step.state
                &&& buffer_bytes(*final(src)) == step.rest
                &&& match step.outcome {
                    Outcome::Waiting => r == Ok::<Option<bytes::BytesMut>, DecodeError>(None),
                    Outcome::Frame(body) => r matches Ok(Some(b)) && buffer_bytes(b) == body,
                    Outcome::Malformed => r == Err::<Option<bytes::BytesMut>, DecodeError>(
                        DecodeError::MalformedLength,
                    ),
                }
            }),
    {
        let len = match self.state {
            DecodeState::Head => {
                proof {
                    lemma_scan_bounded(buffer_bytes(*src), MAX_VARINT_LEN as nat);
                    lemma_scan_short(buffer_bytes(*src), MAX_VARINT_LEN as nat);
                    lemma_varint_bound_ten();
                }
                match prost_decode_varint(src) {
                    Some((len, left)) => {
                        let used = buffer_len(src) - left;
                        let _ = buffer_split_to(src, used);
                        self.state = DecodeState::Body { len };
                        len
                    },
                    None => {
                        if buffer_len(src) >= MAX_VARINT_LEN {
                            return Err(DecodeError::MalformedLength);
                        } else {
                            return Ok(None);
                        }
                    },
                }
            },
            DecodeState::Body { len } => len,
        };
        let n = buffer_len(src);
        if (n as u64) < len {
            Ok(None)
        } else {
            let body = buffer_split_to(src, len as usize);
            self.state = DecodeState::Head;
            Ok(Some(body))
        }
    }
}

/// A frame encoder; it keeps nothing between calls.
pub struct Encode {}

impl Default for Encode {
    fn default() -> (r: Self)
        ensures
            r == (Encode {}),
    {
        Encode {}
    }
}

impl Encode {
    /// Appends the frame of `body` to `dst`: the body's length as a varint,
    /// then the body. What `dst` held before stays as it was.
    pub fn encode(&mut self, body: &[u8], dst: &mut bytes::BytesMut)
        requires
            buffer_bytes(*old(dst)).len() + body@.len() + MAX_VARINT_LEN <= isize::MAX,
        ensures
            buffer_bytes(*final(dst)) == buffer_bytes(*old(dst)) + frame(body@),
    {
        proof {
            lemma_varint_bound_ten();
            lemma_scan_encoded(body@.len(), Seq::empty(), MAX_VARINT_LEN as nat);
        }
        prost_encode_varint(body.len() as u64, dst);
        buffer_extend(dst, body);
        proof {
            assert(buffer_bytes(*dst) =~= buffer_bytes(*old(dst)) + frame(body@));
        }
    }
}

/// Decoding the frame of any body, from `Head`, gives the body back at once
/// and leaves exactly the bytes that followed the frame.
pub proof fn lemma_round_trip(body: Seq<u8>, rest: Seq<u8>)
    requires
        body.len() <= usize::MAX,
    ensures
        decode_step(DecodeState::Head, frame(body) + rest) == (DecodeStep {
            state: DecodeState::Head,
            rest,
            outcome: Outcome::Frame(body),
        }),
{
    let len = body.len();
    lemma_varint_bound_ten();
    lemma_scan_encoded(len, body + rest, MAX_VARINT_LEN as nat);
    let s = frame(body) + rest;
    assert(s =~= varint_encode(len) + (body + rest));
    let after = s.skip(varint_encode(len).len() as int);
    assert(after =~= body + rest);
    assert(after.take(len as int) =~= body);
    assert(after.skip(len as int) =~= rest);
}

/// Two frames in one buffer come out one per call, in order, and nothing is
/// left after the second.
pub proof fn lemma_concatenated(b1: Seq<u8>, b2: Seq<u8>)
    requires
        b1.len() <= usize::MAX,
        b2.len() <= usize::MAX,
    ensures
        ({
            let first = decode_step(DecodeState::Head, frame(b1) + frame(b2));
            let second = decode_step(first.state, first.rest);
            &&& first.outcome == Outcome::Frame(b1)
            &&& second.outcome == Outcome::Frame(b2)
            &&& second.state == DecodeState::Head
            &&& second.rest.len() == 0
        }),
{
    lemma_round_trip(b1, frame(b2));
    lemma_round_trip(b2, Seq::empty());
    assert(frame(b2) + Seq::<u8>::empty() =~= frame(b2));
}

/// A call that asks for more bytes, made again on the buffer it left, asks
/// again and changes nothing.
pub proof fn lemma_waiting_is_stable(state: DecodeState, buf: Seq<u8>)
    requires
        decode_step(state, buf).outcome == Outcome::Waiting,
    ensures
        ({
            let step = decode_step(state, buf);
            decode_step(step.state, step.rest) == step
        }),
{
}

/// Feeds `input` to a decoder one byte per call: each byte is appended to the
/// buffer, then one decode call runs. Gives the state and the buffer at the
/// end, and the outcome of each call in order.
pub open spec fn decode_bytewise(state: DecodeState, buf: Seq<u8>, input: Seq<u8>) -> (
    DecodeState,
    Seq<u8>,
    Seq<Outcome>,
)
    decreases input.len(),
{
    if input.len() == 0 {
        (state, buf, Seq::empty())
    } else {
        let step = decode_step(state, buf.push(input[0]));
        let (s, b, outs) = decode_bytewise(step.state, step.rest, input.drop_first());
        (s, b, seq![step.outcome] + outs)
    }
}

/// Where a decoder stands after the first `i` bytes of the frame of `body`
/// came one per call.
spec fn fed_part(body: Seq<u8>, i: nat) -> (DecodeState, Seq<u8>) {
    let k = varint_encode(body.len()).len();
    if i < k {
        (DecodeState::Head, frame(body).take(i as int))
    } else {
        (DecodeState::Body { len: body.len() as u64 }, frame(body).subrange(k as int, i as int))
    }
}

/// From where the first `i` bytes left it, the rest of the frame fed one byte
/// per call finishes the frame on its last byte and on no earlier one.
proof fn lemma_bytewise_from(body: Seq<u8>, i: nat)
    requires
        body.len() <= usize::MAX,
        i < frame(body).len(),
    ensures
        ({
            let f = frame(body);
            let (s, b, outs) = decode_bytewise(fed_part(body, i).0, fed_part(body, i).1, f.skip(i as int));
            &&& s == DecodeState::Head
            &&& b.len() == 0
            &&& outs.len() == f.len() - i
            &&& forall|j: int| 0 <= j < f.len() - i - 1 ==> outs[j] == Outcome::Waiting
            &&& outs[f.len() - i - 1] == Outcome::Frame(body)
        }),
    decreases frame(body).len() - i,
{
    let f = frame(body);
    let n = f.len();
    let len = body.len();
    let enc = varint_encode(len);
    let k = enc.len();
    let (st, buf) = fed_part(body, i);
    lemma_varint_bound_ten();
    lemma_scan_encoded(len, Seq::empty(), MAX_VARINT_LEN as nat);
    let fed = buf.push(f[i as int]);
    let step = decode_step(st, fed);
    if i + 1 < k {
        assert(fed =~= enc.take((i + 1) as int));
        lemma_scan_encoded_prefix(len, (i + 1) as nat, MAX_VARINT_LEN as nat);
    } else if i + 1 == k {
        assert(fed =~= enc + Seq::empty());
        assert(fed.skip(k as int) =~= Seq::empty());
        assert(f.subrange(k as int, k as int) =~= Seq::empty());
        if len == 0 {
            assert(fed.skip(k as int).take(0) =~= body);
        }
    } else {
        assert(fed =~= f.subrange(k as int, (i + 1) as int));
        if i + 1 == n {
            assert(fed.take(len as int) =~= body);
            assert(fed.skip(len as int) =~= Seq::empty());
        }
    }
    let rest_in = f.skip(i as int);
    assert(rest_in[0] == f[i as int]);
    assert(rest_in.drop_first() =~= f.skip((i + 1) as int));
    let (s, b, outs) = decode_bytewise(step.state, step.rest, rest_in.drop_first());
    if i + 1 < n {
        assert(step.state == fed_part(body, (i + 1) as nat).0);
        assert(step.rest == fed_part(body, (i + 1) as nat).1);
        lemma_bytewise_from(body, (i + 1) as nat);
    }
    let whole = decode_bytewise(st, buf, rest_in);
    assert(whole == (s, b, seq![step.outcome] + outs));
    if i + 1 < n {
        assert forall|j: int| 0 <= j < n - i - 1 implies whole.2[j] == Outcome::Waiting by {
            if j > 0 {
                assert(whole.2[j] == outs[j - 1]);
            }
        }
        assert(whole.2[n - i - 1] == outs[n - i - 2]);
    }
}

/// Fed the frame of a body one byte per call, a decoder reports `Waiting` on
/// every call but the last, which gives the body and leaves the buffer empty.
pub proof fn lemma_byte_at_a_time(body: Seq<u8>)
    requires
        body.len() <= usize::MAX,
    ensures
        ({
            let f = frame(body);
            let (s, b, outs) = decode_bytewise(DecodeState::Head, Seq::empty(), f);
            &&& s == DecodeState::Head
            &&& b.len() == 0
            &&& outs.len() == f.len()
            &&& forall|j: int| 0 <= j < f.len() - 1 ==> outs[j] == Outcome::Waiting
            &&& outs[f.len() - 1] == Outcome::Frame(body)
        }),
{
    let f = frame(body);
    lemma_varint_bound_ten();
    lemma_scan_encoded(body.len(), Seq::empty(), MAX_VARINT_LEN as nat);
    assert(f.take(0) =~= Seq::<u8>::empty());
    assert(f.skip(0) =~= f);
    lemma_bytewise_from(body, 0);
}

} // verus!
