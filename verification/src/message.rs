//! The codec capability: how a typed value becomes payload bytes and back.

use crate::errors::CodecError;
use crate::wire::{frame_complete, frame_of, frames_of, rest_of};
use vstd::prelude::*;

verus! {

/// A value that a message codec can turn into payload bytes and back.
///
/// A message's abstract content is its [`View`]. The encoding is
/// deterministic and self-contained: `enc_of` gives the byte sequence a
/// content encodes to, and no two encodable contents share an encoding, so
/// decoding a payload produced by `encode` gives back a message with
/// exactly the content that was sent.
pub trait Message: View + Sized {
    /// The byte sequence this content encodes to.
    spec fn enc_of(v: Self::V) -> Seq<u8>;

    /// Whether this content is encodable at all.
    spec fn enc_ok_of(v: Self::V) -> bool;

    /// No two encodable contents share an encoding.
    proof fn enc_injective(a: Self::V, b: Self::V)
        requires
            Self::enc_ok_of(a),
            Self::enc_ok_of(b),
            Self::enc_of(a) == Self::enc_of(b),
        ensures
            a == b,
    ;

    /// Encode this value into payload bytes.
    fn encode(&self) -> (res: Result<Vec<u8>, CodecError>)
        ensures
            match res {
                Ok(bytes) => Self::enc_ok_of(self@) && bytes@ == Self::enc_of(self@),
                Err(_) => !Self::enc_ok_of(self@),
            },
    ;

    /// Decode a payload. Fails exactly when no encodable content encodes to
    /// `bytes`, so a hostile or corrupted peer yields an error, never a
    /// wrong value.
    fn decode(bytes: &[u8]) -> (res: Result<Self, CodecError>)
        ensures
            match res {
                Ok(m) => Self::enc_ok_of(m@) && Self::enc_of(m@) == bytes@,
                Err(_) => forall|v: Self::V|
                    (#[trigger] Self::enc_of(v)) != bytes@ || !Self::enc_ok_of(v),
            },
    ;
}

/// Some encodable content of `M` encodes to `payload`.
pub open spec fn decodable<M: Message>(payload: Seq<u8>) -> bool {
    exists|v: M::V| M::enc_ok_of(v) && M::enc_of(v) == payload
}

/// The content of `M` that `payload` decodes to, if any.
pub open spec fn dec<M: Message>(payload: Seq<u8>) -> Option<M::V> {
    if decodable::<M>(payload) {
        Some(choose|v: M::V| M::enc_ok_of(v) && M::enc_of(v) == payload)
    } else {
        None
    }
}

/// Decoding inverts encoding: the payload of an encodable content decodes
/// back to exactly that content.
pub proof fn lemma_dec_of_enc<M: Message>(v: M::V)
    requires
        M::enc_ok_of(v),
    ensures
        dec::<M>(M::enc_of(v)) == Some(v),
{
    assert(decodable::<M>(M::enc_of(v)));
    let picked = choose|p: M::V| M::enc_ok_of(p) && M::enc_of(p) == M::enc_of(v);
    M::enc_injective(v, picked);
}

/// The wire bytes of a message sequence: one frame per message, in order.
pub open spec fn wire_of<M: Message>(msgs: Seq<M>) -> Seq<u8>
    decreases msgs.len(),
{
    if msgs.len() == 0 {
        Seq::empty()
    } else {
        frame_of(M::enc_of(msgs[0]@)) + wire_of(msgs.skip(1))
    }
}

/// Appending one message to a sequence appends exactly its frame to the
/// wire bytes.
pub proof fn lemma_wire_of_push<M: Message>(msgs: Seq<M>, m: M)
    ensures
        wire_of(msgs.push(m)) == wire_of(msgs) + frame_of(M::enc_of(m@)),
    decreases msgs.len(),
{
    if msgs.len() == 0 {
        assert(msgs.push(m).skip(1) =~= Seq::<M>::empty());
        assert(msgs.push(m)[0] == m);
        assert(wire_of(Seq::<M>::empty()) == Seq::<u8>::empty());
        assert(wire_of(msgs.push(m)) =~= wire_of(msgs) + frame_of(M::enc_of(m@)));
    } else {
        assert(msgs.push(m).skip(1) =~= msgs.skip(1).push(m));
        lemma_wire_of_push(msgs.skip(1), m);
        assert(wire_of(msgs.push(m)) =~= wire_of(msgs) + frame_of(M::enc_of(m@)));
    }
}

/// Every message of the sequence is encodable and its payload length fits
/// the 4-byte length header.
pub open spec fn all_sendable<M: Message>(msgs: Seq<M>) -> bool {
    forall|i: int|
        0 <= i < msgs.len() ==> M::enc_ok_of((#[trigger] msgs[i])@) && M::enc_of(msgs[i]@).len()
            <= u32::MAX
}

/// Round trip: the frames parsed back from the wire bytes of a sendable
/// message sequence decode to exactly those messages' contents, in the same
/// order, with nothing left over — whatever fragmentation the bytes arrive
/// in, by [`crate::wire::lemma_frames_chunking`].
pub proof fn lemma_round_trip<M: Message>(msgs: Seq<M>)
    requires
        all_sendable(msgs),
    ensures
        frames_of(wire_of(msgs)).len() == msgs.len(),
        forall|i: int|
            0 <= i < msgs.len() ==> dec::<M>(#[trigger] frames_of(wire_of(msgs))[i]) == Some(
                msgs[i]@,
            ),
        rest_of(wire_of(msgs)) == Seq::<u8>::empty(),
    decreases msgs.len(),
{
    if msgs.len() == 0 {
        assert(!frame_complete(wire_of(msgs)));
    } else {
        let first = M::enc_of(msgs[0]@);
        let tail = msgs.skip(1);
        crate::wire::lemma_frame_parse(first, wire_of(tail));
        assert(all_sendable(tail)) by {
            assert(forall|i: int| 0 <= i < tail.len() ==> tail[i] == msgs[i + 1]);
        };
        lemma_round_trip(tail);
        lemma_dec_of_enc::<M>(msgs[0]@);
        assert forall|i: int| 0 <= i < msgs.len() implies dec::<M>(
            #[trigger] frames_of(wire_of(msgs))[i],
        ) == Some(msgs[i]@) by {
            if i > 0 {
                assert(frames_of(wire_of(msgs))[i] == frames_of(wire_of(tail))[i - 1]);
                assert(tail[i - 1] == msgs[i]);
            }
        };
    }
}

} // verus!
