//! The byte-level model of the wire format.
//!
//! A frame is a 4-byte little-endian length header followed by exactly that
//! many payload bytes. These spec functions describe how a raw byte sequence
//! splits into complete frames and an incomplete remainder; the reader and
//! writer contracts are stated over them.

use vstd::bytes::{spec_u32_from_le_bytes, spec_u32_to_le_bytes};
use vstd::prelude::*;

verus! {

/// The number of bytes in the length header.
pub open spec fn header_size() -> int {
    4
}

/// The whole frame for a payload: the little-endian length header followed
/// by the payload bytes.
pub open spec fn frame_of(payload: Seq<u8>) -> Seq<u8> {
    spec_u32_to_le_bytes(payload.len() as u32) + payload
}

/// A payload fits in a frame when its length is representable in the header.
pub open spec fn payload_fits(payload: Seq<u8>) -> bool {
    payload.len() <= u32::MAX
}

/// The total size of the frame announced by the header at the start of `b`.
pub open spec fn frame_size(b: Seq<u8>) -> int
    recommends
        b.len() >= header_size(),
{
    header_size() + spec_u32_from_le_bytes(b.take(header_size()))
}

/// `b` starts with a complete frame: the whole header has arrived and the
/// announced number of payload bytes after it.
pub open spec fn frame_complete(b: Seq<u8>) -> bool {
    b.len() >= header_size() && b.len() >= frame_size(b)
}

/// The payload of the first frame of `b`.
pub open spec fn frame_payload(b: Seq<u8>) -> Seq<u8>
    recommends
        frame_complete(b),
{
    b.subrange(header_size(), frame_size(b))
}

/// The payloads of the complete frames at the start of `b`, in order.
pub open spec fn frames_of(b: Seq<u8>) -> Seq<Seq<u8>>
    decreases b.len(),
{
    if frame_complete(b) {
        seq![frame_payload(b)] + frames_of(b.skip(frame_size(b)))
    } else {
        Seq::empty()
    }
}

/// The incomplete remainder of `b` after every complete frame.
pub open spec fn rest_of(b: Seq<u8>) -> Seq<u8>
    decreases b.len(),
{
    if frame_complete(b) {
        rest_of(b.skip(frame_size(b)))
    } else {
        b
    }
}

/// A well-formed frame at the front of a byte sequence parses off as
/// exactly its payload, leaving the bytes after it.
pub proof fn lemma_frame_parse(p: Seq<u8>, b: Seq<u8>)
    requires
        payload_fits(p),
    ensures
        frames_of(frame_of(p) + b) == seq![p] + frames_of(b),
        rest_of(frame_of(p) + b) == rest_of(b),
{
    vstd::bytes::lemma_auto_spec_u32_to_from_le_bytes();
    let c = frame_of(p) + b;
    assert(c.take(header_size()) =~= spec_u32_to_le_bytes(p.len() as u32));
    assert(frame_size(c) == header_size() + p.len());
    assert(frame_complete(c));
    assert(frame_payload(c) =~= p);
    assert(c.skip(frame_size(c)) =~= b);
    assert(frames_of(c) =~= seq![p] + frames_of(b));
}

/// A byte sequence that is exactly one complete frame parses to that one
/// payload with nothing left over.
pub proof fn lemma_frames_of_exact(c: Seq<u8>)
    requires
        frame_complete(c),
        c.len() == frame_size(c),
    ensures
        frames_of(c) == seq![frame_payload(c)],
        rest_of(c) == Seq::<u8>::empty(),
{
    let tail = c.skip(frame_size(c));
    assert(tail =~= Seq::<u8>::empty());
    assert(!frame_complete(tail));
    assert(frames_of(tail) == Seq::<Seq<u8>>::empty());
    assert(rest_of(tail) == tail);
    assert(frames_of(c) =~= seq![frame_payload(c)]);
    assert(rest_of(c) =~= Seq::<u8>::empty());
}

/// The remainder never itself holds a complete frame.
pub proof fn lemma_rest_incomplete(b: Seq<u8>)
    ensures
        !frame_complete(rest_of(b)),
    decreases b.len(),
{
    if frame_complete(b) {
        lemma_rest_incomplete(b.skip(frame_size(b)));
    }
}

/// The header, and hence the first frame, of `a` is unchanged when more
/// bytes arrive after it.
pub proof fn lemma_frame_prefix_stable(a: Seq<u8>, b: Seq<u8>)
    requires
        a.len() >= header_size(),
    ensures
        frame_size(a + b) == frame_size(a),
        frame_complete(a) ==> frame_complete(a + b),
        frame_complete(a) ==> frame_payload(a + b) == frame_payload(a),
        frame_complete(a) ==> (a + b).skip(frame_size(a)) == a.skip(frame_size(a)) + b,
{
    assert((a + b).take(header_size()) == a.take(header_size()));
    if frame_complete(a) {
        assert(frame_payload(a + b) == frame_payload(a));
        assert((a + b).skip(frame_size(a)) == a.skip(frame_size(a)) + b);
    }
}

/// Byte-fragmentation invariance: delivering `a` and then `b` to the reader
/// decodes the same frames, in the same order, as delivering `a + b` at
/// once. Feeding `a` first yields `frames_of(a)` and leaves `rest_of(a)`
/// buffered, so the second delivery starts from `rest_of(a) + b`.
pub proof fn lemma_frames_chunking(a: Seq<u8>, b: Seq<u8>)
    ensures
        frames_of(a + b) == frames_of(a) + frames_of(rest_of(a) + b),
        rest_of(a + b) == rest_of(rest_of(a) + b),
    decreases a.len(),
{
    if frame_complete(a) {
        lemma_frame_prefix_stable(a, b);
        let a2 = a.skip(frame_size(a));
        lemma_frames_chunking(a2, b);
        assert(frames_of(a + b) =~= frames_of(a) + frames_of(rest_of(a) + b));
    } else {
        assert(rest_of(a) + b == a + b);
        assert(frames_of(a + b) =~= frames_of(a) + frames_of(rest_of(a) + b));
    }
}

} // verus!
