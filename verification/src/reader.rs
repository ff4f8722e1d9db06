//! The incremental frame reader: a resumable state machine that accumulates
//! arbitrarily fragmented bytes into length-prefixed frames and decodes them.

use crate::errors::{IoError, RecvError};
use crate::message::{dec, decodable, Message};
use crate::stream::Stream;
use crate::wire::{frame_complete, frame_payload, frame_size, frames_of, header_size, rest_of};
use core::marker::PhantomData;
use vstd::bytes::{spec_u32_from_le_bytes, u32_from_le_bytes};
use vstd::prelude::*;
use vstd::slice::slice_subrange;

verus! {

/// The resumable accumulator for one incoming frame.
///
/// While the payload length is unknown, the buffer holds the header bytes
/// seen so far (fewer than four). Once the whole header has arrived, the
/// length is recorded and the buffer grows to hold header plus payload; the
/// occupancy counts all buffered bytes, header included. A completed frame
/// is decoded and consumed at once, so between calls the buffered bytes
/// never form a complete frame.
pub struct ReadState<M: Message> {
    buf: Vec<u8>,
    buf_occupancy: usize,
    payload_bytes: Option<u32>,
    phantom: PhantomData<M>,
}

/// One non-blocking receive attempt, abstractly: `pre` was buffered when the
/// attempt began, `got` is what it consumed from the stream, `post` is
/// buffered afterwards, and `res` is its outcome.
pub open spec fn recv_step<M: Message>(
    pre: Seq<u8>,
    got: Seq<u8>,
    post: Seq<u8>,
    res: Result<M, RecvError>,
) -> bool {
    let all = pre + got;
    if frame_complete(all) {
        &&& all.len() == frame_size(all)
        &&& post == Seq::<u8>::empty()
        &&& match res {
            Ok(m) => dec::<M>(frame_payload(all)) == Some(m@),
            Err(RecvError::CodecErr(_)) => dec::<M>(frame_payload(all)) is None,
            _ => false,
        }
    } else {
        &&& post == all
        &&& match res {
            Err(RecvError::NoBytes) => all.len() == 0,
            Err(RecvError::InsufficientBytes(n)) => n == all.len() && all.len() > 0,
            Err(RecvError::SocketErr(_)) => true,
            _ => false,
        }
    }
}

/// A logically blocking receive, abstractly: attempts are repeated until a
/// frame completes or the transport fails, so the informational outcomes
/// never surface.
pub open spec fn blocking_recv_post<M: Message>(
    pre: Seq<u8>,
    got: Seq<u8>,
    post: Seq<u8>,
    res: Result<M, RecvError>,
) -> bool {
    let all = pre + got;
    match res {
        Ok(m) => {
            &&& frame_complete(all)
            &&& all.len() == frame_size(all)
            &&& dec::<M>(frame_payload(all)) == Some(m@)
            &&& post == Seq::<u8>::empty()
        },
        Err(RecvError::CodecErr(_)) => {
            &&& frame_complete(all)
            &&& all.len() == frame_size(all)
            &&& dec::<M>(frame_payload(all)) is None
            &&& post == Seq::<u8>::empty()
        },
        Err(RecvError::SocketErr(_)) => {
            ||| !frame_complete(all) && post == all
            ||| frame_complete(all) && all.len() == frame_size(all) && post == Seq::<u8>::empty()
        },
        _ => false,
    }
}

/// `msgs` are exactly the decoded payloads of the complete frames of `b`.
pub open spec fn decodes_to<M: Message>(b: Seq<u8>, msgs: Seq<M>) -> bool {
    &&& msgs.len() == frames_of(b).len()
    &&& forall|i: int| 0 <= i < msgs.len() ==> dec::<M>(frames_of(b)[i]) == Some((#[trigger] msgs[i])@)
}

/// Every complete frame of `b` carries a decodable payload.
pub open spec fn all_frames_decodable<M: Message>(b: Seq<u8>) -> bool {
    forall|i: int|
        0 <= i < frames_of(b).len() ==> decodable::<M>(#[trigger] frames_of(b)[i])
}

/// A drain, abstractly: non-blocking attempts are repeated and every decoded
/// value collected, in arrival order, until no complete frame is available
/// or an error stops the run. A transport error mid-drain is swallowed; a
/// frame the codec rejects is discarded and ends the run.
pub open spec fn drain_post<M: Message>(
    pre: Seq<u8>,
    got: Seq<u8>,
    post: Seq<u8>,
    msgs: Seq<M>,
) -> bool {
    let all = pre + got;
    if all_frames_decodable::<M>(all) {
        &&& decodes_to::<M>(all, msgs)
        &&& post == rest_of(all)
    } else {
        &&& frames_of(all).len() == msgs.len() + 1
        &&& forall|i: int|
            0 <= i < msgs.len() ==> dec::<M>(frames_of(all)[i]) == Some((#[trigger] msgs[i])@)
        &&& !decodable::<M>(frames_of(all)[msgs.len() as int])
        &&& post == Seq::<u8>::empty()
        &&& rest_of(all) == Seq::<u8>::empty()
    }
}

impl<M: Message> ReadState<M> {
    /// The bytes of the current frame buffered so far, header bytes first.
    pub closed spec fn pending(&self) -> Seq<u8> {
        self.buf@.take(self.buf_occupancy as int)
    }

    /// The reader's invariant: the buffered bytes never form a complete
    /// frame, and once the whole header is in, the recorded payload length
    /// is the one the header announces.
    pub closed spec fn wf(&self) -> bool {
        &&& self.buf_occupancy <= self.buf@.len()
        &&& match self.payload_bytes {
            None => self.buf_occupancy < header_size(),
            Some(pb) => {
                &&& header_size() <= self.buf_occupancy
                &&& pb == spec_u32_from_le_bytes(self.buf@.take(header_size()))
                &&& self.buf_occupancy < header_size() + pb
            },
        }
    }

    /// A well-formed reader never sits on a complete frame.
    pub proof fn lemma_pending_incomplete(&self)
        requires
            self.wf(),
        ensures
            !frame_complete(self.pending()),
    {
        if self.payload_bytes is Some {
            assert(self.pending().take(header_size()) == self.buf@.take(header_size()));
        }
    }

    /// A fresh reader with nothing buffered.
    pub fn new() -> (res: ReadState<M>)
        ensures
            res.wf(),
            res.pending() == Seq::<u8>::empty(),
    {
        let state = ReadState {
            buf: Vec::new(),
            buf_occupancy: 0,
            payload_bytes: None,
            phantom: PhantomData,
        };
        proof {
            assert(state.pending() =~= Seq::<u8>::empty());
        }
        state
    }

    /// Grow or shrink the buffer to exactly `capacity` bytes, keeping every
    /// buffered byte.
    fn ensure_buf_capacity(&mut self, capacity: usize)
        requires
            old(self).buf_occupancy <= capacity,
            old(self).buf_occupancy <= old(self).buf@.len(),
        ensures
            final(self).buf@.len() == capacity,
            final(self).pending() == old(self).pending(),
            final(self).buf_occupancy == old(self).buf_occupancy,
            final(self).payload_bytes == old(self).payload_bytes,
    {
        let ghost pre = *self;
        self.buf.resize(capacity, 0u8);
        proof {
            assert(self.pending() =~= pre.pending());
        }
    }

    /// The count of currently buffered bytes of the frame in progress.
    pub fn current_buffer_size(&mut self) -> (res: usize)
        requires
            old(self).wf(),
        ensures
            *final(self) == *old(self),
            res == old(self).pending().len(),
    {
        proof {
            self.lemma_pending_incomplete();
        }
        self.buf_occupancy
    }

    /// Release the buffer's unused storage, keeping every buffered byte;
    /// returns the occupancy. Observable state is unchanged, so repeating
    /// this is always a safe no-op.
    pub fn squash_buffer(&mut self) -> (res: usize)
        requires
            old(self).wf(),
        ensures
            final(self).wf(),
            final(self).pending() == old(self).pending(),
            res == old(self).pending().len(),
    {
        let ghost pre = *self;
        self.buf.resize(self.buf_occupancy, 0u8);
        shrink_vec(&mut self.buf);
        proof {
            assert(self.pending() =~= pre.pending());
            if self.payload_bytes is Some {
                assert(self.buf@.take(header_size()) =~= pre.buf@.take(header_size()));
            }
        }
        self.buf_occupancy
    }

    /// Hand back the buffered bytes of the frame in progress, ending this
    /// reader's use.
    pub fn into_buffer(self) -> (res: Vec<u8>)
        requires
            self.wf(),
        ensures
            res@ == self.pending(),
    {
        proof {
            self.lemma_pending_incomplete();
        }
        let mut state = self;
        state.buf.resize(state.buf_occupancy, 0u8);
        proof {
            assert(state.buf@ =~= self.pending());
        }
        state.buf
    }

    /// Rebind the reader, with its allocated buffer, to a different message
    /// type. Buffered bytes of a frame in progress were framed under the old
    /// type, so the rebinding is only allowed while nothing is buffered.
    pub fn change_type<Q: Message>(self) -> (res: ReadState<Q>)
        requires
            self.wf(),
            self.pending().len() == 0,
        ensures
            res.wf(),
            res.pending() == Seq::<u8>::empty(),
    {
        let state = ReadState {
            buf: self.buf,
            buf_occupancy: self.buf_occupancy,
            payload_bytes: self.payload_bytes,
            phantom: PhantomData,
        };
        proof {
            assert(state.pending() =~= Seq::<u8>::empty());
        }
        state
    }

    /// One non-blocking receive attempt: pull bytes toward completing the
    /// header, then the payload; decode and consume a completed frame. The
    /// attempt never blocks and never discards buffered bytes, so it can be
    /// resumed after any outcome. A frame whose announced size exceeds what
    /// this host can address never completes and keeps reporting
    /// `InsufficientBytes`.
    pub fn try_recv<R: Stream>(&mut self, r: &mut R) -> (res: Result<M, RecvError>)
        requires
            old(self).wf(),
        ensures
            final(self).wf(),
            final(r).outbox() == old(r).outbox(),
            final(r).is_blocking() == old(r).is_blocking(),
            exists|k: int|
                {
                    &&& 0 <= k <= old(r).inbox().len()
                    &&& final(r).inbox() == old(r).inbox().skip(k)
                    &&& recv_step::<M>(
                        old(self).pending(),
                        old(r).inbox().take(k),
                        final(self).pending(),
                        res,
                    )
                },
            res matches Err(RecvError::NoBytes) ==> old(r).inbox().len() == 0,
    {
        let ghost pre = old(self).pending();
        let ghost inbox0 = r.inbox();
        let ghost mut consumed: int = 0;
        proof {
            assert(inbox0.take(0) =~= Seq::<u8>::empty());
            assert(inbox0.skip(0) =~= inbox0);
            assert(pre + inbox0.take(0) =~= pre);
        }

        if self.payload_bytes.is_none() {
            self.ensure_buf_capacity(4);
            if self.buf_occupancy < 4 {
                let start = self.buf_occupancy;
                match r.read(&mut self.buf, start, 4) {
                    Ok(n) => {
                        proof {
                            consumed = n as int;
                            assert(self.buf@.take(start + n as int) =~= pre + inbox0.take(
                                n as int,
                            ));
                        }
                        self.buf_occupancy = start + n;
                    },
                    Err(e) => {
                        proof {
                            assert(self.pending() =~= pre);
                            assert(recv_step::<M>(
                                pre,
                                inbox0.take(0),
                                self.pending(),
                                Result::<M, RecvError>::Err(RecvError::SocketErr(e)),
                            ));
                        }
                        return Err(RecvError::SocketErr(e));
                    },
                }
            }
            if self.buf_occupancy == 4 {
                let header = slice_subrange(self.buf.as_slice(), 0, 4);
                let pb = u32_from_le_bytes(header);
                proof {
                    assert(header@ =~= self.buf@.take(header_size()));
                }
                self.payload_bytes = Some(pb);
            }
        }

        // From here on: the buffered bytes are exactly the old ones plus
        // what the header phase consumed, and once the length is recorded
        // it is the one the buffered header announces.
        proof {
            assert(self.pending() =~= pre + inbox0.take(consumed));
            assert(r.inbox() =~= inbox0.skip(consumed));
            if self.payload_bytes is Some {
                assert(self.buf_occupancy >= 4);
                assert(self.pending().take(header_size()) =~= self.buf@.take(header_size()));
                assert(self.payload_bytes->0 == spec_u32_from_le_bytes(
                    self.buf@.take(header_size()),
                ));
            }
        }

        if let Some(pb) = self.payload_bytes {
            if (pb as u64) <= (usize::MAX as u64) - 4 {
                let buf_end: usize = 4 + (pb as usize);
                self.ensure_buf_capacity(buf_end);
                proof {
                    assert(self.pending().take(header_size()) =~= self.buf@.take(header_size()));
                    assert(pb == spec_u32_from_le_bytes(self.buf@.take(header_size())));
                }
                if self.buf_occupancy < buf_end {
                    let start = self.buf_occupancy;
                    let ghost inbox1 = r.inbox();
                    let ghost buf1 = self.buf@;
                    match r.read(&mut self.buf, start, buf_end) {
                        Ok(n) => {
                            proof {
                                assert(inbox0.take(consumed + n as int) =~= inbox0.take(consumed)
                                    + inbox1.take(n as int));
                                assert(self.buf@.take(start + n as int) =~= (pre + inbox0.take(
                                    consumed,
                                )) + inbox1.take(n as int));
                                assert(r.inbox() =~= inbox0.skip(consumed + n as int));
                                assert(self.buf@.take(header_size()) =~= buf1.take(header_size()));
                                consumed = consumed + n as int;
                            }
                            self.buf_occupancy = start + n;
                            proof {
                                assert(self.pending() =~= pre + inbox0.take(consumed));
                                assert(pb == spec_u32_from_le_bytes(
                                    self.buf@.take(header_size()),
                                ));
                                assert(self.pending().take(header_size()) =~= self.buf@.take(
                                    header_size(),
                                ));
                            }
                        },
                        Err(e) => {
                            proof {
                                let all = pre + inbox0.take(consumed);
                                assert(all.take(header_size()) =~= self.buf@.take(header_size()));
                                assert(all.len() < frame_size(all));
                                assert(recv_step::<M>(
                                    pre,
                                    inbox0.take(consumed),
                                    self.pending(),
                                    Result::<M, RecvError>::Err(RecvError::SocketErr(e)),
                                ));
                            }
                            return Err(RecvError::SocketErr(e));
                        },
                    }
                }
                if self.buf_occupancy == buf_end {
                    let ghost all = pre + inbox0.take(consumed);
                    proof {
                        assert(all =~= self.buf@.take(buf_end as int));
                        assert(all.take(header_size()) =~= self.buf@.take(header_size()));
                        assert(frame_size(all) == buf_end);
                        assert(frame_complete(all));
                        assert(frame_payload(all) =~= self.buf@.subrange(
                            header_size(),
                            buf_end as int,
                        ));
                    }
                    let payload = slice_subrange(self.buf.as_slice(), 4, buf_end);
                    let decoded = M::decode(payload);
                    self.buf_occupancy = 0;
                    self.payload_bytes = None;
                    proof {
                        assert(self.pending() =~= Seq::<u8>::empty());
                    }
                    match decoded {
                        Ok(m) => {
                            proof {
                                crate::message::lemma_dec_of_enc::<M>(m@);
                                assert(recv_step::<M>(
                                    pre,
                                    inbox0.take(consumed),
                                    self.pending(),
                                    Result::<M, RecvError>::Ok(m),
                                ));
                            }
                            return Ok(m);
                        },
                        Err(e) => {
                            proof {
                                assert(!decodable::<M>(frame_payload(all)));
                                assert(recv_step::<M>(
                                    pre,
                                    inbox0.take(consumed),
                                    self.pending(),
                                    Result::<M, RecvError>::Err(RecvError::CodecErr(e)),
                                ));
                            }
                            return Err(RecvError::CodecErr(e));
                        },
                    }
                }
            }
        }

        proof {
            let all = pre + inbox0.take(consumed);
            assert(self.pending() =~= all);
            if self.payload_bytes is Some {
                assert(all.take(header_size()) =~= self.buf@.take(header_size()));
                assert(all.len() < frame_size(all));
            }
            assert(!frame_complete(all));
        }
        if self.buf_occupancy == 0 {
            Err(RecvError::NoBytes)
        } else {
            Err(RecvError::InsufficientBytes(self.buf_occupancy))
        }
    }

    /// A logically blocking receive: put the stream into blocking mode,
    /// repeat receive attempts until a frame completes or the transport
    /// fails, and restore non-blocking mode on the way out, whatever the
    /// outcome. In blocking mode each underlying read itself suspends the
    /// caller until data arrives, so an attempt that yields no new byte
    /// means the stream is closed or exhausted; that surfaces as
    /// `SocketErr(IoError::Closed)` rather than spinning forever. The
    /// informational outcomes (`NoBytes`, `InsufficientBytes`) never
    /// surface from this call.
    pub fn recv<R: Stream>(&mut self, r: &mut R) -> (res: Result<M, RecvError>)
        requires
            old(self).wf(),
        ensures
            final(self).wf(),
            final(r).outbox() == old(r).outbox(),
            res is Ok ==> !final(r).is_blocking(),
            exists|k: int|
                {
                    &&& 0 <= k <= old(r).inbox().len()
                    &&& final(r).inbox() == old(r).inbox().skip(k)
                    &&& blocking_recv_post::<M>(
                        old(self).pending(),
                        old(r).inbox().take(k),
                        final(self).pending(),
                        res,
                    )
                },
    {
        let ghost pre0 = self.pending();
        let ghost inbox0 = r.inbox();
        let ghost out0 = r.outbox();
        proof {
            assert(inbox0.take(0) =~= Seq::<u8>::empty());
            assert(inbox0.skip(0) =~= inbox0);
            assert(pre0 + inbox0.take(0) =~= pre0);
            self.lemma_pending_incomplete();
        }
        match r.set_nonblocking(false) {
            Ok(_) => {},
            Err(e) => {
                return Err(RecvError::SocketErr(e));
            },
        }
        let ghost mut k: int = 0;
        loop
            invariant
                self.wf(),
                pre0 == old(self).pending(),
                inbox0 == old(r).inbox(),
                out0 == old(r).outbox(),
                0 <= k <= inbox0.len(),
                r.inbox() == inbox0.skip(k),
                r.outbox() == out0,
                self.pending() == pre0 + inbox0.take(k),
                !frame_complete(pre0 + inbox0.take(k)),
            decreases inbox0.len() - k,
        {
            let before = self.current_buffer_size();
            let ghost pend_b = self.pending();
            let ghost in_b = r.inbox();
            proof {
                self.lemma_pending_incomplete();
                assert(pend_b.len() == before);
            }
            let res = self.try_recv(r);
            let ghost kk = choose|kk: int|
                0 <= kk <= in_b.len() && r.inbox() == in_b.skip(kk) && recv_step::<M>(
                    pend_b,
                    in_b.take(kk),
                    self.pending(),
                    res,
                );
            proof {
                assert(inbox0.take(k + kk) =~= inbox0.take(k) + in_b.take(kk));
                assert(inbox0.skip(k).skip(kk) =~= inbox0.skip(k + kk));
                assert(pre0 + inbox0.take(k + kk) =~= pend_b + in_b.take(kk));
                k = k + kk;
            }
            match res {
                Ok(m) => {
                    match r.set_nonblocking(true) {
                        Ok(_) => {
                            return Ok(m);
                        },
                        Err(e) => {
                            return Err(RecvError::SocketErr(e));
                        },
                    }
                },
                Err(RecvError::NoBytes) => {
                    match r.set_nonblocking(true) {
                        Ok(_) => {},
                        Err(_) => {},
                    }
                    return Err(RecvError::SocketErr(IoError::Closed));
                },
                Err(RecvError::InsufficientBytes(n)) => {
                    if n == before {
                        match r.set_nonblocking(true) {
                            Ok(_) => {},
                            Err(_) => {},
                        }
                        return Err(RecvError::SocketErr(IoError::Closed));
                    }
                    proof {
                        assert(kk >= 1);
                    }
                },
                Err(e) => {
                    match r.set_nonblocking(true) {
                        Ok(_) => {},
                        Err(_) => {},
                    }
                    return Err(e);
                },
            }
        }
    }

    /// Collect every message that is already deliverable, in arrival order:
    /// repeat non-blocking attempts, stopping at the first outcome that is
    /// not a message. A transport error mid-drain is swallowed; the values
    /// decoded before it are returned.
    pub fn drain_nonblocking<R: Stream>(&mut self, r: &mut R) -> (res: Vec<M>)
        requires
            old(self).wf(),
        ensures
            final(self).wf(),
            final(r).outbox() == old(r).outbox(),
            final(r).is_blocking() == old(r).is_blocking(),
            exists|k: int|
                {
                    &&& 0 <= k <= old(r).inbox().len()
                    &&& final(r).inbox() == old(r).inbox().skip(k)
                    &&& drain_post::<M>(
                        old(self).pending(),
                        old(r).inbox().take(k),
                        final(self).pending(),
                        res@,
                    )
                },
            old(self).pending().len() == 0 && old(r).inbox().len() == 0 ==> res@.len() == 0
                && final(self).pending().len() == 0 && final(r).inbox() == old(r).inbox(),
    {
        let ghost pre0 = self.pending();
        let ghost inbox0 = r.inbox();
        let ghost out0 = r.outbox();
        let ghost bl0 = r.is_blocking();
        proof {
            assert(inbox0.take(0) =~= Seq::<u8>::empty());
            assert(inbox0.skip(0) =~= inbox0);
            assert(pre0 + inbox0.take(0) =~= pre0);
            self.lemma_pending_incomplete();
        }
        let mut out: Vec<M> = Vec::new();
        let ghost mut k: int = 0;
        loop
            invariant_except_break
                self.wf(),
                0 <= k <= inbox0.len(),
                r.inbox() == inbox0.skip(k),
                r.outbox() == out0,
                r.is_blocking() == bl0,
                all_frames_decodable::<M>(pre0 + inbox0.take(k)),
                decodes_to::<M>(pre0 + inbox0.take(k), out@),
                self.pending() == rest_of(pre0 + inbox0.take(k)),
            ensures
                self.wf(),
                0 <= k <= inbox0.len(),
                r.inbox() == inbox0.skip(k),
                r.outbox() == out0,
                r.is_blocking() == bl0,
                drain_post::<M>(pre0, inbox0.take(k), self.pending(), out@),
            decreases inbox0.len() - k,
        {
            let ghost pend_b = self.pending();
            let ghost in_b = r.inbox();
            let ghost all_b = pre0 + inbox0.take(k);
            proof {
                crate::wire::lemma_rest_incomplete(all_b);
            }
            let res = self.try_recv(r);
            let ghost kk = choose|kk: int|
                0 <= kk <= in_b.len() && r.inbox() == in_b.skip(kk) && recv_step::<M>(
                    pend_b,
                    in_b.take(kk),
                    self.pending(),
                    res,
                );
            let ghost got = in_b.take(kk);
            let ghost all_n = pre0 + inbox0.take(k + kk);
            proof {
                assert(inbox0.take(k + kk) =~= inbox0.take(k) + got);
                assert(inbox0.skip(k).skip(kk) =~= inbox0.skip(k + kk));
                assert(all_n =~= all_b + got);
                crate::wire::lemma_frames_chunking(all_b, got);
                k = k + kk;
            }
            match res {
                Ok(m) => {
                    proof {
                        let step = pend_b + got;
                        assert(kk >= 1) by {
                            if kk == 0 {
                                assert(step =~= pend_b);
                            }
                        };
                        crate::wire::lemma_frames_of_exact(step);
                        assert(frames_of(all_n) =~= frames_of(all_b).push(frame_payload(step)));
                        assert(rest_of(all_n) == Seq::<u8>::empty());
                    }
                    out.push(m);
                    proof {
                        let step = pend_b + got;
                        assert(decodes_to::<M>(all_n, out@)) by {
                            assert(forall|i: int|
                                0 <= i < out@.len() - 1 ==> frames_of(all_n)[i] == frames_of(
                                    all_b,
                                )[i]);
                        };
                        assert(all_frames_decodable::<M>(all_n)) by {
                            assert(forall|i: int|
                                0 <= i < frames_of(all_b).len() ==> frames_of(all_n)[i]
                                    == frames_of(all_b)[i]);
                            assert(decodable::<M>(frame_payload(step)));
                        };
                        assert(self.pending() == rest_of(all_n));
                    }
                },
                Err(RecvError::CodecErr(_)) => {
                    proof {
                        let step = pend_b + got;
                        crate::wire::lemma_frames_of_exact(step);
                        assert(frames_of(all_n) =~= frames_of(all_b).push(frame_payload(step)));
                        assert(rest_of(all_n) == Seq::<u8>::empty());
                        assert(!decodable::<M>(frames_of(all_n)[out@.len() as int]));
                        assert(forall|i: int|
                            0 <= i < out@.len() ==> frames_of(all_n)[i] == frames_of(all_b)[i]);
                        assert(drain_post::<M>(pre0, inbox0.take(k), self.pending(), out@));
                    }
                    break ;
                },
                Err(_) => {
                    proof {
                        let step = pend_b + got;
                        assert(frames_of(step) =~= Seq::<Seq<u8>>::empty());
                        assert(frames_of(all_n) =~= frames_of(all_b));
                        assert(rest_of(all_n) == step);
                        assert(drain_post::<M>(pre0, inbox0.take(k), self.pending(), out@));
                    }
                    break ;
                },
            }
        }
        proof {
            if pre0.len() == 0 && inbox0.len() == 0 {
                assert(inbox0.take(k) =~= Seq::<u8>::empty());
                assert(pre0 + inbox0.take(k) =~= Seq::<u8>::empty());
                assert(inbox0.skip(k) =~= inbox0);
            }
        }
        out
    }
}

/// Relies on Vec::shrink_to_fit: it only drops excess capacity and leaves
/// the contents unchanged.
#[verifier::external_body]
fn shrink_vec(v: &mut Vec<u8>)
    ensures
        final(v)@ == old(v)@,
{
    v.shrink_to_fit();
}

} // verus!
