//! The endpoint: one owned stream, one frame reader, one frame writer,
//! bound to a single message type.

use crate::errors::{IoError, RecvError, SendError};
use crate::message::{all_sendable, wire_of, Message};
use crate::reader::{blocking_recv_post, drain_post, recv_step, ReadState};
use crate::stream::Stream;
use crate::wire::frame_of;
use crate::writer::send_message;
use vstd::prelude::*;

verus! {

/// A bound (stream, message type) pair: the unit an application sends and
/// receives on. The stream's resting mode is non-blocking; only `recv`
/// switches it to blocking, and restores it before returning.
pub struct Endpoint<T: Stream, M: Message> {
    stream: T,
    reader: ReadState<M>,
}

impl<T: Stream, M: Message> Endpoint<T, M> {
    /// The bytes of the current incoming frame buffered so far.
    pub closed spec fn pending(&self) -> Seq<u8> {
        self.reader.pending()
    }

    /// The reader's invariant, maintained by every operation.
    pub closed spec fn wf(&self) -> bool {
        self.reader.wf()
    }

    /// The bytes available to read from the owned stream.
    pub closed spec fn inbox(&self) -> Seq<u8> {
        self.stream.inbox()
    }

    /// All bytes written to the owned stream so far.
    pub closed spec fn outbox(&self) -> Seq<u8> {
        self.stream.outbox()
    }

    /// Whether the owned stream is currently in blocking mode.
    pub closed spec fn is_blocking(&self) -> bool {
        self.stream.is_blocking()
    }

    /// Take ownership of a connected stream and force it into non-blocking
    /// mode, the endpoint's resting mode; fail if the mode cannot be set.
    pub fn new(stream: T) -> (res: Result<Endpoint<T, M>, IoError>)
        ensures
            match res {
                Ok(ep) => {
                    &&& ep.wf()
                    &&& ep.pending() == Seq::<u8>::empty()
                    &&& ep.inbox() == stream.inbox()
                    &&& ep.outbox() == stream.outbox()
                    &&& !ep.is_blocking()
                },
                Err(_) => true,
            },
    {
        let mut s = stream;
        match s.set_nonblocking(true) {
            Ok(_) => {},
            Err(e) => {
                return Err(e);
            },
        }
        Ok(Endpoint { stream: s, reader: ReadState::new() })
    }

    /// The count of currently buffered bytes of the frame in progress, for
    /// diagnostics and backpressure inspection.
    pub fn current_buffer_size(&mut self) -> (res: usize)
        requires
            old(self).wf(),
        ensures
            *final(self) == *old(self),
            res == old(self).pending().len(),
    {
        self.reader.current_buffer_size()
    }

    /// Release the stream and the buffered bytes of any frame in progress
    /// back to the caller, ending this endpoint's lifecycle.
    pub fn into_inner(self) -> (res: (T, Vec<u8>))
        requires
            self.wf(),
        ensures
            res.0.inbox() == self.inbox(),
            res.0.outbox() == self.outbox(),
            res.0.is_blocking() == self.is_blocking(),
            res.1@ == self.pending(),
    {
        let Endpoint { stream, reader } = self;
        (stream, reader.into_buffer())
    }

    /// Release the read buffer's unused storage, keeping every buffered
    /// byte; returns the occupancy. The observable state is unchanged, so
    /// repeating this is always a safe no-op.
    pub fn squash_buffer(&mut self) -> (res: usize)
        requires
            old(self).wf(),
        ensures
            final(self).wf(),
            final(self).pending() == old(self).pending(),
            final(self).inbox() == old(self).inbox(),
            final(self).outbox() == old(self).outbox(),
            final(self).is_blocking() == old(self).is_blocking(),
            res == old(self).pending().len(),
    {
        self.reader.squash_buffer()
    }

    /// Rebind the same live stream and buffer to a different message type.
    /// Buffered bytes of a frame in progress were framed under the old
    /// type and cannot be reinterpreted, so the rebinding is only allowed
    /// while nothing is buffered; check `current_buffer_size` first.
    pub fn new_change_type<Q: Message>(self) -> (res: Endpoint<T, Q>)
        requires
            self.wf(),
            self.pending().len() == 0,
        ensures
            res.wf(),
            res.pending() == Seq::<u8>::empty(),
            res.inbox() == self.inbox(),
            res.outbox() == self.outbox(),
            res.is_blocking() == self.is_blocking(),
    {
        let Endpoint { stream, reader } = self;
        Endpoint { stream, reader: reader.change_type() }
    }

    /// Encode one value, frame it, and transmit the whole frame; returns
    /// the payload byte count. `PayloadTooLarge` is reported before any
    /// byte is written, exactly when the encoding exceeds the 4-byte length
    /// header's range.
    pub fn send(&mut self, m: &M) -> (res: Result<usize, SendError>)
        requires
            old(self).wf(),
        ensures
            final(self).wf(),
            final(self).pending() == old(self).pending(),
            final(self).inbox() == old(self).inbox(),
            final(self).is_blocking() == old(self).is_blocking(),
            match res {
                Ok(n) => {
                    &&& M::enc_ok_of(m@)
                    &&& M::enc_of(m@).len() <= u32::MAX
                    &&& n == M::enc_of(m@).len()
                    &&& final(self).outbox() == old(self).outbox() + frame_of(M::enc_of(m@))
                },
                Err(SendError::CodecErr(_)) => {
                    &&& !M::enc_ok_of(m@)
                    &&& final(self).outbox() == old(self).outbox()
                },
                Err(SendError::PayloadTooLarge) => {
                    &&& M::enc_ok_of(m@)
                    &&& M::enc_of(m@).len() > u32::MAX
                    &&& final(self).outbox() == old(self).outbox()
                },
                Err(SendError::SocketErr(_)) => {
                    &&& M::enc_ok_of(m@)
                    &&& M::enc_of(m@).len() <= u32::MAX
                    &&& exists|j: int|
                        0 <= j <= frame_of(M::enc_of(m@)).len() && final(self).outbox() == old(
                            self,
                        ).outbox() + frame_of(M::enc_of(m@)).take(j)
                },
            },
    {
        send_message(&mut self.stream, m)
    }

    /// Send each value in order, stopping at the first failure; returns how
    /// many values were sent in full together with the terminal error, if
    /// any.
    pub fn send_all(&mut self, msgs: &Vec<M>) -> (res: (usize, Result<(), SendError>))
        requires
            old(self).wf(),
        ensures
            final(self).wf(),
            final(self).pending() == old(self).pending(),
            final(self).inbox() == old(self).inbox(),
            final(self).is_blocking() == old(self).is_blocking(),
            res.0 <= msgs@.len(),
            all_sendable(msgs@.take(res.0 as int)),
            match res.1 {
                Ok(_) => {
                    &&& res.0 == msgs@.len()
                    &&& final(self).outbox() == old(self).outbox() + wire_of(msgs@)
                },
                Err(SendError::CodecErr(_)) => {
                    &&& res.0 < msgs@.len()
                    &&& !M::enc_ok_of(msgs@[res.0 as int]@)
                    &&& final(self).outbox() == old(self).outbox() + wire_of(
                        msgs@.take(res.0 as int),
                    )
                },
                Err(SendError::PayloadTooLarge) => {
                    &&& res.0 < msgs@.len()
                    &&& M::enc_ok_of(msgs@[res.0 as int]@)
                    &&& M::enc_of(msgs@[res.0 as int]@).len() > u32::MAX
                    &&& final(self).outbox() == old(self).outbox() + wire_of(
                        msgs@.take(res.0 as int),
                    )
                },
                Err(SendError::SocketErr(_)) => {
                    &&& res.0 < msgs@.len()
                    &&& exists|j: int|
                        0 <= j <= frame_of(M::enc_of(msgs@[res.0 as int]@)).len()
                            && final(self).outbox() == old(self).outbox() + wire_of(
                            msgs@.take(res.0 as int),
                        ) + frame_of(M::enc_of(msgs@[res.0 as int]@)).take(j)
                },
            },
    {
        proof {
            assert(self.outbox() + wire_of(msgs@.take(0)) =~= self.outbox());
            assert(wire_of(Seq::<M>::empty()) == Seq::<u8>::empty());
            assert(msgs@.take(0) =~= Seq::<M>::empty());
        }
        let mut sent: usize = 0;
        while sent < msgs.len()
            invariant
                old(self).wf(),
                sent <= msgs@.len(),
                self.wf(),
                self.pending() == old(self).pending(),
                self.inbox() == old(self).inbox(),
                self.is_blocking() == old(self).is_blocking(),
                self.outbox() == old(self).outbox() + wire_of(msgs@.take(sent as int)),
                all_sendable(msgs@.take(sent as int)),
            decreases msgs@.len() - sent,
        {
            let m = &msgs[sent];
            let ghost sofar = msgs@.take(sent as int);
            match self.send(m) {
                Ok(_) => {
                    proof {
                        crate::message::lemma_wire_of_push::<M>(sofar, msgs@[sent as int]);
                        assert(msgs@.take(sent + 1) =~= sofar.push(msgs@[sent as int]));
                        assert((old(self).outbox() + wire_of(sofar)) + frame_of(
                            M::enc_of(msgs@[sent as int]@),
                        ) =~= old(self).outbox() + wire_of(msgs@.take(sent + 1)));
                        assert(all_sendable(msgs@.take(sent + 1)));
                    }
                    sent = sent + 1;
                },
                Err(e) => {
                    proof {
                        if e is SocketErr {
                            let j = choose|j: int|
                                0 <= j <= frame_of(M::enc_of(msgs@[sent as int]@)).len()
                                    && self.outbox() == (old(self).outbox() + wire_of(sofar))
                                    + frame_of(M::enc_of(msgs@[sent as int]@)).take(j);
                            assert(self.outbox() =~= old(self).outbox() + wire_of(sofar)
                                + frame_of(M::enc_of(msgs@[sent as int]@)).take(j));
                        }
                    }
                    return (sent, Err(e));
                },
            }
        }
        proof {
            assert(msgs@.take(msgs@.len() as int) =~= msgs@);
        }
        (sent, Ok(()))
    }

    /// One non-blocking receive attempt; see [`ReadState::try_recv`].
    pub fn try_recv(&mut self) -> (res: Result<M, RecvError>)
        requires
            old(self).wf(),
        ensures
            final(self).wf(),
            final(self).outbox() == old(self).outbox(),
            final(self).is_blocking() == old(self).is_blocking(),
            exists|k: int|
                {
                    &&& 0 <= k <= old(self).inbox().len()
                    &&& final(self).inbox() == old(self).inbox().skip(k)
                    &&& recv_step::<M>(
                        old(self).pending(),
                        old(self).inbox().take(k),
                        final(self).pending(),
                        res,
                    )
                },
            res matches Err(RecvError::NoBytes) ==> old(self).inbox().len() == 0,
    {
        let res = self.reader.try_recv(&mut self.stream);
        proof {
            let k = choose|k: int|
                0 <= k <= old(self).stream.inbox().len() && self.stream.inbox() == old(
                    self,
                ).stream.inbox().skip(k) && recv_step::<M>(
                    old(self).reader.pending(),
                    old(self).stream.inbox().take(k),
                    self.reader.pending(),
                    res,
                );
            assert(0 <= k <= old(self).inbox().len() && self.inbox() == old(self).inbox().skip(k)
                && recv_step::<M>(
                old(self).pending(),
                old(self).inbox().take(k),
                self.pending(),
                res,
            ));
        }
        res
    }

    /// A logically blocking receive; see [`ReadState::recv`]. The stream is
    /// put into blocking mode for the duration of the call and restored to
    /// non-blocking mode on every exit path.
    pub fn recv(&mut self) -> (res: Result<M, RecvError>)
        requires
            old(self).wf(),
        ensures
            final(self).wf(),
            final(self).outbox() == old(self).outbox(),
            res is Ok ==> !final(self).is_blocking(),
            exists|k: int|
                {
                    &&& 0 <= k <= old(self).inbox().len()
                    &&& final(self).inbox() == old(self).inbox().skip(k)
                    &&& blocking_recv_post::<M>(
                        old(self).pending(),
                        old(self).inbox().take(k),
                        final(self).pending(),
                        res,
                    )
                },
    {
        let res = self.reader.recv(&mut self.stream);
        proof {
            let k = choose|k: int|
                0 <= k <= old(self).stream.inbox().len() && self.stream.inbox() == old(
                    self,
                ).stream.inbox().skip(k) && blocking_recv_post::<M>(
                    old(self).reader.pending(),
                    old(self).stream.inbox().take(k),
                    self.reader.pending(),
                    res,
                );
            assert(0 <= k <= old(self).inbox().len() && self.inbox() == old(self).inbox().skip(k)
                && blocking_recv_post::<M>(
                old(self).pending(),
                old(self).inbox().take(k),
                self.pending(),
                res,
            ));
        }
        res
    }

    /// Collect every message that is already deliverable, in arrival order;
    /// see [`ReadState::drain_nonblocking`]. On an endpoint with nothing
    /// buffered and nothing available this returns an empty vector and
    /// changes nothing.
    pub fn drain_nonblocking(&mut self) -> (res: Vec<M>)
        requires
            old(self).wf(),
        ensures
            final(self).wf(),
            final(self).outbox() == old(self).outbox(),
            final(self).is_blocking() == old(self).is_blocking(),
            exists|k: int|
                {
                    &&& 0 <= k <= old(self).inbox().len()
                    &&& final(self).inbox() == old(self).inbox().skip(k)
                    &&& drain_post::<M>(
                        old(self).pending(),
                        old(self).inbox().take(k),
                        final(self).pending(),
                        res@,
                    )
                },
            old(self).pending().len() == 0 && old(self).inbox().len() == 0 ==> res@.len() == 0
                && final(self).pending().len() == 0 && final(self).inbox() == old(self).inbox(),
    {
        let res = self.reader.drain_nonblocking(&mut self.stream);
        proof {
            let k = choose|k: int|
                0 <= k <= old(self).stream.inbox().len() && self.stream.inbox() == old(
                    self,
                ).stream.inbox().skip(k) && drain_post::<M>(
                    old(self).reader.pending(),
                    old(self).stream.inbox().take(k),
                    self.reader.pending(),
                    res@,
                );
            assert(0 <= k <= old(self).inbox().len() && self.inbox() == old(self).inbox().skip(k)
                && drain_post::<M>(
                old(self).pending(),
                old(self).inbox().take(k),
                self.pending(),
                res@,
            ));
        }
        res
    }
}

} // verus!
