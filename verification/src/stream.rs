//! The capability surface of a duplex byte stream.

use crate::errors::IoError;
use vstd::prelude::*;

verus! {

/// A duplex byte channel with a toggle between blocking and non-blocking
/// read semantics: the transport an [`crate::Endpoint`] is built over.
///
/// The abstract state of a stream is the sequence of bytes currently
/// available to read (`inbox`), the sequence of bytes written so far
/// (`outbox`), and the read mode. A "would block" condition is never an
/// error: a non-blocking read that finds nothing reports zero bytes, and a
/// read reports zero bytes only when nothing is available.
pub trait Stream: Sized {
    /// The bytes available to be read, in arrival order.
    spec fn inbox(&self) -> Seq<u8>;

    /// All bytes written to the stream so far, in order.
    spec fn outbox(&self) -> Seq<u8>;

    /// Whether a read currently suspends the caller until data arrives.
    spec fn is_blocking(&self) -> bool;

    /// Read at most `end - start` bytes into `buf[start..end]`, returning
    /// how many were read. The bytes read are the next bytes of the inbox;
    /// zero bytes are read only when the inbox is empty or the region is.
    fn read(&mut self, buf: &mut Vec<u8>, start: usize, end: usize) -> (res: Result<
        usize,
        IoError,
    >)
        requires
            start <= end,
            end <= old(buf).len(),
        ensures
            final(buf).len() == old(buf).len(),
            final(self).outbox() == old(self).outbox(),
            final(self).is_blocking() == old(self).is_blocking(),
            match res {
                Ok(n) => {
                    &&& n <= end - start
                    &&& n <= old(self).inbox().len()
                    &&& n == 0 && start < end ==> old(self).inbox().len() == 0
                    &&& final(self).inbox() == old(self).inbox().skip(n as int)
                    &&& final(buf)@ == old(buf)@.take(start as int) + old(self).inbox().take(
                        n as int,
                    ) + old(buf)@.skip(start + n)
                },
                Err(_) => {
                    &&& final(self).inbox() == old(self).inbox()
                    &&& final(buf)@ == old(buf)@
                },
            },
    ;

    /// Write some prefix of `buf[start..end]` to the stream, returning how
    /// many bytes were accepted. A short or zero-length write is not an
    /// error; the caller continues from the new offset.
    fn write(&mut self, buf: &Vec<u8>, start: usize, end: usize) -> (res: Result<usize, IoError>)
        requires
            start <= end,
            end <= buf.len(),
        ensures
            final(self).inbox() == old(self).inbox(),
            final(self).is_blocking() == old(self).is_blocking(),
            match res {
                Ok(n) => {
                    &&& n <= end - start
                    &&& final(self).outbox() == old(self).outbox() + buf@.subrange(
                        start as int,
                        start + n,
                    )
                },
                Err(_) => final(self).outbox() == old(self).outbox(),
            },
    ;

    /// Switch the stream between non-blocking (`true`) and blocking
    /// (`false`) read semantics.
    fn set_nonblocking(&mut self, value: bool) -> (res: Result<(), IoError>)
        ensures
            final(self).inbox() == old(self).inbox(),
            final(self).outbox() == old(self).outbox(),
            match res {
                Ok(_) => final(self).is_blocking() == !value,
                Err(_) => final(self).is_blocking() == old(self).is_blocking(),
            },
    ;
}

} // verus!
