//! An in-memory stream: the byte channel as a plain value, so endpoints can
//! be exercised and verified without a network transport.

use crate::errors::IoError;
use crate::stream::Stream;
use vstd::prelude::*;

verus! {

/// An in-memory duplex stream half. Reads consume a supplied incoming
/// buffer in order; writes append to an owned outgoing buffer that the
/// owner can take and deliver to a peer. An optional chunk cap bounds how
/// many bytes one read may deliver, so arbitrary fragmentation of the same
/// wire bytes can be exercised.
pub struct MemStream {
    incoming: Vec<u8>,
    read_pos: usize,
    written: Vec<u8>,
    blocking: bool,
    chunk: usize,
}

impl MemStream {
    /// An empty stream: nothing to read, nothing written yet, reads
    /// unlimited in size.
    pub fn new() -> (res: MemStream)
        ensures
            res.inbox() == Seq::<u8>::empty(),
            res.outbox() == Seq::<u8>::empty(),
            !res.is_blocking(),
    {
        MemStream { incoming: Vec::new(), read_pos: 0, written: Vec::new(), blocking: false, chunk: 0 }
    }

    /// A stream whose reads will deliver exactly `data`, in order.
    pub fn with_incoming(data: Vec<u8>) -> (res: MemStream)
        ensures
            res.inbox() == data@,
            res.outbox() == Seq::<u8>::empty(),
            !res.is_blocking(),
    {
        let res = MemStream { incoming: data, read_pos: 0, written: Vec::new(), blocking: false, chunk: 0 };
        proof {
            assert(res.inbox() =~= res.incoming@);
        }
        res
    }

    /// A stream that delivers `data` at most `chunk` bytes per read (zero
    /// means unlimited), to exercise fragmented delivery.
    pub fn with_chunked_incoming(data: Vec<u8>, chunk: usize) -> (res: MemStream)
        ensures
            res.inbox() == data@,
            res.outbox() == Seq::<u8>::empty(),
            !res.is_blocking(),
    {
        let res = MemStream { incoming: data, read_pos: 0, written: Vec::new(), blocking: false, chunk };
        proof {
            assert(res.inbox() =~= res.incoming@);
        }
        res
    }

    /// Take every byte written to this stream so far, ending its use: the
    /// wire bytes a peer would receive.
    pub fn into_written(self) -> (res: Vec<u8>)
        ensures
            res@ == self.outbox(),
    {
        self.written
    }
}

impl Stream for MemStream {
    /// The bytes supplied but not yet read. The guard keeps the view total;
    /// every constructor and method keeps the position within the buffer.
    closed spec fn inbox(&self) -> Seq<u8> {
        if self.read_pos <= self.incoming@.len() {
            self.incoming@.skip(self.read_pos as int)
        } else {
            Seq::empty()
        }
    }

    closed spec fn outbox(&self) -> Seq<u8> {
        self.written@
    }

    closed spec fn is_blocking(&self) -> bool {
        self.blocking
    }

    fn read(&mut self, buf: &mut Vec<u8>, start: usize, end: usize) -> (res: Result<
        usize,
        IoError,
    >) {
        let avail = if self.read_pos >= self.incoming.len() {
            0
        } else {
            self.incoming.len() - self.read_pos
        };
        let room = end - start;
        let mut n = if avail < room {
            avail
        } else {
            room
        };
        if self.chunk > 0 && self.chunk < n {
            n = self.chunk;
        }
        if n == 0 {
            proof {
                assert(buf@ =~= buf@.take(start as int) + self.inbox().take(0) + buf@.skip(
                    start as int,
                ));
                assert(self.inbox().skip(0) =~= self.inbox());
            }
            return Ok(0);
        }
        let ghost inbox0 = self.inbox();
        let ghost buf0 = buf@;
        let mut i: usize = 0;
        while i < n
            invariant
                i <= n,
                n <= end - start,
                start <= end <= buf@.len(),
                n <= inbox0.len(),
                self == old(self),
                self.incoming@.len() <= usize::MAX,
                self.read_pos + n <= self.incoming@.len(),
                inbox0 == self.incoming@.skip(self.read_pos as int),
                buf@.len() == buf0.len(),
                buf@ == buf0.take(start as int) + inbox0.take(i as int) + buf0.skip(
                    start + i as int,
                ),
            decreases n - i,
        {
            let byte = self.incoming[self.read_pos + i];
            buf[start + i] = byte;
            proof {
                assert(buf@ =~= buf0.take(start as int) + inbox0.take(i + 1) + buf0.skip(
                    start + i + 1,
                ));
            }
            i = i + 1;
        }
        self.read_pos = self.read_pos + n;
        proof {
            assert(self.inbox() =~= inbox0.skip(n as int));
        }
        Ok(n)
    }

    fn write(&mut self, buf: &Vec<u8>, start: usize, end: usize) -> (res: Result<usize, IoError>) {
        let ghost out0 = self.written@;
        let mut i: usize = start;
        while i < end
            invariant
                start <= i <= end <= buf@.len(),
                self.incoming@ == old(self).incoming@,
                self.read_pos == old(self).read_pos,
                self.blocking == old(self).blocking,
                self.written@ == out0 + buf@.subrange(start as int, i as int),
            decreases end - i,
        {
            let byte = buf[i];
            self.written.push(byte);
            proof {
                assert(self.written@ =~= out0 + buf@.subrange(start as int, i + 1));
            }
            i = i + 1;
        }
        Ok(end - start)
    }

    fn set_nonblocking(&mut self, value: bool) -> (res: Result<(), IoError>) {
        self.blocking = !value;
        Ok(())
    }
}

} // verus!
