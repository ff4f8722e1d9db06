//! The frame writer: encode a value, prefix its length, and transmit the
//! whole frame, resuming after every short write.

use crate::errors::{IoError, SendError};
use crate::message::Message;
use crate::stream::Stream;
use crate::wire::frame_of;
use vstd::bytes::u32_to_le_bytes;
use vstd::prelude::*;

verus! {

/// Write all of `data` to the stream, continuing from the correct offset
/// after every short write. A write that accepts zero bytes cannot make
/// progress and is reported as `WriteZero`; on any failure the bytes already
/// written are some prefix of `data`.
fn write_full<R: Stream>(stream: &mut R, data: &Vec<u8>) -> (res: Result<(), IoError>)
    ensures
        final(stream).inbox() == old(stream).inbox(),
        final(stream).is_blocking() == old(stream).is_blocking(),
        match res {
            Ok(_) => final(stream).outbox() == old(stream).outbox() + data@,
            Err(_) => exists|j: int|
                0 <= j <= data@.len() && final(stream).outbox() == old(stream).outbox()
                    + data@.take(j),
        },
{
    proof {
        assert(stream.outbox() + data@.take(0) =~= stream.outbox());
    }
    let mut offset: usize = 0;
    while offset < data.len()
        invariant
            offset <= data.len(),
            stream.inbox() == old(stream).inbox(),
            stream.is_blocking() == old(stream).is_blocking(),
            stream.outbox() == old(stream).outbox() + data@.take(offset as int),
        decreases data.len() - offset,
    {
        match stream.write(data, offset, data.len()) {
            Ok(n) => {
                if n == 0 {
                    return Err(IoError::WriteZero);
                }
                proof {
                    assert((old(stream).outbox() + data@.take(offset as int)) + data@.subrange(
                        offset as int,
                        offset + n as int,
                    ) =~= old(stream).outbox() + data@.take(offset + n as int));
                }
                offset = offset + n;
            },
            Err(e) => {
                return Err(e);
            },
        }
    }
    proof {
        assert(data@.take(data@.len() as int) =~= data@);
    }
    Ok(())
}

/// Encode one value, build the length-prefixed frame, and transmit it
/// whole, returning the payload byte count. Fails with `PayloadTooLarge`,
/// before any byte is written, exactly when the encoding exceeds the 4-byte
/// length header's range; on a transport failure the bytes written are some
/// prefix of the frame, so the peer never sees a malformed one.
pub fn send_message<R: Stream, M: Message>(stream: &mut R, m: &M) -> (res: Result<
    usize,
    SendError,
>)
    ensures
        final(stream).inbox() == old(stream).inbox(),
        final(stream).is_blocking() == old(stream).is_blocking(),
        match res {
            Ok(n) => {
                &&& M::enc_ok_of(m@)
                &&& M::enc_of(m@).len() <= u32::MAX
                &&& n == M::enc_of(m@).len()
                &&& final(stream).outbox() == old(stream).outbox() + frame_of(M::enc_of(m@))
            },
            Err(SendError::CodecErr(_)) => {
                &&& !M::enc_ok_of(m@)
                &&& final(stream).outbox() == old(stream).outbox()
            },
            Err(SendError::PayloadTooLarge) => {
                &&& M::enc_ok_of(m@)
                &&& M::enc_of(m@).len() > u32::MAX
                &&& final(stream).outbox() == old(stream).outbox()
            },
            Err(SendError::SocketErr(_)) => {
                &&& M::enc_ok_of(m@)
                &&& M::enc_of(m@).len() <= u32::MAX
                &&& exists|j: int|
                    0 <= j <= frame_of(M::enc_of(m@)).len() && final(stream).outbox() == old(
                        stream,
                    ).outbox() + frame_of(M::enc_of(m@)).take(j)
            },
        },
{
    let encoded = match m.encode() {
        Ok(bytes) => bytes,
        Err(e) => {
            return Err(SendError::CodecErr(e));
        },
    };
    let len = encoded.len();
    if len > u32::MAX as usize {
        return Err(SendError::PayloadTooLarge);
    }
    let header = u32_to_le_bytes(len as u32);
    proof {
        assert(frame_of(M::enc_of(m@)) =~= header@ + encoded@);
    }
    match write_full(stream, &header) {
        Ok(_) => {},
        Err(e) => {
            proof {
                let j = choose|j: int|
                    0 <= j <= header@.len() && stream.outbox() == old(stream).outbox()
                        + header@.take(j);
                assert(frame_of(M::enc_of(m@)).take(j) =~= header@.take(j));
            }
            return Err(SendError::SocketErr(e));
        },
    }
    match write_full(stream, &encoded) {
        Ok(_) => {},
        Err(e) => {
            proof {
                let mid = old(stream).outbox() + header@;
                let j = choose|j: int|
                    0 <= j <= encoded@.len() && stream.outbox() == mid + encoded@.take(j);
                assert(frame_of(M::enc_of(m@)).take(4 + j) =~= header@ + encoded@.take(j));
                assert(stream.outbox() =~= old(stream).outbox() + frame_of(M::enc_of(m@)).take(
                    4 + j,
                ));
            }
            return Err(SendError::SocketErr(e));
        },
    }
    proof {
        assert((old(stream).outbox() + header@) + encoded@ =~= old(stream).outbox() + frame_of(
            M::enc_of(m@),
        ));
    }
    Ok(len)
}

} // verus!
