//! Length-prefixed message framing over a duplex byte stream.
//!
//! A frame on the wire is a 4-byte little-endian length header followed by
//! exactly that many payload bytes. [`ReadState`] accumulates arbitrarily
//! fragmented incoming bytes into complete frames; [`Endpoint`] pairs that
//! reader with a frame writer over one owned stream.

mod endpoint;
mod errors;
mod mem;
mod message;
mod reader;
mod sample;
mod stream;
mod wire;
mod writer;

pub use endpoint::Endpoint;
pub use errors::{CodecError, IoError, RecvError, SendError};
pub use mem::MemStream;
pub use message::{
    all_sendable, dec, decodable, lemma_dec_of_enc, lemma_round_trip, lemma_wire_of_push, wire_of,
    Message,
};
pub use sample::{list_body, SampleMsg, SampleMsgView};
pub use reader::{
    all_frames_decodable, blocking_recv_post, decodes_to, drain_post, recv_step, ReadState,
};
pub use stream::Stream;
pub use writer::send_message;
pub use wire::{
    frame_complete, frame_of, frame_payload, frame_size, frames_of, header_size,
    lemma_frame_parse, lemma_frames_chunking, lemma_frames_of_exact, lemma_rest_incomplete,
    payload_fits, rest_of,
};
