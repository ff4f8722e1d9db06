use framing::SampleMsg::{A, B, C};
use framing::{Endpoint, IoError, MemStream, ReadState, RecvError, SampleMsg};

fn encode_wire(msgs: &Vec<SampleMsg>) -> Vec<u8> {
    let mut ep: Endpoint<MemStream, SampleMsg> = Endpoint::new(MemStream::new()).expect("setup");
    let (num_sent, res) = ep.send_all(msgs);
    assert_eq!(num_sent, msgs.len());
    assert!(res.is_ok());
    let (stream, _) = ep.into_inner();
    stream.into_written()
}

/// Repeat non-blocking attempts until the stream runs dry, collecting every
/// delivered message; `InsufficientBytes` means "retry", `NoBytes` means
/// "done". Only safe when the supplied bytes hold whole frames.
fn pump(ep: &mut Endpoint<MemStream, SampleMsg>) -> Vec<SampleMsg> {
    let mut out = Vec::new();
    loop {
        match ep.try_recv() {
            Ok(m) => out.push(m),
            Err(RecvError::InsufficientBytes(_)) => continue,
            Err(RecvError::NoBytes) => break,
            Err(e) => panic!("unexpected receive failure: {:?}", e),
        }
    }
    out
}

#[test]
fn fragmented_delivery_matches_bulk() {
    let msgs = vec![A, B(7), C(vec![1, 2, 3, 4]), B(0), C(vec![]), A];
    let wire = encode_wire(&msgs);
    // all at once
    let mut bulk: Endpoint<MemStream, SampleMsg> =
        Endpoint::new(MemStream::with_incoming(wire.clone())).unwrap();
    assert_eq!(pump(&mut bulk), msgs);
    // one byte at a time, and a few other chunk sizes
    for chunk in vec![1usize, 2, 3, 5, 7, 64] {
        let mut ep: Endpoint<MemStream, SampleMsg> =
            Endpoint::new(MemStream::with_chunked_incoming(wire.clone(), chunk)).unwrap();
        assert_eq!(pump(&mut ep), msgs);
    }
}

#[test]
fn drain_on_empty_reader_returns_nothing() {
    let mut ep: Endpoint<MemStream, SampleMsg> = Endpoint::new(MemStream::new()).unwrap();
    assert!(ep.drain_nonblocking().is_empty());
    assert_eq!(ep.current_buffer_size(), 0);
    assert!(matches!(ep.try_recv(), Err(RecvError::NoBytes)));
    assert!(ep.drain_nonblocking().is_empty());
}

#[test]
fn drain_collects_all_complete_frames() {
    let msgs = vec![B(1), B(2), A, C(vec![9, 9])];
    let wire = encode_wire(&msgs);
    let mut ep: Endpoint<MemStream, SampleMsg> =
        Endpoint::new(MemStream::with_incoming(wire)).unwrap();
    assert_eq!(ep.drain_nonblocking(), msgs);
    assert_eq!(ep.current_buffer_size(), 0);
}

#[test]
fn squash_buffer_repeats_safely() {
    let wire = encode_wire(&vec![C(vec![1, 2, 3])]);
    // deliver three bytes at a time so the first attempt parks a partial
    // header in the buffer
    let mut ep: Endpoint<MemStream, SampleMsg> =
        Endpoint::new(MemStream::with_chunked_incoming(wire, 3)).unwrap();
    assert!(matches!(ep.try_recv(), Err(RecvError::InsufficientBytes(3))));
    assert_eq!(ep.squash_buffer(), 3);
    assert_eq!(ep.squash_buffer(), 3);
    assert_eq!(ep.squash_buffer(), 3);
    assert_eq!(ep.current_buffer_size(), 3);
    // the frame still completes and decodes correctly afterwards
    assert_eq!(pump(&mut ep), vec![C(vec![1, 2, 3])]);
    assert_eq!(ep.squash_buffer(), 0);
    assert_eq!(ep.squash_buffer(), 0);
}

#[test]
fn wire_format_is_little_endian_length_prefixed() {
    let mut ep: Endpoint<MemStream, SampleMsg> = Endpoint::new(MemStream::new()).unwrap();
    let n = ep.send(&B(42)).unwrap();
    assert_eq!(n, 5);
    let (s, _) = ep.into_inner();
    assert_eq!(s.into_written(), vec![5, 0, 0, 0, 1, 42, 0, 0, 0]);
}

#[test]
fn large_payload_round_trips() {
    let data: Vec<i8> = vec![7i8; 70_000];
    let msgs = vec![C(data)];
    let wire = encode_wire(&msgs);
    // 1 tag byte + 4 count bytes + 70000 element bytes, length little-endian
    assert_eq!(wire.len(), 4 + 70_005);
    assert_eq!(&wire[0..4], &70_005u32.to_le_bytes());
    let mut ep: Endpoint<MemStream, SampleMsg> =
        Endpoint::new(MemStream::with_incoming(wire)).unwrap();
    assert_eq!(ep.recv().unwrap(), msgs[0]);
}

#[test]
fn rejected_payload_surfaces_codec_error() {
    // a complete frame announcing a one-byte payload with an unknown tag
    let wire = vec![1, 0, 0, 0, 9];
    let mut ep: Endpoint<MemStream, SampleMsg> =
        Endpoint::new(MemStream::with_incoming(wire)).unwrap();
    assert!(matches!(ep.try_recv(), Err(RecvError::CodecErr(_))));
    // the bad frame is consumed; the reader stays usable
    assert_eq!(ep.current_buffer_size(), 0);
    assert!(matches!(ep.try_recv(), Err(RecvError::NoBytes)));
}

#[test]
fn blocking_recv_reports_closed_stream() {
    // a partial header after which the stream yields nothing more
    let wire = vec![9, 0];
    let mut ep: Endpoint<MemStream, SampleMsg> =
        Endpoint::new(MemStream::with_incoming(wire)).unwrap();
    assert!(matches!(ep.recv(), Err(RecvError::SocketErr(IoError::Closed))));
    // the buffered bytes are retained for a possible retry
    assert_eq!(ep.current_buffer_size(), 2);
}

#[test]
fn partial_frame_reports_occupancy() {
    // only the header of a frame announcing five payload bytes
    let wire = vec![5, 0, 0, 0];
    let mut ep: Endpoint<MemStream, SampleMsg> =
        Endpoint::new(MemStream::with_incoming(wire)).unwrap();
    assert!(matches!(ep.try_recv(), Err(RecvError::InsufficientBytes(4))));
    assert_eq!(ep.current_buffer_size(), 4);
    assert!(matches!(ep.try_recv(), Err(RecvError::InsufficientBytes(4))));
}

#[test]
fn retype_with_empty_buffer_preserves_stream() {
    let mut ep: Endpoint<MemStream, SampleMsg> = Endpoint::new(MemStream::new()).unwrap();
    ep.send(&A).unwrap();
    assert_eq!(ep.current_buffer_size(), 0);
    let mut ep2: Endpoint<MemStream, SampleMsg> = ep.new_change_type();
    ep2.send(&B(5)).unwrap();
    let (s, _) = ep2.into_inner();
    assert_eq!(s.into_written(), vec![1, 0, 0, 0, 0, 5, 0, 0, 0, 1, 5, 0, 0, 0]);
}

#[test]
fn read_state_drives_a_stream_directly() {
    let wire = encode_wire(&vec![B(3), A]);
    let mut st: ReadState<SampleMsg> = ReadState::new();
    let mut ms = MemStream::with_incoming(wire);
    assert_eq!(st.drain_nonblocking(&mut ms), vec![B(3), A]);
    assert_eq!(st.current_buffer_size(), 0);
    assert_eq!(st.squash_buffer(), 0);
    assert!(st.into_buffer().is_empty());
}

#[test]
fn read_state_blocking_recv_over_fragments() {
    let wire = encode_wire(&vec![B(9)]);
    let mut st: ReadState<SampleMsg> = ReadState::new();
    let mut ms = MemStream::with_chunked_incoming(wire, 1);
    assert_eq!(st.recv(&mut ms).unwrap(), B(9));
}

#[test]
fn into_inner_returns_partial_frame_bytes() {
    // header plus two of five announced payload bytes
    let wire = vec![5, 0, 0, 0, 1, 42];
    let mut ep: Endpoint<MemStream, SampleMsg> =
        Endpoint::new(MemStream::with_incoming(wire)).unwrap();
    assert!(matches!(ep.try_recv(), Err(RecvError::InsufficientBytes(6))));
    let (_, leftover) = ep.into_inner();
    assert_eq!(leftover, vec![5, 0, 0, 0, 1, 42]);
}
