//! Selector byte, framing and chunk streams.

use ethp2p::chunk::{read_chunk_stream, write_chunk, MAX_CHUNK_DATA_BYTES};
use ethp2p::pb::chunk::Header;
use ethp2p::pb::sess::Update;
use ethp2p::pb::wire::Message;
use ethp2p::pb::WireError;
use ethp2p::protocol::Protocol;
use ethp2p::selector::{open_stream, read_selector};
use ethp2p::wire::{
    frame_length, read_framed, write_framed, ReadError, WriteError, MAX_FRAME_BYTES,
};

fn header(data_length: u32) -> Header {
    Header {
        channel: "test-channel".to_string(),
        message_id: "test-message".to_string(),
        chunk_id: vec![0x01, 0x02, 0x03],
        data_length,
    }
}

#[test]
fn roundtrip_known_payload() {
    let payload = vec![0xAA_u8; 1024];
    let mut stream = Vec::new();
    let header = header(u32::try_from(payload.len()).unwrap());
    write_chunk(&mut stream, &header, &payload).unwrap();

    let (proto, rest) = read_selector(&stream).unwrap();
    assert_eq!(proto, Protocol::Chunk);

    let (got_header, mut payload_reader) = read_chunk_stream(rest).unwrap();
    assert_eq!(got_header, header);

    let got_payload = payload_reader.read_to_end().unwrap();
    assert_eq!(got_payload, payload);
}

#[test]
fn reject_payload_mismatch() {
    let payload = vec![0u8; 99];
    let header = header(100);
    let mut stream = Vec::new();
    let err = write_chunk(&mut stream, &header, &payload)
        .expect_err("write_chunk must reject length mismatch");
    assert_eq!(err, WriteError::PayloadMismatch { declared: 100, len: 99 });
    assert!(stream.is_empty());
}

#[test]
fn reject_truncated_payload() {
    let header = header(100);

    // Selector + header + only 50 of the 100 declared bytes.
    let mut stream = Vec::new();
    open_stream(&mut stream, Protocol::Chunk);
    write_framed(&mut stream, &header).unwrap();
    stream.extend_from_slice(&[0u8; 50]);

    let (proto, rest) = read_selector(&stream).unwrap();
    assert_eq!(proto, Protocol::Chunk);

    let (_h, mut payload_reader) = read_chunk_stream(rest).unwrap();
    let err = payload_reader
        .read_to_end()
        .expect_err("truncated payload must error");
    assert_eq!(err, ReadError::UnexpectedEof);
    assert_eq!(payload_reader.remaining(), 50);
}

#[test]
fn payload_reader_yields_eof_after_full_read() {
    let payload = vec![0xBB_u8; 32];
    let header = header(u32::try_from(payload.len()).unwrap());
    let mut stream = Vec::new();
    write_chunk(&mut stream, &header, &payload).unwrap();

    let (_, rest) = read_selector(&stream).unwrap();
    let (_h, mut payload_reader) = read_chunk_stream(rest).unwrap();

    let buf = payload_reader.read(payload.len()).unwrap();
    assert_eq!(buf, payload);

    // Next read should be a clean end (nothing read), not an error.
    let more = payload_reader.read(8).unwrap();
    assert_eq!(more.len(), 0);
}

#[test]
fn payload_reader_stops_at_the_declared_length() {
    let mut stream = Vec::new();
    write_chunk(&mut stream, &header(4), &[1, 2, 3, 4]).unwrap();
    stream.extend_from_slice(&[9, 9]);
    let (_, rest) = read_selector(&stream).unwrap();
    let (_h, mut reader) = read_chunk_stream(rest).unwrap();
    assert_eq!(reader.read(3).unwrap(), vec![1, 2, 3]);
    assert_eq!(reader.remaining(), 1);
    assert_eq!(reader.want(10), 1);
    assert_eq!(reader.read(10).unwrap(), vec![4]);
    assert_eq!(reader.read(10).unwrap(), Vec::<u8>::new());
}

#[test]
fn payload_reader_without_room_reads_nothing() {
    let mut stream = Vec::new();
    write_chunk(&mut stream, &header(4), &[1, 2, 3, 4]).unwrap();
    let (_, rest) = read_selector(&stream).unwrap();
    let (_h, mut reader) = read_chunk_stream(rest).unwrap();
    assert_eq!(reader.read(0).unwrap(), Vec::<u8>::new());
    assert_eq!(reader.remaining(), 4);
    assert_eq!(reader.read(3).unwrap(), vec![1, 2, 3]);
    assert_eq!(reader.read(0).unwrap(), Vec::<u8>::new());
    assert_eq!(reader.read(8).unwrap(), vec![4]);
    assert_eq!(reader.took(0, 0), Ok(()));
}

#[test]
fn oversize_chunk_is_rejected_on_both_sides() {
    let header = header(MAX_CHUNK_DATA_BYTES + 1);
    let mut stream = Vec::new();
    assert_eq!(
        write_chunk(&mut stream, &header, &[]).unwrap_err(),
        WriteError::PayloadTooLarge { len: MAX_CHUNK_DATA_BYTES + 1 }
    );
    write_framed(&mut stream, &header).unwrap();
    assert_eq!(
        read_chunk_stream(&stream).unwrap_err(),
        ReadError::PayloadTooLarge { len: MAX_CHUNK_DATA_BYTES + 1 }
    );
}

#[test]
fn selector_is_a_single_raw_byte() {
    let mut got = Vec::new();
    open_stream(&mut got, Protocol::Sess);
    assert_eq!(got, [Protocol::Sess.number()]); // exactly one byte, value 2
    assert_eq!(got, [2]);
}

#[test]
fn roundtrip_each_variant() {
    for proto in [Protocol::Bcast, Protocol::Sess, Protocol::Chunk] {
        let mut stream = Vec::new();
        open_stream(&mut stream, proto);
        let (got, rest) = read_selector(&stream).unwrap();
        assert_eq!(got, proto);
        assert!(rest.is_empty());
    }
}

#[test]
fn reject_unspecified() {
    let mut stream = Vec::new();
    open_stream(&mut stream, Protocol::Unspecified);
    let err = read_selector(&stream).expect_err("PROTOCOL_UNSPECIFIED must be rejected");
    assert_eq!(err, ReadError::UnspecifiedSelector);
}

#[test]
fn reject_unknown_protocol_number() {
    let err = read_selector(&[99]).expect_err("unknown protocol must be rejected");
    assert_eq!(err, ReadError::UnknownSelector { byte: 99 });
}

#[test]
fn reject_empty_stream() {
    assert_eq!(read_selector(&[]).unwrap_err(), ReadError::UnexpectedEof);
}

fn probe(len: usize) -> Update {
    Update { data: vec![0xAB; len] }
}

#[test]
fn roundtrip_known_lengths() {
    for n in [0_usize, 1, 127, 128, 16_383, 16_384, 65_536] {
        let probe = probe(n);
        let mut stream = Vec::new();
        write_framed(&mut stream, &probe).unwrap();
        let (decoded, rest): (Update, &[u8]) = read_framed(&stream).unwrap();
        assert_eq!(probe, decoded);
        assert!(rest.is_empty());
    }
}

#[test]
fn length_prefix_is_four_byte_big_endian() {
    // Payload field `[0xAB]` encodes to the 3-byte protobuf body
    // `0a 01 ab`; the frame must prefix it with 00 00 00 03.
    let mut got = Vec::new();
    write_framed(&mut got, &probe(1)).unwrap();
    assert_eq!(got, [0x00, 0x00, 0x00, 0x03, 0x0a, 0x01, 0xab]);
    assert_eq!(frame_length(&[0x00, 0x01, 0x02, 0x03]), Ok(0x1_0203));
}

#[test]
fn reject_truncated_frame() {
    // Length prefix declares 16 bytes; only 8 follow before EOF.
    let mut stream = 16_u32.to_be_bytes().to_vec();
    stream.extend_from_slice(&[0_u8; 8]);
    let result: Result<(Update, &[u8]), ReadError> = read_framed(&stream);
    assert_eq!(
        result.unwrap_err(),
        ReadError::UnexpectedEof,
        "truncated frame must report EOF"
    );
}

#[test]
fn reject_truncated_length_prefix() {
    // Fewer than the 4 length bytes before EOF.
    let result: Result<(Update, &[u8]), ReadError> = read_framed(&[0x00, 0x00]);
    assert_eq!(result.unwrap_err(), ReadError::UnexpectedEof);
}

#[test]
fn reject_oversize_frame() {
    // Length prefix declares MAX_FRAME_BYTES + 1.
    let oversized = u32::try_from(MAX_FRAME_BYTES).unwrap() + 1;
    let stream = oversized.to_be_bytes();
    let result: Result<(Update, &[u8]), ReadError> = read_framed(&stream);
    assert_eq!(
        result.expect_err("oversize frame must be rejected"),
        ReadError::FrameTooLarge { len: oversized }
    );
}

#[test]
fn write_rejects_oversize_message() {
    let probe = Update {
        data: vec![0u8; MAX_FRAME_BYTES + 1],
    };
    let mut sink = Vec::new();
    let err = write_framed(&mut sink, &probe)
        .expect_err("oversize message must be rejected on write");
    assert_eq!(
        err,
        WriteError::FrameTooLarge {
            len: probe.encode_to_vec().len()
        }
    );
    assert!(sink.is_empty());
}

#[test]
fn malformed_frame_is_rejected() {
    let stream = [0, 0, 0, 1, 0x0a];
    let result: Result<(Update, &[u8]), ReadError> = read_framed(&stream);
    assert_eq!(
        result.unwrap_err(),
        ReadError::Malformed(WireError::InvalidVarint)
    );
}
