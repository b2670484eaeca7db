//! Protobuf encoding of the messages.

use ethp2p::differential::{
    bcast_parse_and_reencode, chunk_header_parse_and_reencode, compare, parse_and_reencode,
    rs_chunk_ident_parse_and_reencode, rs_preamble_parse_and_reencode,
    selector_parse_and_reencode, sess_parse_and_reencode, Comparison,
};
use ethp2p::hex_text::{hex_short, sha256_hex};
use ethp2p::pb::bcast::{Handshake, Subscribe, Unsubscribe};
use ethp2p::pb::chunk::Header;
use ethp2p::pb::rs::{ChunkIdent, Preamble};
use ethp2p::pb::sess::{Open, Update};
use ethp2p::pb::wire::Message;
use ethp2p::pb::{bcast, sess, Bcast, Sess, WireError};

// The same messages as `prost` has them, written out by hand.
fn prost_bytes(tag: u32, value: &[u8], out: &mut Vec<u8>) {
    if !value.is_empty() {
        prost::encoding::bytes::encode(tag, &value.to_vec(), out);
    }
}

#[test]
fn preamble_bytes_are_those_of_prost() {
    let p = Preamble {
        num_data: 16,
        num_parity: -3,
        length: 70_000,
        hashes: vec![vec![1, 2], vec![]],
        hash: vec![7; 32],
    };
    let mut expected = Vec::new();
    prost::encoding::int32::encode(1, &16, &mut expected);
    prost::encoding::int32::encode(2, &-3, &mut expected);
    prost::encoding::int32::encode(3, &70_000, &mut expected);
    prost::encoding::bytes::encode_repeated(4, &[vec![1_u8, 2], vec![]], &mut expected);
    prost_bytes(5, &[7; 32], &mut expected);
    assert_eq!(p.encode_to_vec(), expected);
    let back = Preamble::decode(&expected).unwrap();
    assert_eq!(back.num_data, 16);
    assert_eq!(back.num_parity, -3);
    assert_eq!(back.length, 70_000);
    assert_eq!(back.hashes, vec![vec![1, 2], vec![]]);
    assert_eq!(back.hash, vec![7; 32]);
}

#[test]
fn handshake_bytes_and_round_trip() {
    let frame = Bcast {
        message: Some(bcast::Message::PeerHandshake(Handshake {
            version: 1,
            channels: vec!["a".to_string(), "".to_string()],
            peer_id: "p".to_string(),
        })),
    };
    let bytes = frame.encode_to_vec();
    // Field 1, length 10: version 1, two channels, name.
    assert_eq!(
        bytes,
        [0x0a, 10, 0x08, 1, 0x12, 1, b'a', 0x12, 0, 0x1a, 1, b'p']
    );
    assert_eq!(Bcast::decode(&bytes).unwrap(), frame);
}

#[test]
fn every_frame_round_trips() {
    for message in [
        None,
        Some(bcast::Message::ChannelSubscribe(Subscribe {
            channel: "blocks".to_string(),
        })),
        Some(bcast::Message::ChannelUnsubscribe(Unsubscribe {
            channel: "blobs".to_string(),
        })),
    ] {
        let frame = Bcast { message };
        assert_eq!(Bcast::decode(&frame.encode_to_vec()).unwrap(), frame);
    }
    for inner in [
        None,
        Some(sess::Frame::SessionOpen(Open {
            channel: "c".to_string(),
            message_id: "m".to_string(),
            preamble: vec![1, 2, 3],
            initial_update: vec![],
        })),
        Some(sess::Frame::RoutingUpdate(Update { data: vec![255, 0] })),
    ] {
        let frame = Sess { frame: inner };
        assert_eq!(Sess::decode(&frame.encode_to_vec()).unwrap(), frame);
    }
    let header = Header {
        channel: "ch\u{e9}".to_string(),
        message_id: String::new(),
        chunk_id: vec![8, 1],
        data_length: u32::MAX,
    };
    assert_eq!(Header::decode(&header.encode_to_vec()).unwrap(), header);
    for index in [0, 1, 127, 128, i32::MAX, -1, i32::MIN] {
        let ident = ChunkIdent { index };
        assert_eq!(ChunkIdent::decode(&ident.encode_to_vec()).unwrap(), ident);
    }
    assert_eq!(ChunkIdent { index: -1 }.encode_to_vec().len(), 11);
    assert_eq!(ChunkIdent { index: 300 }.encode_to_vec(), [0x08, 0xac, 0x02]);
}

#[test]
fn repeated_frames_of_a_kind_merge() {
    let a = Bcast {
        message: Some(bcast::Message::PeerHandshake(Handshake {
            version: 1,
            channels: vec!["a".to_string()],
            peer_id: "p".to_string(),
        })),
    };
    let b = Bcast {
        message: Some(bcast::Message::PeerHandshake(Handshake {
            version: 2,
            channels: vec!["b".to_string()],
            peer_id: String::new(),
        })),
    };
    let mut bytes = a.encode_to_vec();
    b.encode(&mut bytes);
    assert_eq!(
        Bcast::decode(&bytes).unwrap(),
        Bcast {
            message: Some(bcast::Message::PeerHandshake(Handshake {
                version: 2,
                channels: vec!["a".to_string(), "b".to_string()],
                peer_id: "p".to_string(),
            })),
        }
    );
    let c = Bcast {
        message: Some(bcast::Message::ChannelSubscribe(Subscribe {
            channel: "x".to_string(),
        })),
    };
    c.encode(&mut bytes);
    assert_eq!(Bcast::decode(&bytes).unwrap(), c);
}

#[test]
fn unknown_fields_are_skipped() {
    // Field 9: a varint, eight bytes, four bytes, a string and a group.
    let mut bytes = vec![0x48, 0x96, 0x01];
    bytes.extend_from_slice(&[0x49, 1, 2, 3, 4, 5, 6, 7, 8]);
    bytes.extend_from_slice(&[0x4d, 1, 2, 3, 4]);
    bytes.extend_from_slice(&[0x4a, 2, 0, 0]);
    bytes.extend_from_slice(&[0x4b, 0x08, 1, 0x4c]);
    bytes.extend_from_slice(&[0x08, 5]);
    assert_eq!(ChunkIdent::decode(&bytes).unwrap(), ChunkIdent { index: 5 });
}

/// A group of field 9 that holds another, and so on, `depth` of them.
fn groups(depth: usize) -> Vec<u8> {
    let mut bytes = vec![0x4b; depth];
    bytes.extend(vec![0x4c; depth]);
    bytes
}

#[test]
fn groups_are_nested_less_deeply_in_nested_messages() {
    assert!(ChunkIdent::decode(&groups(100)).is_ok());
    assert_eq!(ChunkIdent::decode(&groups(101)), Err(WireError::InvalidGroup));
    let inside = |depth: usize| {
        let mut bytes = Vec::new();
        prost_bytes(1, &groups(depth), &mut bytes);
        bytes
    };
    assert!(Sess::decode(&inside(99)).is_ok());
    assert_eq!(Sess::decode(&inside(100)), Err(WireError::InvalidGroup));
    assert!(Bcast::decode(&inside(99)).is_ok());
    assert_eq!(Bcast::decode(&inside(100)), Err(WireError::InvalidGroup));
    // A group that does not end within its message is refused too.
    let mut open_end = Vec::new();
    prost_bytes(1, &[0x4b], &mut open_end);
    open_end.push(0x4c);
    assert_eq!(Sess::decode(&open_end), Err(WireError::InvalidGroup));
}

#[test]
fn malformed_messages_are_refused() {
    assert_eq!(ChunkIdent::decode(&[0x08]), Err(WireError::InvalidVarint));
    assert_eq!(ChunkIdent::decode(&[0x08, 0x80]), Err(WireError::InvalidVarint));
    assert_eq!(
        ChunkIdent::decode(&[0x08, 255, 255, 255, 255, 255, 255, 255, 255, 255, 2]),
        Err(WireError::InvalidVarint)
    );
    assert_eq!(ChunkIdent::decode(&[0x00, 1]), Err(WireError::InvalidKey));
    assert_eq!(ChunkIdent::decode(&[0x0f, 1]), Err(WireError::InvalidKey));
    assert_eq!(
        ChunkIdent::decode(&[0x0a, 0]),
        Err(WireError::UnexpectedWireType)
    );
    assert_eq!(
        ChunkIdent::decode(&[0x12, 4, 1]),
        Err(WireError::BufferUnderflow)
    );
    assert_eq!(ChunkIdent::decode(&[0x15, 4]), Err(WireError::BufferUnderflow));
    assert_eq!(ChunkIdent::decode(&[0x0c]), Err(WireError::InvalidGroup));
    assert_eq!(ChunkIdent::decode(&[0x0b, 0x14]), Err(WireError::InvalidGroup));
    assert_eq!(Header::decode(&[0x0a, 1, 0xff]), Err(WireError::InvalidUtf8));
}

#[test]
fn decoders_can_be_compared() {
    let frame = Bcast {
        message: Some(bcast::Message::ChannelSubscribe(Subscribe {
            channel: "x".to_string(),
        })),
    };
    let bytes = frame.encode_to_vec();
    let again = parse_and_reencode::<Bcast>(&bytes);
    assert_eq!(again, Some(bytes.clone()));
    assert_eq!(bcast_parse_and_reencode(&bytes), Some(bytes.clone()));
    assert_eq!(bcast_parse_and_reencode(&[0x0a]), None);
    assert_eq!(sess_parse_and_reencode(&[0x12, 0]), Some(vec![0x12, 0]));
    assert_eq!(selector_parse_and_reencode(&[0x08, 0]), Some(vec![]));
    assert_eq!(
        chunk_header_parse_and_reencode(&[0x20, 7, 0x20, 9]),
        Some(vec![0x20, 9])
    );
    assert_eq!(rs_preamble_parse_and_reencode(&[0x22, 0]), Some(vec![0x22, 0]));
    assert_eq!(
        rs_chunk_ident_parse_and_reencode(&[0x08, 0x81, 0x00]),
        Some(vec![0x08, 1])
    );
    assert_eq!(compare(&again, &Some(bytes)), Comparison::Agree);
    assert_eq!(compare(&again, &Some(vec![])), Comparison::Mismatch);
    assert_eq!(compare(&again, &None), Comparison::OnlyFirst);
    assert_eq!(compare(&None, &again), Comparison::OnlySecond);
    assert_eq!(compare(&None, &None), Comparison::BothReject);
}

#[test]
fn long_bytes_are_cut_in_text() {
    assert_eq!(hex_short(&[0x00, 0x0f, 0xab]), "000fab");
    let long = vec![0x11_u8; 65];
    assert_eq!(
        hex_short(&long),
        format!("{}... (65 bytes total)", "11".repeat(64))
    );
}

#[test]
fn digest_of_nothing_in_hexadecimal() {
    assert_eq!(
        sha256_hex(&[]),
        "e3b0c44298fc1c149afbf4c8996fb92427ae41e4649b934ca495991b7852b855"
    );
}
