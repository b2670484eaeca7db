//! Decisions of the QUIC transport.

use ethp2p::chunk::read_chunk_stream;
use ethp2p::pb::chunk::Header;
use ethp2p::pb::rs::ChunkIdent;
use ethp2p::pb::wire::Message;
use ethp2p::pb::{Bcast, Sess, WireError};
use ethp2p::protocol::Protocol;
use ethp2p::runtime::{NetError, NetEvent, NetSend};
use ethp2p::selector::read_selector;
use ethp2p::transport::config::{
    QuicNetConfig, ALPN, ERR_RECONSTRUCTED, MAX_RECONSTRUCTED_TRACKED,
};
use ethp2p::transport::inbound::{
    bcast_event, chunk_event, chunk_index, frame_or_end, is_impostor, sess_event, Action,
    ChunkIdError, InboundStream,
};
use ethp2p::transport::outbound::{chunk_report, plan, stop_event, Outbound};
use ethp2p::transport::reset::ReconstructedTracker;
use ethp2p::transport::routes::{answer, route, Enqueued, Route};
use ethp2p::wire::{read_framed, ReadError, WriteError, MAX_FRAME_BYTES};

fn handshake() -> NetSend {
    NetSend::Handshake {
        peer: 9,
        version: 1,
        channels: vec!["a".into(), "b".into()],
        peer_id: "peer-4".into(),
    }
}

fn control_bytes(msg: &NetSend, ctrl_open: bool) -> Vec<u8> {
    match plan(msg, ctrl_open, false).unwrap() {
        Outbound::Control { open, bytes } => {
            assert_eq!(open, !ctrl_open);
            bytes
        }
        other => panic!("expected a control frame, got {other:?}"),
    }
}

#[test]
fn control_frames_reach_the_other_side() {
    let bytes = control_bytes(&handshake(), false);
    let (proto, rest) = read_selector(&bytes).unwrap();
    assert_eq!(proto, Protocol::Bcast);
    let (frame, rest): (Bcast, &[u8]) = read_framed(rest).unwrap();
    assert!(rest.is_empty());
    assert_eq!(
        bcast_event(3, frame),
        Some(NetEvent::Handshake {
            peer: 3,
            version: 1,
            channels: vec!["a".into(), "b".into()],
            peer_id: "peer-4".into(),
        })
    );

    // On an open stream there is no selector.
    let bytes = control_bytes(
        &NetSend::Subscribe {
            peer: 9,
            channel: "a".into(),
        },
        true,
    );
    let (frame, _): (Bcast, &[u8]) = read_framed(&bytes).unwrap();
    assert_eq!(
        bcast_event(3, frame),
        Some(NetEvent::Subscribe {
            peer: 3,
            channel: "a".into(),
        })
    );
    let bytes = control_bytes(
        &NetSend::Unsubscribe {
            peer: 9,
            channel: "a".into(),
        },
        true,
    );
    let (frame, _): (Bcast, &[u8]) = read_framed(&bytes).unwrap();
    assert_eq!(
        bcast_event(3, frame),
        Some(NetEvent::Unsubscribe {
            peer: 3,
            channel: "a".into(),
        })
    );
    assert_eq!(bcast_event(3, Bcast { message: None }), None);
}

#[test]
fn session_frames_reach_the_other_side() {
    let open = NetSend::SessionOpen {
        peer: 9,
        channel: "c".into(),
        message_id: "m".into(),
        preamble: vec![1, 2],
        initial_update: vec![3],
    };
    let bytes = match plan(&open, false, false).unwrap() {
        Outbound::OpenSession { bytes } => bytes,
        other => panic!("expected a session, got {other:?}"),
    };
    let (proto, rest) = read_selector(&bytes).unwrap();
    assert_eq!(proto, Protocol::Sess);
    let (frame, _): (Sess, &[u8]) = read_framed(rest).unwrap();
    assert_eq!(
        sess_event(3, frame),
        Some(NetEvent::SessionOpen {
            peer: 3,
            channel: "c".into(),
            message_id: "m".into(),
            preamble: vec![1, 2],
            initial_update: vec![3],
        })
    );

    let update = NetSend::RoutingUpdate {
        peer: 9,
        channel: "c".into(),
        message_id: "m".into(),
        payload: vec![0xff],
    };
    assert!(matches!(
        plan(&update, false, false),
        Ok(Outbound::NoSession)
    ));
    let bytes = match plan(&update, false, true).unwrap() {
        Outbound::UpdateSession { bytes } => bytes,
        other => panic!("expected an update, got {other:?}"),
    };
    // Routing updates do not surface.
    let (frame, _): (Sess, &[u8]) = read_framed(&bytes).unwrap();
    assert_eq!(sess_event(3, frame), None);
}

#[test]
fn chunks_reach_the_other_side() {
    let msg = NetSend::Chunk {
        peer: 9,
        channel: "c".into(),
        message_id: "m".into(),
        chunk_id: 300,
        payload: vec![5; 10],
        token: 77,
    };
    let bytes = match plan(&msg, false, false).unwrap() {
        Outbound::Chunk { bytes } => bytes.unwrap(),
        other => panic!("expected a chunk, got {other:?}"),
    };
    let (proto, rest) = read_selector(&bytes).unwrap();
    assert_eq!(proto, Protocol::Chunk);
    let (header, mut reader) = read_chunk_stream(rest).unwrap();
    let index = chunk_index(&header).unwrap();
    let payload = reader.read_to_end().unwrap();
    assert_eq!(
        chunk_event(3, header, index, payload),
        NetEvent::Chunk {
            peer: 3,
            channel: "c".into(),
            message_id: "m".into(),
            chunk_id: 300,
            payload: vec![5; 10],
        }
    );
    assert_eq!(
        chunk_report(&msg, false),
        Some(NetEvent::ChunkSendResult {
            peer: 9,
            channel: "c".into(),
            message_id: "m".into(),
            token: 77,
            ok: false,
        })
    );
    assert_eq!(chunk_report(&handshake(), true), None);
}

#[test]
fn what_does_not_fit_is_refused() {
    let long = NetSend::Subscribe {
        peer: 9,
        channel: "x".repeat(MAX_FRAME_BYTES),
    };
    assert!(matches!(
        plan(&long, false, false),
        Err(WriteError::FrameTooLarge { len }) if len > MAX_FRAME_BYTES
    ));
    let big = NetSend::Chunk {
        peer: 9,
        channel: "c".into(),
        message_id: "m".into(),
        chunk_id: 0,
        payload: vec![0; MAX_FRAME_BYTES + 1],
        token: 0,
    };
    assert!(matches!(
        plan(&big, false, false),
        Ok(Outbound::Chunk { bytes: None })
    ));
}

#[test]
fn chunk_identifiers_are_checked() {
    let header = |chunk_id: Vec<u8>| Header {
        channel: String::new(),
        message_id: String::new(),
        chunk_id,
        data_length: 0,
    };
    assert_eq!(chunk_index(&header(vec![])), Ok(0));
    assert_eq!(
        chunk_index(&header(ChunkIdent { index: -5 }.encode_to_vec())),
        Err(ChunkIdError::Negative { index: -5 })
    );
    assert_eq!(
        chunk_index(&header(vec![0x08])),
        Err(ChunkIdError::Malformed(WireError::InvalidVarint))
    );
}

#[test]
fn pinned_identities_are_compared() {
    let bytes = control_bytes(&handshake(), true);
    let (frame, _): (Bcast, &[u8]) = read_framed(&bytes).unwrap();
    assert!(!is_impostor(&frame, &None));
    assert!(!is_impostor(&frame, &Some("peer-4".into())));
    assert!(is_impostor(&frame, &Some("peer-5".into())));
    assert!(!is_impostor(&Bcast { message: None }, &Some("peer-5".into())));
}

#[test]
fn inbound_streams_are_read_frame_by_frame() {
    let body = |msg: &NetSend| control_bytes(msg, true)[4..].to_vec();
    let mut pinned = InboundStream::bcast(3, Some("peer-5".into()));
    let subscribe = NetSend::Subscribe {
        peer: 9,
        channel: "a".into(),
    };
    assert!(matches!(
        pinned.on_frame(&body(&subscribe)),
        Ok(Action::Emit(NetEvent::Subscribe { peer: 3, .. }))
    ));
    assert!(matches!(
        pinned.on_frame(&body(&handshake())),
        Ok(Action::CloseConnection)
    ));
    let mut open = InboundStream::bcast(3, Some("peer-4".into()));
    assert!(matches!(
        open.on_frame(&body(&handshake())),
        Ok(Action::Emit(NetEvent::Handshake { peer: 3, .. }))
    ));
    assert!(matches!(open.on_frame(&[]), Ok(Action::Continue)));
    assert!(matches!(
        open.on_frame(&[0x0a]),
        Err(ReadError::Malformed(WireError::InvalidVarint))
    ));
    assert!(open.session().is_none());

    let mut sess = InboundStream::sess(3);
    assert!(sess.session().is_none());
    let frame = Sess {
        frame: Some(ethp2p::pb::sess::Frame::SessionOpen(ethp2p::pb::sess::Open {
            channel: "c".into(),
            message_id: "m".into(),
            preamble: vec![],
            initial_update: vec![],
        })),
    };
    assert!(matches!(
        sess.on_frame(&frame.encode_to_vec()),
        Ok(Action::Emit(NetEvent::SessionOpen { peer: 3, .. }))
    ));
    assert_eq!(sess.session(), Some(&("c".to_string(), "m".to_string())));
    let update = Sess {
        frame: Some(ethp2p::pb::sess::Frame::RoutingUpdate(
            ethp2p::pb::sess::Update { data: vec![1] },
        )),
    };
    assert!(matches!(
        sess.on_frame(&update.encode_to_vec()),
        Ok(Action::Continue)
    ));
    assert!(matches!(
        sess.on_frame(&[0x0a]),
        Err(ReadError::Malformed(WireError::InvalidVarint))
    ));
}

#[test]
fn stop_codes_tell_reconstruction_from_leaving() {
    assert_eq!(
        stop_event(2, "c".into(), "m".into(), u64::from(ERR_RECONSTRUCTED)),
        NetEvent::PeerReconstructed {
            peer: 2,
            channel: "c".into(),
            message_id: "m".into(),
        }
    );
    assert_eq!(
        stop_event(2, "c".into(), "m".into(), 0),
        NetEvent::SessionClosed {
            peer: 2,
            channel: "c".into(),
            message_id: "m".into(),
        }
    );
}

#[test]
fn streams_end_cleanly() {
    assert_eq!(frame_or_end::<u8>(Ok(3)), Ok(Some(3)));
    assert_eq!(
        frame_or_end::<u8>(Err(ReadError::UnexpectedEof)),
        Ok(None)
    );
    assert_eq!(
        frame_or_end::<u8>(Err(ReadError::UnspecifiedSelector)),
        Err(ReadError::UnspecifiedSelector)
    );
}

#[test]
fn reconstructed_sessions_are_tracked_first_in_first_out() {
    let mut tracker = ReconstructedTracker::new();
    let key = |n: usize| ("c".to_string(), format!("m{n}"));
    for n in 0..MAX_RECONSTRUCTED_TRACKED {
        tracker.record(key(n));
    }
    tracker.record(key(5));
    assert!(tracker.is_reconstructed(&key(0)));
    tracker.record(key(MAX_RECONSTRUCTED_TRACKED));
    assert!(!tracker.is_reconstructed(&key(0)));
    assert!(tracker.is_reconstructed(&key(1)));
    assert!(tracker.is_reconstructed(&key(MAX_RECONSTRUCTED_TRACKED)));
}

#[test]
fn messages_are_routed_by_destination() {
    let mut tracker = ReconstructedTracker::new();
    let done = NetSend::SessionReconstructed {
        channel: "c".into(),
        message_id: "m".into(),
    };
    assert!(matches!(route(&mut tracker, done), Route::Recorded));
    assert!(tracker.is_reconstructed(&("c".into(), "m".into())));
    assert!(matches!(
        route(&mut tracker, handshake()),
        Route::Peer { dst: 9, msg } if msg == handshake()
    ));
    assert_eq!(answer(9, Enqueued::Accepted), Ok(()));
    assert_eq!(answer(9, Enqueued::Full), Err(NetError::Backpressure(9)));
    assert_eq!(answer(9, Enqueued::Closed), Err(NetError::PeerNotFound(9)));
    assert_eq!(answer(9, Enqueued::Unknown), Err(NetError::PeerNotFound(9)));
}

#[test]
fn default_transport_configuration() {
    let c = QuicNetConfig::default();
    assert_eq!(c.alpn, b"eth-ec-broadcast");
    assert_eq!(&ALPN, b"eth-ec-broadcast");
    assert_eq!(c.max_idle_timeout, 30_000_000_000);
    assert_eq!(c.keep_alive_interval, 10_000_000_000);
}
