//! In-process transport.

use ethp2p::runtime::memory_net::{MemoryNetEndpoint, MemoryNetHub};
use ethp2p::runtime::{Net, NetError, NetEvent, NetSend};

fn two_peers() -> MemoryNetEndpoint {
    let mut hub = MemoryNetHub::new();
    hub.register(2);
    hub.endpoint(1)
}

fn chunk(peer: u64, chunk_id: u32, payload: Vec<u8>) -> NetSend {
    NetSend::Chunk {
        peer,
        channel: "test".into(),
        message_id: "msg".into(),
        chunk_id,
        payload,
        token: 0,
    }
}

#[test]
fn pairwise_chunk_exchange() {
    let mut a = two_peers();
    a.send(chunk(2, 7, vec![1, 2, 3])).unwrap();

    match a.hub_mut().next_event(2) {
        Some(NetEvent::Chunk {
            peer,
            channel,
            message_id,
            chunk_id,
            payload,
        }) => {
            assert_eq!(peer, 1);
            assert_eq!(channel, "test");
            assert_eq!(message_id, "msg");
            assert_eq!(chunk_id, 7);
            assert_eq!(payload, vec![1, 2, 3]);
        }
        other => panic!("expected Chunk event, got {other:?}"),
    }
    // The sender learns that the chunk went out.
    assert_eq!(
        a.hub_mut().next_event(1),
        Some(NetEvent::ChunkSendResult {
            peer: 2,
            channel: "test".into(),
            message_id: "msg".into(),
            token: 0,
            ok: true,
        })
    );
    assert_eq!(a.hub_mut().next_event(1), None);
}

#[test]
fn ordering_preserved_per_sender() {
    let mut a = two_peers();
    for n in 0..16_u32 {
        a.send(chunk(2, n, vec![])).unwrap();
    }
    for expected in 0..16_u32 {
        match a.hub_mut().next_event(2) {
            Some(NetEvent::Chunk { chunk_id, .. }) => assert_eq!(chunk_id, expected),
            other => panic!("expected Chunk, got {other:?}"),
        }
    }
}

#[test]
fn memory_net_send_to_unknown_peer_errors() {
    let mut a = MemoryNetHub::new().endpoint(1);
    let err = a.send(chunk(99, 0, vec![])).unwrap_err();
    assert_eq!(err, NetError::PeerNotFound(99));
}

#[test]
fn session_reconstructed_notifies_openers() {
    let mut net = two_peers();

    // A opens a session to B, registering A as an inbound opener at B.
    net.send(NetSend::SessionOpen {
        peer: 2,
        channel: "ch".into(),
        message_id: "m".into(),
        preamble: vec![],
        initial_update: vec![],
    })
    .unwrap();

    // B reconstructs and resets its inbound sessions; A must observe it.
    net.switch_to(2);
    let done = NetSend::SessionReconstructed {
        channel: "ch".into(),
        message_id: "m".into(),
    };
    net.send(done.clone()).unwrap();

    match net.hub_mut().next_event(1) {
        Some(NetEvent::PeerReconstructed {
            peer,
            channel,
            message_id,
        }) => {
            assert_eq!(peer, 2);
            assert_eq!(channel, "ch");
            assert_eq!(message_id, "m");
        }
        other => panic!("expected PeerReconstructed, got {other:?}"),
    }

    // It is told once.
    net.send(done).unwrap();
    assert_eq!(net.hub_mut().next_event(1), None);
}

#[test]
fn closed_and_disconnected_peers_are_refused() {
    let mut net = two_peers();
    net.send(chunk(2, 0, vec![])).unwrap();
    net.hub_mut().close(2);
    assert_eq!(net.send(chunk(2, 1, vec![])), Err(NetError::Closed));
    assert_eq!(net.hub_mut().next_event(2), None);
    net.hub_mut().disconnect(2);
    assert_eq!(
        net.send(chunk(2, 1, vec![])),
        Err(NetError::PeerNotFound(2))
    );
}

#[test]
fn interleaved_senders_are_seen_in_order_and_reported_once() {
    let mut net = two_peers();
    net.hub_mut().register(3);
    for i in 0..4 {
        net.switch_to(1);
        net.send(chunk(2, i, vec![])).unwrap();
        net.switch_to(3);
        net.send(chunk(2, 100 + i, vec![])).unwrap();
    }
    let mut from: [Vec<u32>; 2] = [Vec::new(), Vec::new()];
    while let Some(event) = net.hub_mut().next_event(2) {
        match event {
            NetEvent::Chunk { peer: 1, chunk_id, .. } => from[0].push(chunk_id),
            NetEvent::Chunk { peer: 3, chunk_id, .. } => from[1].push(chunk_id),
            other => panic!("unexpected {other:?}"),
        }
    }
    assert_eq!(from, [vec![0, 1, 2, 3], vec![100, 101, 102, 103]]);
    for sender in [1, 3] {
        for _ in 0..4 {
            assert!(matches!(
                net.hub_mut().next_event(sender),
                Some(NetEvent::ChunkSendResult { peer: 2, ok: true, .. })
            ));
        }
        assert_eq!(net.hub_mut().next_event(sender), None);
    }
}
