//! Integration tests for the per-session state machine.
//!
//! Drives `Session<RsStrategy>` directly without an engine, channel,
//! or networking surface.

use ethp2p::strategy::config::RsConfig;
use ethp2p::strategy::rs::state::RsStrategy;
use ethp2p::session::{Session, SessionError, SessionState};
use ethp2p::strategy::bitmap::BitMap;
use ethp2p::strategy::{PeerId, TakeError, Verdict};

const PEER_A: PeerId = 0xAAAA;
const PEER_B: PeerId = 0xBBBB;

fn relay_session(payload: &[u8]) -> (Session<RsStrategy>, RsStrategy) {
    let config = RsConfig::default();
    let origin = RsStrategy::new_origin(payload, config, 7).unwrap();
    let preamble = origin.preamble().clone();
    let relay_strategy = RsStrategy::new_relay(preamble, config, 7).unwrap();
    (Session::new_relay(relay_strategy), origin)
}

fn collect_chunks(origin: &RsStrategy) -> Vec<(u32, Vec<u8>)> {
    let total = origin.total_shards();
    (0..total)
        .map(|i| {
            let chunk = origin.reconstruct_shard(i);
            (i, chunk)
        })
        .collect()
}

// Helper added in tests to avoid making `RsStrategy::chunks` public.
// We re-encode origin and pull shards directly via a small helper trait.
trait TestShardAccess {
    fn reconstruct_shard(&self, idx: u32) -> Vec<u8>;
}

impl TestShardAccess for RsStrategy {
    fn reconstruct_shard(&self, idx: u32) -> Vec<u8> {
        // Re-encode via the public encode API. For tests we accept the
        // cost; production paths don't call this.
        let payload_len = self.preamble().length as usize;
        let payload = self.reconstruct().unwrap();
        assert_eq!(payload.len(), payload_len);
        let (_, shards) =
            ethp2p::strategy::rs::encode::encode(&payload, self.config()).unwrap();
        shards[idx as usize].clone()
    }
}

#[test]
fn origin_session_is_terminal_origin_state() {
    let payload = b"origin terminal".to_vec();
    let strategy = RsStrategy::new_origin(&payload, RsConfig::default(), 7).unwrap();
    let mut session = Session::new_origin(strategy);
    assert_eq!(session.state(), SessionState::Origin);

    let err = session.take_chunk(0, vec![0; 10]).unwrap_err();
    assert!(
        matches!(err, SessionError::PostConsuming(Verdict::Invalid)),
        "got {err:?}"
    );
    assert_eq!(session.state(), SessionState::Origin);
}

#[test]
fn relay_session_reconstructs_from_full_shard_set() {
    let payload = b"relay full shard set".to_vec();
    let (mut relay, origin) = relay_session(&payload);
    let chunks = collect_chunks(&origin);

    relay.attach_peer(PEER_A);
    assert_eq!(relay.state(), SessionState::Consuming);

    for (idx, data) in chunks {
        let outcome = relay.take_chunk(idx, data).unwrap();
        assert!(
            matches!(outcome.verdict, Verdict::Accepted | Verdict::Redundant),
            "verdict {:?} for idx {idx}",
            outcome.verdict
        );
        if outcome.complete {
            break;
        }
    }
    assert_eq!(relay.state(), SessionState::Decoding);

    let recovered = relay.decode_and_finish().unwrap();
    assert_eq!(recovered, payload);
    assert_eq!(relay.state(), SessionState::Reconstructed);
}

#[test]
fn relay_session_reconstructs_from_sparse_subset() {
    let payload = b"relay sparse subset reconstruct".to_vec();
    let (mut relay, origin) = relay_session(&payload);
    let chunks = collect_chunks(&origin);
    let k = origin.preamble().num_data as u32;

    // Take exactly k shards from the parity range to force reconstruction.
    let n = origin.total_shards();
    let take: Vec<(u32, Vec<u8>)> = chunks
        .into_iter()
        .filter(|(i, _)| *i >= n - k && *i < n)
        .collect();
    assert_eq!(take.len() as u32, k);

    relay.attach_peer(PEER_A);
    let mut completed = false;
    for (idx, data) in take {
        let outcome = relay.take_chunk(idx, data).unwrap();
        if outcome.complete {
            completed = true;
            break;
        }
    }
    assert!(completed, "relay should signal completeness from k shards");

    let recovered = relay.decode_and_finish().unwrap();
    assert_eq!(recovered, payload);
}

#[test]
fn tampered_chunk_yields_invalid_and_state_unchanged() {
    let payload = b"tamper detection".to_vec();
    let (mut relay, origin) = relay_session(&payload);
    let chunks = collect_chunks(&origin);

    let (idx, mut data) = chunks[0].clone();
    data[0] ^= 0xFF;

    let (have_before, _) = relay.progress();
    let outcome = relay.take_chunk(idx, data).unwrap();
    assert_eq!(outcome.verdict, Verdict::Invalid);
    assert!(!outcome.complete);
    assert_eq!(relay.state(), SessionState::Consuming);
    let (have_after, _) = relay.progress();
    assert_eq!(have_before, have_after);
}

#[test]
fn duplicate_chunk_yields_redundant() {
    let payload = b"duplicate chunk redundant".to_vec();
    let (mut relay, origin) = relay_session(&payload);
    let chunks = collect_chunks(&origin);

    let (idx, data) = chunks[0].clone();
    let first = relay.take_chunk(idx, data.clone()).unwrap();
    assert_eq!(first.verdict, Verdict::Accepted);

    let second = relay.take_chunk(idx, data).unwrap();
    assert_eq!(second.verdict, Verdict::Redundant);
    assert_eq!(relay.state(), SessionState::Consuming);
}

#[test]
fn chunks_after_decoding_yield_decoding_verdict() {
    let payload = b"post-decoding leftovers".to_vec();
    let (mut relay, origin) = relay_session(&payload);
    let chunks = collect_chunks(&origin);
    let k = origin.preamble().num_data as u32;

    // Drive into Decoding by taking exactly k chunks.
    for (idx, data) in chunks.iter().take(k as usize) {
        let outcome = relay.take_chunk(*idx, data.clone()).unwrap();
        if outcome.complete {
            break;
        }
    }
    assert_eq!(relay.state(), SessionState::Decoding);

    // A late chunk arrives.
    let (idx, data) = chunks[k as usize].clone();
    let err = relay.take_chunk(idx, data).unwrap_err();
    assert!(
        matches!(err, SessionError::PostConsuming(Verdict::Decoding)),
        "got {err:?}"
    );
    assert_eq!(relay.state(), SessionState::Decoding);
}

#[test]
fn chunks_after_reconstruction_yield_surplus_verdict() {
    let payload = b"post-reconstruction surplus".to_vec();
    let (mut relay, origin) = relay_session(&payload);
    let chunks = collect_chunks(&origin);
    let k = origin.preamble().num_data as u32;

    for (idx, data) in chunks.iter().take(k as usize) {
        let outcome = relay.take_chunk(*idx, data.clone()).unwrap();
        if outcome.complete {
            break;
        }
    }
    relay.decode_and_finish().unwrap();
    assert_eq!(relay.state(), SessionState::Reconstructed);

    let (idx, data) = chunks[k as usize].clone();
    let err = relay.take_chunk(idx, data).unwrap_err();
    assert!(
        matches!(err, SessionError::PostConsuming(Verdict::Surplus)),
        "got {err:?}"
    );
}

#[test]
fn chunk_sent_ok_false_reverts_in_flight() {
    let payload = b"chunk_sent retry".to_vec();
    let strategy = RsStrategy::new_origin(&payload, RsConfig::default(), 7).unwrap();
    let mut session = Session::new_origin(strategy);
    session.attach_peer(PEER_A);

    let work_a = session.poll();
    let dispatch_a = work_a
        .dispatches
        .first()
        .expect("origin should produce a dispatch")
        .clone();

    // Cancel: simulate a network failure for this dispatch.
    session.chunk_sent(dispatch_a.peer, dispatch_a.handle, false);

    // Next poll should be able to re-emit something to the same peer
    // (potentially the same shard idx).
    let work_b = session.poll();
    assert!(
        !work_b.dispatches.is_empty(),
        "cancelled in-flight should free room for re-emission"
    );
}

#[test]
fn routing_update_returns_redundant_handles() {
    let payload = b"routing update cancellations".to_vec();
    let strategy = RsStrategy::new_origin(&payload, RsConfig::default(), 7).unwrap();
    let mut session = Session::new_origin(strategy);
    session.attach_peer(PEER_A);

    // Emit several dispatches.
    let work = session.poll();
    let dispatches = work.dispatches;
    assert!(!dispatches.is_empty());

    // Build a bitmap claiming the peer has every dispatched shard.
    let total = session.strategy().total_shards();
    let mut bitmap = BitMap::with_capacity(total);
    for d in &dispatches {
        bitmap.set(d.chunk_id).unwrap();
    }

    let cancellations = session.routing_update(PEER_A, bitmap);
    assert!(
        !cancellations.is_empty(),
        "routing update should yield cancellations for in-flight shards already on peer"
    );
    // Each returned handle should correspond to one of our dispatches.
    let dispatched_handles: std::collections::HashSet<_> =
        dispatches.iter().map(|d| d.handle).collect();
    for h in &cancellations {
        assert!(
            dispatched_handles.contains(h),
            "handle {h} not from dispatches"
        );
    }
}

#[test]
fn late_attach_peer_during_consuming() {
    let payload = b"late attach during consuming".to_vec();
    let (mut relay, origin) = relay_session(&payload);
    let chunks = collect_chunks(&origin);

    relay.attach_peer(PEER_A);
    // Take a few chunks first.
    for (idx, data) in chunks.iter().take(3) {
        relay.take_chunk(*idx, data.clone()).unwrap();
    }
    assert_eq!(relay.state(), SessionState::Consuming);

    // Late attach.
    relay.attach_peer(PEER_B);

    // poll() should now consider both peers.
    let work = relay.poll();
    let peers_in_dispatch: std::collections::HashSet<PeerId> =
        work.dispatches.iter().map(|d| d.peer).collect();
    // Both peers should be eligible (attendance, not guarantee). At
    // minimum, late peer is not absent due to the attach being late.
    let _ = peers_in_dispatch; // softer assertion: dispatches may target either or both.
}

#[test]
fn out_of_range_chunk_is_strategy_error() {
    let payload = b"oor chunk".to_vec();
    let (mut relay, origin) = relay_session(&payload);
    let total = origin.total_shards();
    let err = relay.take_chunk(total + 5, vec![0; 4]).unwrap_err();
    assert!(matches!(
        err,
        SessionError::Take(TakeError::OutOfRange { .. })
    ));
}
