//! Reed-Solomon strategy state.

use ethp2p::strategy::config::RsConfig;
use ethp2p::strategy::rs::state::{RsStrategy, TakeError};

#[test]
fn origin_to_relay_end_to_end() {
    let payload = b"slice 3 end-to-end".to_vec();
    let config = RsConfig::default();
    let origin = RsStrategy::new_origin(&payload, config, 7).unwrap();

    // Simulate transmitting all chunks to a relay.
    let preamble = origin.preamble().clone();
    let mut relay = RsStrategy::new_relay(preamble, config, 7).unwrap();
    for i in 0..origin.total_shards() {
        let chunk = origin.chunk(i).unwrap().clone();
        relay.take_chunk(i, chunk).unwrap();
        if relay.can_reconstruct() {
            break;
        }
    }
    let recovered = relay.reconstruct().unwrap();
    assert_eq!(recovered, payload);

    // Origin can also reconstruct itself trivially.
    let from_origin = origin.reconstruct().unwrap();
    assert_eq!(from_origin, payload);
}

#[test]
fn relay_rejects_tampered_chunks() {
    let payload = b"reject tampered".to_vec();
    let config = RsConfig::default();
    let origin = RsStrategy::new_origin(&payload, config, 7).unwrap();
    let mut relay = RsStrategy::new_relay(origin.preamble().clone(), config, 7).unwrap();
    let mut chunk = origin.chunk(0).unwrap().clone();
    chunk[0] ^= 0xFF;
    let err = relay.take_chunk(0, chunk).unwrap_err();
    assert!(matches!(err, TakeError::Rejected));
    assert_eq!(relay.accepted_count(), 0);
}

#[test]
fn out_of_range_idx_is_rejected_separately() {
    let payload = b"oor".to_vec();
    let config = RsConfig::default();
    let origin = RsStrategy::new_origin(&payload, config, 7).unwrap();
    let mut relay = RsStrategy::new_relay(origin.preamble().clone(), config, 7).unwrap();
    let total = (origin.preamble().num_data + origin.preamble().num_parity) as u32;
    let err = relay.take_chunk(total, vec![0; 10]).unwrap_err();
    assert!(matches!(err, TakeError::OutOfRange { .. }));
}
