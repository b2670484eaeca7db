//! Preamble and chunk verification.

use ethp2p::pb::rs::Preamble;
use ethp2p::strategy::config::RsConfig;
use ethp2p::strategy::rs::encode::encode;
use ethp2p::strategy::rs::verify::{validate_preamble, verify_chunk, PreambleError, Verdict};

fn encoded() -> (Preamble, Vec<Vec<u8>>) {
    let payload = b"verify tests payload";
    encode(payload, &RsConfig::default()).unwrap()
}

#[test]
fn validate_preamble_accepts_well_formed() {
    let (p, _) = encoded();
    validate_preamble(&p).unwrap();
}

#[test]
fn validate_preamble_rejects_negative_counts() {
    let (mut p, _) = encoded();
    p.num_data = -1;
    let err = validate_preamble(&p).unwrap_err();
    assert!(matches!(err, PreambleError::NegativeShardCount { .. }));
}

#[test]
fn validate_preamble_rejects_wrong_hash_length() {
    let (mut p, _) = encoded();
    p.hashes[0] = vec![0; 31];
    let err = validate_preamble(&p).unwrap_err();
    assert!(matches!(
        err,
        PreambleError::HashLengthInvalid { idx: 0, len: 31 }
    ));
}

#[test]
fn validate_preamble_rejects_wrong_hash_count() {
    let (mut p, _) = encoded();
    p.hashes.pop();
    let err = validate_preamble(&p).unwrap_err();
    assert!(matches!(err, PreambleError::HashCountMismatch { .. }));
}

#[test]
fn verify_chunk_accepts_valid() {
    let (p, shards) = encoded();
    for (i, s) in shards.iter().enumerate() {
        assert_eq!(verify_chunk(&p, i as u32, s), Verdict::Accept);
    }
}

#[test]
fn verify_chunk_rejects_tampered() {
    let (p, mut shards) = encoded();
    shards[0][0] ^= 0x01;
    assert_eq!(verify_chunk(&p, 0, &shards[0]), Verdict::Reject);
}

#[test]
fn verify_chunk_rejects_out_of_range_index() {
    let (p, _) = encoded();
    let total = (p.num_data + p.num_parity) as u32;
    assert_eq!(verify_chunk(&p, total, &[0; 0]), Verdict::Reject);
    assert_eq!(verify_chunk(&p, total + 100, &[0; 0]), Verdict::Reject);
}

#[test]
fn verify_chunk_rejects_when_preamble_hash_entry_malformed() {
    let (mut p, shards) = encoded();
    p.hashes[0] = vec![0; 31];
    assert_eq!(verify_chunk(&p, 0, &shards[0]), Verdict::Reject);
}
