//! Reed-Solomon encoding.

use ethp2p::strategy::config::RsConfig;
use ethp2p::strategy::rs::decode::decode;
use ethp2p::strategy::rs::encode::{encode, EncodeError};
use sha2::{Digest, Sha256};

#[test]
fn encode_then_decode_roundtrip_default_config() {
    for size in [1_usize, 64, 1024, 65_537] {
        let payload: Vec<u8> = (0..size).map(|i| (i % 251) as u8).collect();
        let config = RsConfig::default();
        let (preamble, shards) = encode(&payload, &config).unwrap();
        assert_eq!(shards.len(), 32);
        let with_idx: Vec<(u32, Vec<u8>)> = shards
            .iter()
            .enumerate()
            .map(|(i, s)| (i as u32, s.clone()))
            .collect();
        let recovered = decode(&preamble, &with_idx).unwrap();
        assert_eq!(recovered, payload, "round-trip failed at size {size}");
    }
}

#[test]
fn preamble_hashes_match_shards() {
    let payload = b"hello, ethp2p";
    let (preamble, shards) = encode(payload, &RsConfig::default()).unwrap();
    for (i, s) in shards.iter().enumerate() {
        let h = Sha256::digest(s);
        assert_eq!(preamble.hashes[i].as_slice(), h.as_slice());
    }
    assert_eq!(preamble.hash.as_slice(), Sha256::digest(payload).as_slice());
}

#[test]
fn chunk_len_overrides_data_shards() {
    let payload = vec![0_u8; 1000];
    let config = RsConfig {
        chunk_len: 100, // → 10 data shards, 10 parity
        ..RsConfig::default()
    };
    let (preamble, shards) = encode(&payload, &config).unwrap();
    assert_eq!(preamble.num_data, 10);
    assert_eq!(preamble.num_parity, 10);
    assert_eq!(shards.len(), 20);
    assert!(shards.iter().all(|s| s.len() == 100));
}

#[test]
fn empty_payload_rejected() {
    let err = encode(&[], &RsConfig::default()).unwrap_err();
    assert!(matches!(err, EncodeError::EmptyPayload));
}

#[test]
fn padding_on_last_data_shard_is_zero() {
    // Payload of 100 bytes with 16 data shards → chunk_len = ceil(100 / 16) = 7.
    // payload.chunks(7) yields 15 chunks (14 of 7 bytes + 1 of 2 bytes), so
    // shards[14] holds the last partial payload bytes (98, 99 → 99, 100)
    // followed by zero padding, and shards[15] is entirely zero padding.
    let payload: Vec<u8> = (1_u8..=100).collect();
    let (preamble, shards) = encode(&payload, &RsConfig::default()).unwrap();
    assert_eq!(preamble.num_data, 16);
    // Shard 14: partial payload, then zeros.
    let partial = &shards[14];
    assert_eq!(partial[0], 99);
    assert_eq!(partial[1], 100);
    for &b in &partial[2..] {
        assert_eq!(b, 0, "padding on shard 14 must be zero");
    }
    // Shard 15: entirely zero padding (no payload bytes reach it).
    let last = &shards[15];
    for &b in last {
        assert_eq!(b, 0, "shard 15 must be all zeros");
    }
}
