//! Reed-Solomon decoding.

use ethp2p::pb::rs::Preamble;
use ethp2p::strategy::config::RsConfig;
use ethp2p::strategy::rs::decode::{decode, DecodeError};
use ethp2p::strategy::rs::encode::encode;

fn encoded(payload: &[u8]) -> (Preamble, Vec<Vec<u8>>) {
    encode(payload, &RsConfig::default()).unwrap()
}

#[test]
fn decode_with_full_shard_set() {
    let payload = b"decode full".to_vec();
    let (preamble, shards) = encoded(&payload);
    let with_idx: Vec<(u32, Vec<u8>)> = shards
        .iter()
        .enumerate()
        .map(|(i, s)| (i as u32, s.clone()))
        .collect();
    assert_eq!(decode(&preamble, &with_idx).unwrap(), payload);
}

#[test]
fn decode_with_first_k_shards() {
    let payload = b"decode k of n".to_vec();
    let (preamble, shards) = encoded(&payload);
    let k = preamble.num_data as usize;
    let take: Vec<(u32, Vec<u8>)> = shards
        .iter()
        .take(k)
        .enumerate()
        .map(|(i, s)| (i as u32, s.clone()))
        .collect();
    assert_eq!(decode(&preamble, &take).unwrap(), payload);
}

#[test]
fn decode_with_subset_using_parity() {
    // Drop a few data shards; supplement with parity.
    let payload = b"parity-substitution test".to_vec();
    let (preamble, shards) = encoded(&payload);
    let k = preamble.num_data as usize;
    let n = (preamble.num_data + preamble.num_parity) as usize;
    // Take indices 0..k-3 plus k..(k+3) to substitute 3 missing data shards with parity.
    let mut take: Vec<(u32, Vec<u8>)> = (0..(k - 3))
        .map(|i| (i as u32, shards[i].clone()))
        .collect();
    for (i, shard) in shards.iter().enumerate().take(k + 3).skip(k) {
        assert!(i < n);
        take.push((i as u32, shard.clone()));
    }
    assert_eq!(decode(&preamble, &take).unwrap(), payload);
}

#[test]
fn decode_with_too_few_shards_fails() {
    let payload = b"too few".to_vec();
    let (preamble, shards) = encoded(&payload);
    let k = preamble.num_data as usize;
    let take: Vec<(u32, Vec<u8>)> = shards
        .iter()
        .take(k - 1)
        .enumerate()
        .map(|(i, s)| (i as u32, s.clone()))
        .collect();
    let err = decode(&preamble, &take).unwrap_err();
    assert!(matches!(err, DecodeError::Rs(_)));
}

#[test]
fn decode_with_tampered_data_shard_message_hash_mismatch() {
    // Tamper a data shard's bytes but leave its index intact. Note: in the
    // real strategy, verify_chunk would catch this before storing. Here we
    // bypass verify to exercise decode's end-to-end check.
    let payload = b"tamper detection via message hash".to_vec();
    let (preamble, mut shards) = encoded(&payload);
    shards[0][0] ^= 0x01;
    let with_idx: Vec<(u32, Vec<u8>)> = shards
        .iter()
        .enumerate()
        .map(|(i, s)| (i as u32, s.clone()))
        .collect();
    let err = decode(&preamble, &with_idx).unwrap_err();
    assert!(matches!(err, DecodeError::MessageHashMismatch));
}

#[test]
fn decode_rejects_duplicate_indices() {
    let payload = b"dup".to_vec();
    let (preamble, shards) = encoded(&payload);
    let mut take: Vec<(u32, Vec<u8>)> = shards
        .iter()
        .take(preamble.num_data as usize)
        .enumerate()
        .map(|(i, s)| (i as u32, s.clone()))
        .collect();
    // Inject a duplicate of index 0.
    take.push((0, shards[0].clone()));
    let err = decode(&preamble, &take).unwrap_err();
    assert!(matches!(err, DecodeError::DuplicateShardIndex { idx: 0 }));
}
