//! The Reed-Solomon strategy as a whole.

use ethp2p::pb::rs::Preamble;
use ethp2p::strategy::bitmap::BitMap;
use ethp2p::strategy::config::RsConfig;
use ethp2p::strategy::rs::code::RsError;
use ethp2p::strategy::rs::decode::{decode, DecodeError};
use ethp2p::strategy::rs::encode::{encode, EncodeError};
use ethp2p::strategy::rs::state::RsStrategy;
use ethp2p::strategy::rs::verify::{validate_preamble, PreambleError};
use ethp2p::strategy::{Strategy, Verdict};
use reed_solomon_erasure::galois_8::ReedSolomon;

fn small() -> RsConfig {
    RsConfig {
        data_shards: 3,
        parity_shards: 2,
        ..RsConfig::default()
    }
}

fn origin(seed: u64) -> RsStrategy {
    RsStrategy::new_origin_with_seed(b"seven bytes and some more", small(), seed).unwrap()
}

fn relay_of(origin: &RsStrategy) -> RsStrategy {
    RsStrategy::new_relay_with_seed(origin.preamble().clone(), small(), 1).unwrap()
}

fn give(relay: &mut RsStrategy, idx: u32, data: Vec<u8>) -> (Verdict, bool) {
    let r = Strategy::take_chunk(relay, idx, data).unwrap();
    (r.verdict, r.complete)
}

#[test]
fn any_three_of_five_shards_reconstruct() {
    let source = origin(5);
    for a in 0..5u32 {
        for b in 0..5u32 {
            for c in 0..5u32 {
                if a == b || b == c || a == c {
                    continue;
                }
                let mut relay = relay_of(&source);
                for (n, i) in [a, b, c].into_iter().enumerate() {
                    let shard = source.chunk(i).unwrap().clone();
                    assert_eq!(give(&mut relay, i, shard), (Verdict::Accepted, n == 2));
                }
                assert_eq!(
                    Strategy::decode(&relay).unwrap(),
                    b"seven bytes and some more".to_vec()
                );
            }
        }
    }
}

#[test]
fn parity_is_that_of_the_code() {
    let source = origin(0);
    let mut shards: Vec<Vec<u8>> = (0..5).map(|i| source.chunk(i).unwrap().clone()).collect();
    for s in &mut shards[3..] {
        s.fill(0);
    }
    ReedSolomon::new(3, 2).unwrap().encode(&mut shards).unwrap();
    for i in 0..5 {
        assert_eq!(source.chunk(i).unwrap(), &shards[i as usize]);
    }
    assert!(shards[3].iter().any(|b| *b != 0));
}

#[test]
fn chunks_only_accumulate() {
    let source = origin(5);
    let mut relay = relay_of(&source);
    let shard = |i: u32| source.chunk(i).unwrap().clone();
    assert_eq!(give(&mut relay, 4, shard(4)), (Verdict::Accepted, false));
    assert_eq!(relay.accepted_count(), 1);
    assert_eq!(give(&mut relay, 4, shard(0)), (Verdict::Redundant, false));
    assert_eq!(give(&mut relay, 3, shard(0)), (Verdict::Invalid, false));
    assert_eq!(relay.accepted_count(), 1);
    assert_eq!(relay.chunk(4), Some(&shard(4)));
    assert_eq!(relay.chunk(3), None);
}

#[test]
fn dispatches_carry_held_shards_under_fresh_handles() {
    let mut source = origin(5);
    for peer in [30, 10, 20] {
        source.attach_peer(peer);
    }
    let first = source.poll_chunks();
    let second = source.poll_chunks();
    let peers: Vec<u64> = first.iter().map(|d| d.peer).collect();
    assert_eq!(peers, vec![10, 20, 30]);
    let handles: Vec<u64> = first.iter().chain(&second).map(|d| d.handle).collect();
    assert_eq!(handles, vec![0, 1, 2, 3, 4, 5]);
    for d in first.iter().chain(&second) {
        assert_eq!(source.chunk(d.chunk_id), Some(&d.payload));
    }
}

#[test]
fn outcome_of_a_dispatch_counts_once() {
    let mut source = origin(5);
    source.attach_peer(1);
    let d = source.poll_chunks().remove(0);
    source.chunk_sent(1, d.handle, true);
    assert_eq!(source.planner_mut().sent_count(d.chunk_id), 1);
    source.chunk_sent(1, d.handle, true);
    source.chunk_sent(1, d.handle, false);
    assert_eq!(source.planner_mut().sent_count(d.chunk_id), 1);
    source.chunk_sent(2, d.handle, true);
    assert_eq!(source.planner_mut().sent_count(d.chunk_id), 1);
}

#[test]
fn failed_send_frees_the_shard_for_the_peer() {
    let mut source = origin(5);
    source.attach_peer(1);
    let mut sent: Vec<u32> = Vec::new();
    let lost = source.poll_chunks().remove(0);
    loop {
        let ds = source.poll_chunks();
        if ds.is_empty() {
            break;
        }
        for d in ds {
            sent.push(d.chunk_id);
        }
    }
    assert_eq!(sent.len(), 4);
    assert!(!sent.contains(&lost.chunk_id));
    source.chunk_sent(1, lost.handle, false);
    let again = source.poll_chunks();
    assert_eq!(again.len(), 1);
    assert_eq!(again[0].chunk_id, lost.chunk_id);
}

#[test]
fn routing_update_withdraws_what_the_peer_holds() {
    let mut source = origin(5);
    source.attach_peer(1);
    source.attach_peer(2);
    let ds = source.poll_chunks();
    let mut bits = BitMap::with_capacity(5);
    bits.set(ds[0].chunk_id).unwrap();
    assert_eq!(source.routing_update(1, bits), vec![ds[0].handle]);
    // The other peer's dispatch stands.
    source.chunk_sent(2, ds[1].handle, true);
    assert_eq!(source.planner_mut().sent_count(ds[1].chunk_id), 1);
    // What the peer holds is not offered to it again.
    loop {
        let more = source.poll_chunks();
        if more.is_empty() {
            break;
        }
        for d in &more {
            assert!(d.peer != 1 || d.chunk_id != ds[0].chunk_id);
        }
    }
}

#[test]
fn detached_peer_gets_nothing_more() {
    let mut source = origin(5);
    source.attach_peer(1);
    source.attach_peer(2);
    let ds = source.poll_chunks();
    source.detach_peer(1, false);
    // Its outcome no longer counts; that of the other peer does.
    source.chunk_sent(1, ds[0].handle, true);
    source.chunk_sent(2, ds[1].handle, true);
    assert_eq!(source.planner_mut().sent_count(ds[1].chunk_id), 1);
    if ds[0].chunk_id != ds[1].chunk_id {
        assert_eq!(source.planner_mut().sent_count(ds[0].chunk_id), 0);
    }
    for d in source.poll_chunks() {
        assert_eq!(d.peer, 2);
    }
}

#[test]
fn routing_is_announced_once_per_change() {
    let source = origin(5);
    let mut relay = relay_of(&source);
    give(&mut relay, 0, source.chunk(0).unwrap().clone());
    give(&mut relay, 1, source.chunk(1).unwrap().clone());
    let first = relay.poll_routing(true).unwrap();
    assert!(first.get(0) && first.get(1) && !first.get(2));
    assert!(relay.poll_routing(false).is_none());
    let config = RsConfig {
        disable_bitmap: true,
        ..small()
    };
    let mut silent =
        RsStrategy::new_relay_with_seed(source.preamble().clone(), config, 1).unwrap();
    give(&mut silent, 0, source.chunk(0).unwrap().clone());
    assert!(silent.poll_routing(true).is_none());
    assert!(silent.poll_routing(false).is_none());
}

#[test]
fn malformed_preambles_are_told_apart() {
    let good = origin(5).preamble().clone();
    assert_eq!(validate_preamble(&good), Ok(()));
    let mut p = good.clone();
    p.num_parity = -4;
    assert_eq!(
        validate_preamble(&p),
        Err(PreambleError::NegativeShardCount { num_data: 3, num_parity: -4 })
    );
    let mut p = good.clone();
    p.length = -1;
    assert_eq!(
        validate_preamble(&p),
        Err(PreambleError::NegativeLength { length: -1 })
    );
    let mut p = good.clone();
    p.hashes.truncate(2);
    assert_eq!(
        validate_preamble(&p),
        Err(PreambleError::HashCountMismatch { hashes: 2, expected: 5 })
    );
    let mut p = good.clone();
    p.hash = vec![0; 31];
    assert_eq!(
        validate_preamble(&p),
        Err(PreambleError::MessageHashLengthInvalid { len: 31 })
    );
    let mut p = good.clone();
    p.num_data = i32::MAX;
    p.num_parity = i32::MAX;
    assert_eq!(
        validate_preamble(&p),
        Err(PreambleError::HashCountMismatch { hashes: 5, expected: 4_294_967_294 })
    );
    assert_eq!(
        RsStrategy::new_relay_with_seed(p, small(), 0).map(|_| ()),
        Err(PreambleError::HashCountMismatch { hashes: 5, expected: 4_294_967_294 })
    );
}

fn pairs(source: &RsStrategy, which: &[u32]) -> Vec<(u32, Vec<u8>)> {
    which
        .iter()
        .map(|&i| (i, source.chunk(i).unwrap().clone()))
        .collect()
}

#[test]
fn decoding_errors_are_told_apart() {
    let source = origin(5);
    let p: Preamble = source.preamble().clone();
    assert_eq!(decode(&p, &[]), Err(DecodeError::Rs(RsError::TooFewShards)));
    assert_eq!(
        decode(&p, &pairs(&source, &[0, 4])),
        Err(DecodeError::Rs(RsError::TooFewShardsPresent))
    );
    let mut shards = pairs(&source, &[0, 1, 2]);
    shards[2].0 = 5;
    assert_eq!(
        decode(&p, &shards),
        Err(DecodeError::ShardIndexOutOfRange { idx: 5, total: 5 })
    );
    let mut shards = pairs(&source, &[0, 1, 2]);
    let whole = shards[0].1.len();
    shards[1].1.pop();
    assert_eq!(
        decode(&p, &shards),
        Err(DecodeError::InconsistentShardLength { expected: whole, got: whole - 1 })
    );
    let mut bad = p.clone();
    bad.length = -1;
    assert_eq!(
        decode(&bad, &pairs(&source, &[0, 1, 2])),
        Err(DecodeError::Preamble(PreambleError::NegativeLength { length: -1 }))
    );
    let mut long = p.clone();
    long.length = 1000;
    assert_eq!(
        decode(&long, &pairs(&source, &[0, 1, 2])),
        Err(DecodeError::InconsistentShardLength { expected: 1000, got: 3 * whole })
    );
    let empty: Vec<(u32, Vec<u8>)> = (0..3).map(|i| (i, Vec::new())).collect();
    assert_eq!(
        decode(&p, &empty),
        Err(DecodeError::Rs(RsError::EmptyShard))
    );
    // Only a message with the announced digest comes out.
    let mut other = p.clone();
    other.hash[0] ^= 1;
    assert_eq!(
        decode(&other, &pairs(&source, &[0, 1, 2])),
        Err(DecodeError::MessageHashMismatch)
    );
}

#[test]
fn shapes_without_a_code_are_refused() {
    let config = |data_shards: u32, parity_shards: u32, chunk_len: u32| RsConfig {
        data_shards,
        parity_shards,
        chunk_len,
        ..RsConfig::default()
    };
    assert_eq!(
        encode(&[1], &config(1, 0, 0)),
        Err(EncodeError::Rs(RsError::TooFewParityShards))
    );
    assert_eq!(
        encode(&[1], &config(200, 57, 0)),
        Err(EncodeError::Rs(RsError::TooManyShards))
    );
    assert!(encode(&[1], &config(200, 56, 0)).is_ok());
    assert_eq!(
        encode(&[1; 129], &config(1, 1, 1)),
        Err(EncodeError::Rs(RsError::TooManyShards))
    );
    assert!(encode(&[1; 128], &config(1, 1, 1)).is_ok());
    // Without a payload the shape does not matter.
    assert_eq!(encode(&[], &config(0, 0, 0)), Err(EncodeError::EmptyPayload));
}
