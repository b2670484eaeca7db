//! Texts of errors, and conversions between errors.

use ethp2p::channel::ChannelError;
use ethp2p::engine::EngineError;
use ethp2p::runtime::NetError;
use ethp2p::session::{SessionError, SessionState};
use ethp2p::sim::runner::SimError;
use ethp2p::strategy::bitmap::BitMapError;
use ethp2p::strategy::config::ConfigError;
use ethp2p::strategy::rs::code::RsError;
use ethp2p::strategy::rs::decode::DecodeError;
use ethp2p::strategy::rs::encode::EncodeError;
use ethp2p::strategy::rs::state;
use ethp2p::strategy::rs::verify::PreambleError;
use ethp2p::strategy::{TakeError, Verdict};
use reed_solomon_erasure::Error;

#[test]
fn transport_errors_are_described() {
    assert_eq!(NetError::PeerNotFound(12).message(), "peer 12 not found");
    assert_eq!(NetError::Closed.message(), "transport is closed");
    assert_eq!(
        NetError::Backpressure(u64::MAX).message(),
        "peer 18446744073709551615 outbound queue full"
    );
}

#[test]
fn bitmap_and_configuration_errors_are_described() {
    assert_eq!(
        BitMapError::OutOfRange { idx: 8, n: 7 }.message(),
        "bit index 8 out of range for bitmap of size 7"
    );
    assert_eq!(
        BitMapError::SizeMismatch { lhs_n: 1, rhs_n: 20 }.message(),
        "bitmap size mismatch: 1 (lhs) vs 20 (rhs)"
    );
    assert_eq!(
        BitMapError::InvalidByteLength { got: 3, expected: 4 }.message(),
        "bitmap byte length 3 does not match expected 4 for declared n"
    );
    assert_eq!(
        ConfigError::BitmapThresholdOutOfRange(101).message(),
        "bitmap_threshold 101 out of range (expected 0..=100)"
    );
    assert_eq!(ConfigError::DataShardsZero.message(), "data_shards must be >= 1");
}

#[test]
fn preamble_errors_are_described() {
    let cases = [
        (
            PreambleError::NegativeShardCount { num_data: -1, num_parity: i32::MIN },
            "negative shard counts: num_data=-1, num_parity=-2147483648",
        ),
        (
            PreambleError::ShardCountOverflow,
            "num_data + num_parity overflows u32",
        ),
        (
            PreambleError::HashCountMismatch { hashes: 1, expected: 2 },
            "preamble has 1 hashes, expected 2",
        ),
        (
            PreambleError::HashLengthInvalid { idx: 0, len: 31 },
            "preamble.hashes[0] is 31 bytes, expected 32",
        ),
        (
            PreambleError::MessageHashLengthInvalid { len: 33 },
            "preamble.hash is 33 bytes, expected 32",
        ),
        (
            PreambleError::NegativeLength { length: -70 },
            "preamble.length is negative (-70)",
        ),
    ];
    for (error, text) in cases {
        assert_eq!(error.message(), text);
        assert_eq!(error.describe(), format!("{error:?}"));
    }
}

#[test]
fn code_errors_read_as_in_the_code_crate() {
    let cases = [
        (RsError::TooFewShards, Error::TooFewShards),
        (RsError::TooManyShards, Error::TooManyShards),
        (RsError::TooFewDataShards, Error::TooFewDataShards),
        (RsError::TooManyDataShards, Error::TooManyDataShards),
        (RsError::TooFewParityShards, Error::TooFewParityShards),
        (RsError::TooManyParityShards, Error::TooManyParityShards),
        (RsError::TooFewBufferShards, Error::TooFewBufferShards),
        (RsError::TooManyBufferShards, Error::TooManyBufferShards),
        (RsError::IncorrectShardSize, Error::IncorrectShardSize),
        (RsError::TooFewShardsPresent, Error::TooFewShardsPresent),
        (RsError::EmptyShard, Error::EmptyShard),
        (RsError::InvalidShardFlags, Error::InvalidShardFlags),
        (RsError::InvalidIndex, Error::InvalidIndex),
    ];
    for (ours, theirs) in cases {
        assert_eq!(ours.message(), format!("{theirs}"));
        assert_eq!(ours.describe(), format!("{theirs:?}"));
        assert_eq!(
            SimError::Encode(EncodeError::Rs(ours)).message(),
            format!("origin encode failed: Rs({theirs:?})")
        );
        assert_eq!(
            EncodeError::Rs(ours).message(),
            format!("reed-solomon-erasure error: {theirs}")
        );
        assert_eq!(
            DecodeError::Rs(ours).message(),
            format!("reed-solomon-erasure: {theirs}")
        );
    }
}

#[test]
fn coding_errors_are_described() {
    assert_eq!(
        EncodeError::EmptyPayload.message(),
        "cannot encode an empty payload"
    );
    assert_eq!(
        EncodeError::ShardCountOverflow.message(),
        "resolved shard count exceeds i32::MAX"
    );
    assert_eq!(
        DecodeError::Preamble(PreambleError::ShardCountOverflow).message(),
        "preamble: num_data + num_parity overflows u32"
    );
    assert_eq!(
        DecodeError::ShardIndexOutOfRange { idx: 9, total: 4 }.message(),
        "shard index 9 out of range (total = 4)"
    );
    assert_eq!(
        DecodeError::DuplicateShardIndex { idx: 3 }.message(),
        "duplicate shard at index 3"
    );
    assert_eq!(
        DecodeError::InconsistentShardLength { expected: 10, got: 9 }.message(),
        "shard length 9 differs from expected 10"
    );
    assert_eq!(
        DecodeError::MessageHashMismatch.message(),
        "reconstructed message hash does not match preamble.hash"
    );
}

#[test]
fn session_errors_are_described() {
    for v in [
        Verdict::Accepted,
        Verdict::Redundant,
        Verdict::Decoding,
        Verdict::Surplus,
        Verdict::Invalid,
        Verdict::Pending,
    ] {
        assert_eq!(
            SessionError::PostConsuming(v).message(),
            format!("session not in Consuming (verdict={v:?})")
        );
    }
    for s in [
        SessionState::Origin,
        SessionState::Consuming,
        SessionState::Decoding,
        SessionState::Reconstructed,
        SessionState::Failed,
    ] {
        assert_eq!(
            SessionError::NotDecoding(s).message(),
            format!("session not in Decoding (state={s:?})")
        );
    }
    let take = TakeError::OutOfRange { idx: 5, total: 5 };
    assert_eq!(take.message(), "chunk index 5 out of range (total = 5)");
    assert_eq!(
        SessionError::from(take).message(),
        "take_chunk: chunk index 5 out of range (total = 5)"
    );
    assert_eq!(
        state::TakeError::Rejected.message(),
        "chunk verification rejected"
    );
    assert_eq!(
        state::TakeError::OutOfRange { idx: 7, total: 6 }.message(),
        "chunk index 7 out of range (total = 6)"
    );
}

#[test]
fn channel_errors_are_described() {
    let invalid = PreambleError::HashCountMismatch { hashes: 1, expected: 2 };
    assert_eq!(
        ChannelError::InvalidPreamble(invalid.describe()).message(),
        "invalid preamble: HashCountMismatch { hashes: 1, expected: 2 }"
    );
    assert_eq!(
        ChannelError::SessionNotFound("m".into()).message(),
        "session not found: m"
    );
    assert_eq!(
        ChannelError::DuplicateSession("m".into()).message(),
        "duplicate session: m"
    );
    let session = SessionError::PostConsuming(Verdict::Surplus);
    assert_eq!(
        ChannelError::from(session).message(),
        "session: session not in Consuming (verdict=Surplus)"
    );
}

#[test]
fn engine_and_runner_errors_are_described() {
    assert_eq!(
        EngineError::from(NetError::Closed).message(),
        "net: transport is closed"
    );
    assert_eq!(
        EngineError::from(ChannelError::SessionNotFound("x".into())).message(),
        "channel: session not found: x"
    );
    assert_eq!(
        EngineError::UnknownChannel("c".into()).message(),
        "unknown channel: c"
    );
    assert_eq!(EngineError::EmptyPayload.message(), "publish payload is empty");
    assert_eq!(
        SimError::Engine { peer: 4, error: EngineError::EmptyPayload }.message(),
        "engine 4: publish payload is empty"
    );
    assert_eq!(
        SimError::EngineClosed(4).message(),
        "engine 4: event stream closed"
    );
    assert_eq!(
        SimError::MaxStepsExceeded { max: 100 }.message(),
        "run_to_quiescence exceeded 100 steps"
    );
    assert_eq!(SimError::UnknownPeer(0).message(), "unknown peer 0");
    assert_eq!(
        SimError::Encode(EncodeError::EmptyPayload).message(),
        "origin encode failed: EmptyPayload"
    );
}

#[test]
fn errors_convert_to_the_outer_kind() {
    let rs = RsError::EmptyShard;
    assert_eq!(EncodeError::from(rs), EncodeError::Rs(rs));
    assert_eq!(DecodeError::from(rs), DecodeError::Rs(rs));
    let preamble = PreambleError::NegativeLength { length: -1 };
    assert_eq!(DecodeError::from(preamble), DecodeError::Preamble(preamble));
    let take = TakeError::OutOfRange { idx: 1, total: 1 };
    assert_eq!(SessionError::from(take), SessionError::Take(take));
}
