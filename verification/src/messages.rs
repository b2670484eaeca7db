//! Messages of errors.

use vstd::prelude::*;
use vstd::string::StringExecFns;

use crate::channel::{ChannelError, ChannelFault};
use crate::engine::model::EngineFault;
use crate::engine::EngineError;
use crate::runtime::NetError;
use crate::session::{SessionError, SessionState};
use crate::sim::runner::{SimError, SimFault};
use crate::strategy::bitmap::BitMapError;
use crate::strategy::config::ConfigError;
use crate::strategy::rs::code::RsError;
use crate::strategy::rs::decode::DecodeError;
use crate::strategy::rs::encode::EncodeError;
use crate::strategy::rs::state;
use crate::strategy::rs::verify::PreambleError;
use crate::strategy::{TakeError, Verdict};
use crate::text;

verus! {

impl NetError {
    /// What went wrong, in words.
    pub open spec fn text(self) -> Seq<char> {
        match self {
            NetError::PeerNotFound(p) => "peer "@ + text::decimal(p as nat) + " not found"@,
            NetError::Closed => "transport is closed"@,
            NetError::Backpressure(p) => "peer "@ + text::decimal(p as nat) + " outbound queue full"@,
        }
    }

    /// What went wrong, in words.
    pub fn message(&self) -> (r: String)
        ensures
            r@ == self.text(),
    {
        match self {
            NetError::PeerNotFound(p) => {
                let mut t: String = String::from_str("peer ");
                text::append_decimal(&mut t, *p as u64);
                t.append(" not found");
                t
            },
            NetError::Closed => String::from_str("transport is closed"),
            NetError::Backpressure(p) => {
                let mut t: String = String::from_str("peer ");
                text::append_decimal(&mut t, *p as u64);
                t.append(" outbound queue full");
                t
            },
        }
    }
}

impl BitMapError {
    /// What went wrong, in words.
    pub open spec fn text(self) -> Seq<char> {
        match self {
            BitMapError::OutOfRange { idx, n } => "bit index "@ + text::decimal(idx as nat) + " out of range for bitmap of size "@ + text::decimal(n as nat),
            BitMapError::SizeMismatch { lhs_n, rhs_n } => "bitmap size mismatch: "@ + text::decimal(lhs_n as nat) + " (lhs) vs "@ + text::decimal(rhs_n as nat) + " (rhs)"@,
            BitMapError::InvalidByteLength { got, expected } => "bitmap byte length "@ + text::decimal(got as nat) + " does not match expected "@ + text::decimal(expected as nat) + " for declared n"@,
        }
    }

    /// What went wrong, in words.
    pub fn message(&self) -> (r: String)
        ensures
            r@ == self.text(),
    {
        match self {
            BitMapError::OutOfRange { idx, n } => {
                let mut t: String = String::from_str("bit index ");
                text::append_decimal(&mut t, *idx as u64);
                t.append(" out of range for bitmap of size ");
                text::append_decimal(&mut t, *n as u64);
                t
            },
            BitMapError::SizeMismatch { lhs_n, rhs_n } => {
                let mut t: String = String::from_str("bitmap size mismatch: ");
                text::append_decimal(&mut t, *lhs_n as u64);
                t.append(" (lhs) vs ");
                text::append_decimal(&mut t, *rhs_n as u64);
                t.append(" (rhs)");
                t
            },
            BitMapError::InvalidByteLength { got, expected } => {
                let mut t: String = String::from_str("bitmap byte length ");
                text::append_decimal(&mut t, *got as u64);
                t.append(" does not match expected ");
                text::append_decimal(&mut t, *expected as u64);
                t.append(" for declared n");
                t
            },
        }
    }
}

impl ConfigError {
    /// What went wrong, in words.
    pub open spec fn text(self) -> Seq<char> {
        match self {
            ConfigError::BitmapThresholdOutOfRange(v) => "bitmap_threshold "@ + text::decimal(v as nat) + " out of range (expected 0..=100)"@,
            ConfigError::DataShardsZero => "data_shards must be >= 1"@,
        }
    }

    /// What went wrong, in words.
    pub fn message(&self) -> (r: String)
        ensures
            r@ == self.text(),
    {
        match self {
            ConfigError::BitmapThresholdOutOfRange(v) => {
                let mut t: String = String::from_str("bitmap_threshold ");
                text::append_decimal(&mut t, *v as u64);
                t.append(" out of range (expected 0..=100)");
                t
            },
            ConfigError::DataShardsZero => String::from_str("data_shards must be >= 1"),
        }
    }
}

impl TakeError {
    /// What went wrong, in words.
    pub open spec fn text(self) -> Seq<char> {
        match self {
            TakeError::OutOfRange { idx, total } => "chunk index "@ + text::decimal(idx as nat) + " out of range (total = "@ + text::decimal(total as nat) + ")"@,
        }
    }

    /// What went wrong, in words.
    pub fn message(&self) -> (r: String)
        ensures
            r@ == self.text(),
    {
        match self {
            TakeError::OutOfRange { idx, total } => {
                let mut t: String = String::from_str("chunk index ");
                text::append_decimal(&mut t, *idx as u64);
                t.append(" out of range (total = ");
                text::append_decimal(&mut t, *total as u64);
                t.append(")");
                t
            },
        }
    }
}

impl state::TakeError {
    /// What went wrong, in words.
    pub open spec fn text(self) -> Seq<char> {
        match self {
            state::TakeError::Rejected => "chunk verification rejected"@,
            state::TakeError::OutOfRange { idx, total } => "chunk index "@ + text::decimal(idx as nat) + " out of range (total = "@ + text::decimal(total as nat) + ")"@,
        }
    }

    /// What went wrong, in words.
    pub fn message(&self) -> (r: String)
        ensures
            r@ == self.text(),
    {
        match self {
            state::TakeError::Rejected => String::from_str("chunk verification rejected"),
            state::TakeError::OutOfRange { idx, total } => {
                let mut t: String = String::from_str("chunk index ");
                text::append_decimal(&mut t, *idx as u64);
                t.append(" out of range (total = ");
                text::append_decimal(&mut t, *total as u64);
                t.append(")");
                t
            },
        }
    }
}

impl PreambleError {
    /// What went wrong, in words.
    pub open spec fn text(self) -> Seq<char> {
        match self {
            PreambleError::NegativeShardCount { num_data, num_parity } => "negative shard counts: num_data="@ + text::signed(num_data as int) + ", num_parity="@ + text::signed(num_parity as int),
            PreambleError::ShardCountOverflow => "num_data + num_parity overflows u32"@,
            PreambleError::HashCountMismatch { hashes, expected } => "preamble has "@ + text::decimal(hashes as nat) + " hashes, expected "@ + text::decimal(expected as nat),
            PreambleError::HashLengthInvalid { idx, len } => "preamble.hashes["@ + text::decimal(idx as nat) + "] is "@ + text::decimal(len as nat) + " bytes, expected 32"@,
            PreambleError::MessageHashLengthInvalid { len } => "preamble.hash is "@ + text::decimal(len as nat) + " bytes, expected 32"@,
            PreambleError::NegativeLength { length } => "preamble.length is negative ("@ + text::signed(length as int) + ")"@,
        }
    }

    /// What went wrong, in words.
    pub fn message(&self) -> (r: String)
        ensures
            r@ == self.text(),
    {
        match self {
            PreambleError::NegativeShardCount { num_data, num_parity } => {
                let mut t: String = String::from_str("negative shard counts: num_data=");
                text::append_signed(&mut t, *num_data);
                t.append(", num_parity=");
                text::append_signed(&mut t, *num_parity);
                t
            },
            PreambleError::ShardCountOverflow => String::from_str("num_data + num_parity overflows u32"),
            PreambleError::HashCountMismatch { hashes, expected } => {
                let mut t: String = String::from_str("preamble has ");
                text::append_decimal(&mut t, *hashes as u64);
                t.append(" hashes, expected ");
                text::append_decimal(&mut t, *expected as u64);
                t
            },
            PreambleError::HashLengthInvalid { idx, len } => {
                let mut t: String = String::from_str("preamble.hashes[");
                text::append_decimal(&mut t, *idx as u64);
                t.append("] is ");
                text::append_decimal(&mut t, *len as u64);
                t.append(" bytes, expected 32");
                t
            },
            PreambleError::MessageHashLengthInvalid { len } => {
                let mut t: String = String::from_str("preamble.hash is ");
                text::append_decimal(&mut t, *len as u64);
                t.append(" bytes, expected 32");
                t
            },
            PreambleError::NegativeLength { length } => {
                let mut t: String = String::from_str("preamble.length is negative (");
                text::append_signed(&mut t, *length);
                t.append(")");
                t
            },
        }
    }
}

impl PreambleError {
    /// The variant with its fields, as `Debug` writes it.
    pub open spec fn structure(self) -> Seq<char> {
        match self {
            PreambleError::NegativeShardCount { num_data, num_parity } => "NegativeShardCount { num_data: "@ + text::signed(num_data as int) + ", num_parity: "@ + text::signed(num_parity as int) + " }"@,
            PreambleError::ShardCountOverflow => "ShardCountOverflow"@,
            PreambleError::HashCountMismatch { hashes, expected } => "HashCountMismatch { hashes: "@ + text::decimal(hashes as nat) + ", expected: "@ + text::decimal(expected as nat) + " }"@,
            PreambleError::HashLengthInvalid { idx, len } => "HashLengthInvalid { idx: "@ + text::decimal(idx as nat) + ", len: "@ + text::decimal(len as nat) + " }"@,
            PreambleError::MessageHashLengthInvalid { len } => "MessageHashLengthInvalid { len: "@ + text::decimal(len as nat) + " }"@,
            PreambleError::NegativeLength { length } => "NegativeLength { length: "@ + text::signed(length as int) + " }"@,
        }
    }

    /// The variant with its fields, as `Debug` writes it.
    pub fn describe(&self) -> (r: String)
        ensures
            r@ == self.structure(),
    {
        match self {
            PreambleError::NegativeShardCount { num_data, num_parity } => {
                let mut t: String = String::from_str("NegativeShardCount { num_data: ");
                text::append_signed(&mut t, *num_data);
                t.append(", num_parity: ");
                text::append_signed(&mut t, *num_parity);
                t.append(" }");
                t
            },
            PreambleError::ShardCountOverflow => String::from_str("ShardCountOverflow"),
            PreambleError::HashCountMismatch { hashes, expected } => {
                let mut t: String = String::from_str("HashCountMismatch { hashes: ");
                text::append_decimal(&mut t, *hashes as u64);
                t.append(", expected: ");
                text::append_decimal(&mut t, *expected as u64);
                t.append(" }");
                t
            },
            PreambleError::HashLengthInvalid { idx, len } => {
                let mut t: String = String::from_str("HashLengthInvalid { idx: ");
                text::append_decimal(&mut t, *idx as u64);
                t.append(", len: ");
                text::append_decimal(&mut t, *len as u64);
                t.append(" }");
                t
            },
            PreambleError::MessageHashLengthInvalid { len } => {
                let mut t: String = String::from_str("MessageHashLengthInvalid { len: ");
                text::append_decimal(&mut t, *len as u64);
                t.append(" }");
                t
            },
            PreambleError::NegativeLength { length } => {
                let mut t: String = String::from_str("NegativeLength { length: ");
                text::append_signed(&mut t, *length);
                t.append(" }");
                t
            },
        }
    }
}

impl RsError {
    /// What went wrong, in words.
    pub open spec fn text(self) -> Seq<char> {
        match self {
            RsError::TooFewShards => "The number of provided shards is smaller than the one in codec"@,
            RsError::TooManyShards => "The number of provided shards is greater than the one in codec"@,
            RsError::TooFewDataShards => "The number of provided data shards is smaller than the one in codec"@,
            RsError::TooManyDataShards => "The number of provided data shards is greater than the one in codec"@,
            RsError::TooFewParityShards => "The number of provided parity shards is smaller than the one in codec"@,
            RsError::TooManyParityShards => "The number of provided parity shards is greater than the one in codec"@,
            RsError::TooFewBufferShards => "The number of provided buffer shards is smaller than the number of parity shards in codec"@,
            RsError::TooManyBufferShards => "The number of provided buffer shards is greater than the number of parity shards in codec"@,
            RsError::IncorrectShardSize => "At least one of the provided shards is not of the correct size"@,
            RsError::TooFewShardsPresent => "The number of shards present is smaller than number of parity shards, cannot reconstruct missing shards"@,
            RsError::EmptyShard => "The first shard provided is of zero length"@,
            RsError::InvalidShardFlags => "The number of flags does not match the total number of shards"@,
            RsError::InvalidIndex => "The data shard index provided is greater or equal to the number of data shards in codec"@,
        }
    }

    /// What went wrong, in words.
    pub fn message(&self) -> (r: String)
        ensures
            r@ == self.text(),
    {
        match self {
            RsError::TooFewShards => String::from_str("The number of provided shards is smaller than the one in codec"),
            RsError::TooManyShards => String::from_str("The number of provided shards is greater than the one in codec"),
            RsError::TooFewDataShards => String::from_str("The number of provided data shards is smaller than the one in codec"),
            RsError::TooManyDataShards => String::from_str("The number of provided data shards is greater than the one in codec"),
            RsError::TooFewParityShards => String::from_str("The number of provided parity shards is smaller than the one in codec"),
            RsError::TooManyParityShards => String::from_str("The number of provided parity shards is greater than the one in codec"),
            RsError::TooFewBufferShards => String::from_str("The number of provided buffer shards is smaller than the number of parity shards in codec"),
            RsError::TooManyBufferShards => String::from_str("The number of provided buffer shards is greater than the number of parity shards in codec"),
            RsError::IncorrectShardSize => String::from_str("At least one of the provided shards is not of the correct size"),
            RsError::TooFewShardsPresent => String::from_str("The number of shards present is smaller than number of parity shards, cannot reconstruct missing shards"),
            RsError::EmptyShard => String::from_str("The first shard provided is of zero length"),
            RsError::InvalidShardFlags => String::from_str("The number of flags does not match the total number of shards"),
            RsError::InvalidIndex => String::from_str("The data shard index provided is greater or equal to the number of data shards in codec"),
        }
    }
}

impl RsError {
    /// The variant with its fields, as `Debug` writes it.
    pub open spec fn structure(self) -> Seq<char> {
        match self {
            RsError::TooFewShards => "TooFewShards"@,
            RsError::TooManyShards => "TooManyShards"@,
            RsError::TooFewDataShards => "TooFewDataShards"@,
            RsError::TooManyDataShards => "TooManyDataShards"@,
            RsError::TooFewParityShards => "TooFewParityShards"@,
            RsError::TooManyParityShards => "TooManyParityShards"@,
            RsError::TooFewBufferShards => "TooFewBufferShards"@,
            RsError::TooManyBufferShards => "TooManyBufferShards"@,
            RsError::IncorrectShardSize => "IncorrectShardSize"@,
            RsError::TooFewShardsPresent => "TooFewShardsPresent"@,
            RsError::EmptyShard => "EmptyShard"@,
            RsError::InvalidShardFlags => "InvalidShardFlags"@,
            RsError::InvalidIndex => "InvalidIndex"@,
        }
    }

    /// The variant with its fields, as `Debug` writes it.
    pub fn describe(&self) -> (r: String)
        ensures
            r@ == self.structure(),
    {
        match self {
            RsError::TooFewShards => String::from_str("TooFewShards"),
            RsError::TooManyShards => String::from_str("TooManyShards"),
            RsError::TooFewDataShards => String::from_str("TooFewDataShards"),
            RsError::TooManyDataShards => String::from_str("TooManyDataShards"),
            RsError::TooFewParityShards => String::from_str("TooFewParityShards"),
            RsError::TooManyParityShards => String::from_str("TooManyParityShards"),
            RsError::TooFewBufferShards => String::from_str("TooFewBufferShards"),
            RsError::TooManyBufferShards => String::from_str("TooManyBufferShards"),
            RsError::IncorrectShardSize => String::from_str("IncorrectShardSize"),
            RsError::TooFewShardsPresent => String::from_str("TooFewShardsPresent"),
            RsError::EmptyShard => String::from_str("EmptyShard"),
            RsError::InvalidShardFlags => String::from_str("InvalidShardFlags"),
            RsError::InvalidIndex => String::from_str("InvalidIndex"),
        }
    }
}

impl EncodeError {
    /// The variant with its fields, as `Debug` writes it.
    pub open spec fn structure(self) -> Seq<char> {
        match self {
            EncodeError::Rs(e) => "Rs("@ + e.structure() + ")"@,
            EncodeError::EmptyPayload => "EmptyPayload"@,
            EncodeError::ShardCountOverflow => "ShardCountOverflow"@,
        }
    }

    /// The variant with its fields, as `Debug` writes it.
    pub fn describe(&self) -> (r: String)
        ensures
            r@ == self.structure(),
    {
        match self {
            EncodeError::Rs(e) => {
                let mut t: String = String::from_str("Rs(");
                t.append(e.describe().as_str());
                t.append(")");
                t
            },
            EncodeError::EmptyPayload => String::from_str("EmptyPayload"),
            EncodeError::ShardCountOverflow => String::from_str("ShardCountOverflow"),
        }
    }
}

impl EncodeError {
    /// What went wrong, in words.
    pub open spec fn text(self) -> Seq<char> {
        match self {
            EncodeError::Rs(e) => "reed-solomon-erasure error: "@ + e.text(),
            EncodeError::EmptyPayload => "cannot encode an empty payload"@,
            EncodeError::ShardCountOverflow => "resolved shard count exceeds i32::MAX"@,
        }
    }

    /// What went wrong, in words.
    pub fn message(&self) -> (r: String)
        ensures
            r@ == self.text(),
    {
        match self {
            EncodeError::Rs(e) => {
                let mut t: String = String::from_str("reed-solomon-erasure error: ");
                t.append(e.message().as_str());
                t
            },
            EncodeError::EmptyPayload => String::from_str("cannot encode an empty payload"),
            EncodeError::ShardCountOverflow => String::from_str("resolved shard count exceeds i32::MAX"),
        }
    }
}

impl DecodeError {
    /// What went wrong, in words.
    pub open spec fn text(self) -> Seq<char> {
        match self {
            DecodeError::Preamble(e) => "preamble: "@ + e.text(),
            DecodeError::Rs(e) => "reed-solomon-erasure: "@ + e.text(),
            DecodeError::ShardIndexOutOfRange { idx, total } => "shard index "@ + text::decimal(idx as nat) + " out of range (total = "@ + text::decimal(total as nat) + ")"@,
            DecodeError::DuplicateShardIndex { idx } => "duplicate shard at index "@ + text::decimal(idx as nat),
            DecodeError::InconsistentShardLength { expected, got } => "shard length "@ + text::decimal(got as nat) + " differs from expected "@ + text::decimal(expected as nat),
            DecodeError::MessageHashMismatch => "reconstructed message hash does not match preamble.hash"@,
        }
    }

    /// What went wrong, in words.
    pub fn message(&self) -> (r: String)
        ensures
            r@ == self.text(),
    {
        match self {
            DecodeError::Preamble(e) => {
                let mut t: String = String::from_str("preamble: ");
                t.append(e.message().as_str());
                t
            },
            DecodeError::Rs(e) => {
                let mut t: String = String::from_str("reed-solomon-erasure: ");
                t.append(e.message().as_str());
                t
            },
            DecodeError::ShardIndexOutOfRange { idx, total } => {
                let mut t: String = String::from_str("shard index ");
                text::append_decimal(&mut t, *idx as u64);
                t.append(" out of range (total = ");
                text::append_decimal(&mut t, *total as u64);
                t.append(")");
                t
            },
            DecodeError::DuplicateShardIndex { idx } => {
                let mut t: String = String::from_str("duplicate shard at index ");
                text::append_decimal(&mut t, *idx as u64);
                t
            },
            DecodeError::InconsistentShardLength { expected, got } => {
                let mut t: String = String::from_str("shard length ");
                text::append_decimal(&mut t, *got as u64);
                t.append(" differs from expected ");
                text::append_decimal(&mut t, *expected as u64);
                t
            },
            DecodeError::MessageHashMismatch => String::from_str("reconstructed message hash does not match preamble.hash"),
        }
    }
}

impl Verdict {
    /// The verdict's name.
    pub open spec fn text(self) -> Seq<char> {
        match self {
            Verdict::Accepted => "Accepted"@,
            Verdict::Redundant => "Redundant"@,
            Verdict::Decoding => "Decoding"@,
            Verdict::Surplus => "Surplus"@,
            Verdict::Invalid => "Invalid"@,
            Verdict::Pending => "Pending"@,
        }
    }

    /// The verdict's name.
    pub fn message(&self) -> (r: String)
        ensures
            r@ == self.text(),
    {
        match self {
            Verdict::Accepted => String::from_str("Accepted"),
            Verdict::Redundant => String::from_str("Redundant"),
            Verdict::Decoding => String::from_str("Decoding"),
            Verdict::Surplus => String::from_str("Surplus"),
            Verdict::Invalid => String::from_str("Invalid"),
            Verdict::Pending => String::from_str("Pending"),
        }
    }
}

impl SessionState {
    /// The state's name.
    pub open spec fn text(self) -> Seq<char> {
        match self {
            SessionState::Origin => "Origin"@,
            SessionState::Consuming => "Consuming"@,
            SessionState::Decoding => "Decoding"@,
            SessionState::Reconstructed => "Reconstructed"@,
            SessionState::Failed => "Failed"@,
        }
    }

    /// The state's name.
    pub fn message(&self) -> (r: String)
        ensures
            r@ == self.text(),
    {
        match self {
            SessionState::Origin => String::from_str("Origin"),
            SessionState::Consuming => String::from_str("Consuming"),
            SessionState::Decoding => String::from_str("Decoding"),
            SessionState::Reconstructed => String::from_str("Reconstructed"),
            SessionState::Failed => String::from_str("Failed"),
        }
    }
}

impl SessionError {
    /// What went wrong, in words.
    pub open spec fn text(self) -> Seq<char> {
        match self {
            SessionError::PostConsuming(v) => "session not in Consuming (verdict="@ + v.text() + ")"@,
            SessionError::NotDecoding(s) => "session not in Decoding (state="@ + s.text() + ")"@,
            SessionError::Take(e) => "take_chunk: "@ + e.text(),
        }
    }

    /// What went wrong, in words.
    pub fn message(&self) -> (r: String)
        ensures
            r@ == self.text(),
    {
        match self {
            SessionError::PostConsuming(v) => {
                let mut t: String = String::from_str("session not in Consuming (verdict=");
                t.append(v.message().as_str());
                t.append(")");
                t
            },
            SessionError::NotDecoding(s) => {
                let mut t: String = String::from_str("session not in Decoding (state=");
                t.append(s.message().as_str());
                t.append(")");
                t
            },
            SessionError::Take(e) => {
                let mut t: String = String::from_str("take_chunk: ");
                t.append(e.message().as_str());
                t
            },
        }
    }
}

impl ChannelFault {
    /// What went wrong, in words.
    pub open spec fn text(self) -> Seq<char> {
        match self {
            ChannelFault::InvalidPreamble(e) => "invalid preamble: "@ + e,
            ChannelFault::SessionNotFound(m) => "session not found: "@ + m,
            ChannelFault::Session(e) => "session: "@ + e.text(),
            ChannelFault::DuplicateSession(m) => "duplicate session: "@ + m,
        }
    }
}

impl ChannelError {
    /// What went wrong, in words.
    pub fn message(&self) -> (r: String)
        ensures
            r@ == self@.text(),
    {
        match self {
            ChannelError::InvalidPreamble(e) => {
                let mut t: String = String::from_str("invalid preamble: ");
                t.append(e.as_str());
                t
            },
            ChannelError::SessionNotFound(m) => {
                let mut t: String = String::from_str("session not found: ");
                t.append(m.as_str());
                t
            },
            ChannelError::Session(e) => {
                let mut t: String = String::from_str("session: ");
                t.append(e.message().as_str());
                t
            },
            ChannelError::DuplicateSession(m) => {
                let mut t: String = String::from_str("duplicate session: ");
                t.append(m.as_str());
                t
            },
        }
    }
}

impl EngineFault {
    /// What went wrong, in words.
    pub open spec fn text(self) -> Seq<char> {
        match self {
            EngineFault::Net(e) => "net: "@ + e.text(),
            EngineFault::Channel(e) => "channel: "@ + e.text(),
            EngineFault::UnknownChannel(c) => "unknown channel: "@ + c,
            EngineFault::EmptyPayload => "publish payload is empty"@,
        }
    }
}

impl EngineError {
    /// What went wrong, in words.
    pub fn message(&self) -> (r: String)
        ensures
            r@ == self@.text(),
    {
        match self {
            EngineError::Net(e) => {
                let mut t: String = String::from_str("net: ");
                t.append(e.message().as_str());
                t
            },
            EngineError::Channel(e) => {
                let mut t: String = String::from_str("channel: ");
                t.append(e.message().as_str());
                t
            },
            EngineError::UnknownChannel(c) => {
                let mut t: String = String::from_str("unknown channel: ");
                t.append(c.as_str());
                t
            },
            EngineError::EmptyPayload => String::from_str("publish payload is empty"),
        }
    }
}

impl SimFault {
    /// What went wrong, in words.
    pub open spec fn text(self) -> Seq<char> {
        match self {
            SimFault::Engine { peer, error } => "engine "@ + text::decimal(peer as nat) + ": "@ + error.text(),
            SimFault::EngineClosed(p) => "engine "@ + text::decimal(p as nat) + ": event stream closed"@,
            SimFault::MaxStepsExceeded { max } => "run_to_quiescence exceeded "@ + text::decimal(max as nat) + " steps"@,
            SimFault::UnknownPeer(p) => "unknown peer "@ + text::decimal(p as nat),
            SimFault::Encode(e) => "origin encode failed: "@ + e.structure(),
        }
    }
}

impl SimError {
    /// What went wrong, in words.
    pub fn message(&self) -> (r: String)
        ensures
            r@ == self@.text(),
    {
        match self {
            SimError::Engine { peer, error } => {
                let mut t: String = String::from_str("engine ");
                text::append_decimal(&mut t, *peer as u64);
                t.append(": ");
                t.append(error.message().as_str());
                t
            },
            SimError::EngineClosed(p) => {
                let mut t: String = String::from_str("engine ");
                text::append_decimal(&mut t, *p as u64);
                t.append(": event stream closed");
                t
            },
            SimError::MaxStepsExceeded { max } => {
                let mut t: String = String::from_str("run_to_quiescence exceeded ");
                text::append_decimal(&mut t, *max as u64);
                t.append(" steps");
                t
            },
            SimError::UnknownPeer(p) => {
                let mut t: String = String::from_str("unknown peer ");
                text::append_decimal(&mut t, *p as u64);
                t
            },
            SimError::Encode(e) => {
                let mut t: String = String::from_str("origin encode failed: ");
                t.append(e.describe().as_str());
                t
            },
        }
    }
}

} // verus!
