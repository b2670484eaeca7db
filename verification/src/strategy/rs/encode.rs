//! Origin Reed-Solomon encoding.

use vstd::prelude::*;

use crate::hash;
use crate::pb;
use crate::pb::rs::{Preamble, PreambleView};
use crate::strategy::config::RsConfig;
use crate::strategy::rs::code;
use crate::strategy::rs::code::RsError;
use crate::strategy::rs::HASH_LEN;

verus! {

/// Errors returned by [`encode`].
#[derive(Debug, Clone, Copy, PartialEq, Eq, Structural)]
pub enum EncodeError {
    /// The code does not exist for this number of data and parity shards.
    Rs(RsError),
    /// `payload` is empty.
    EmptyPayload,
    /// A shard count or the payload length exceeds `i32::MAX`.
    ShardCountOverflow,
}

/// Smallest integer not below `a / b`.
pub open spec fn ceil_div(a: int, b: int) -> int {
    (a + b - 1) / b
}

/// The configuration determines a shard shape.
pub open spec fn has_shape(config: RsConfig) -> bool {
    config.chunk_len > 0 || config.data_shards > 0
}

/// Number of data shards for a payload of `len` bytes.
pub open spec fn data_count(len: int, config: RsConfig) -> int {
    if config.chunk_len > 0 {
        ceil_div(len, config.chunk_len as int)
    } else {
        config.data_shards as int
    }
}

/// Number of parity shards for a payload of `len` bytes.
pub open spec fn parity_count(len: int, config: RsConfig) -> int {
    if config.chunk_len > 0 {
        data_count(len, config)
    } else {
        config.parity_shards as int
    }
}

/// Bytes per shard for a payload of `len` bytes.
pub open spec fn shard_len(len: int, config: RsConfig) -> int {
    if config.chunk_len > 0 {
        config.chunk_len as int
    } else {
        ceil_div(len, config.data_shards as int)
    }
}

/// Shard `i` of the payload: its bytes from `i * len` on, padded with zeros.
pub open spec fn data_shard(payload: Seq<u8>, len: int, i: int) -> Seq<u8> {
    Seq::new(
        len as nat,
        |j: int|
            if i * len + j < payload.len() {
                payload[i * len + j]
            } else {
                0u8
            },
    )
}

/// The payload cut into `count` shards of `len` bytes.
pub open spec fn split(payload: Seq<u8>, count: int, len: int) -> Seq<Seq<u8>> {
    Seq::new(count as nat, |i: int| data_shard(payload, len, i))
}

/// All shards of the payload: data shards, then parity shards.
pub open spec fn shards_of(payload: Seq<u8>, config: RsConfig) -> Seq<Seq<u8>> {
    let n = payload.len() as int;
    code::codeword(
        split(payload, data_count(n, config), shard_len(n, config)),
        parity_count(n, config) as nat,
    )
}

/// Digests of a list of shards.
pub open spec fn digests(shards: Seq<Seq<u8>>) -> Seq<Seq<u8>> {
    shards.map_values(|s: Seq<u8>| hash::sha256(s))
}

/// Why the payload cannot be encoded, if it cannot.
pub open spec fn encode_fault(payload: Seq<u8>, config: RsConfig) -> Option<EncodeError> {
    let n = payload.len() as int;
    if n == 0 {
        Some(EncodeError::EmptyPayload)
    } else {
        match code::shape_fault(data_count(n, config), parity_count(n, config)) {
            Some(e) => Some(EncodeError::Rs(e)),
            None => if n > i32::MAX {
                Some(EncodeError::ShardCountOverflow)
            } else {
                None
            },
        }
    }
}

/// The preamble of an encoded payload.
pub open spec fn preamble_of(payload: Seq<u8>, config: RsConfig) -> PreambleView {
    let n = payload.len() as int;
    PreambleView {
        num_data: data_count(n, config) as i32,
        num_parity: parity_count(n, config) as i32,
        length: n as i32,
        hashes: digests(shards_of(payload, config)),
        hash: hash::sha256(payload),
    }
}

/// `p` is the preamble of the encoded payload, which can be encoded. Digests
/// are full-length, there is a shard for each count of the preamble, and the
/// shards are of the resolved length.
pub open spec fn encodes(p: PreambleView, payload: Seq<u8>, config: RsConfig) -> bool {
    &&& has_shape(config)
    &&& encode_fault(payload, config) is None
    &&& p == preamble_of(payload, config)
    &&& p.hash.len() == HASH_LEN
    &&& code::uniform(p.hashes, HASH_LEN as int)
    &&& shards_of(payload, config).len() == p.num_data + p.num_parity
    &&& code::uniform(shards_of(payload, config), shard_len(payload.len() as int, config))
}

/// Encode `payload` as Reed-Solomon shards under `config`.
///
/// Returns the populated [`Preamble`] (with all shard hashes and the
/// message hash) and a list of `num_data + num_parity` shards: systematic
/// data shards followed by parity shards.
///
/// Padding on the final data shard is zero bytes.
pub fn encode(payload: &[u8], config: &RsConfig) -> (r: Result<(Preamble, Vec<Vec<u8>>), EncodeError>)
    requires
        payload@.len() > 0 ==> has_shape(*config),
    ensures
        match r {
            Ok((p, shards)) => {
                &&& encodes(p@, payload@, *config)
                &&& pb::contents(shards@) == shards_of(payload@, *config)
            },
            Err(e) => encode_fault(payload@, *config) == Some(e),
        },
{
    if payload.len() == 0 {
        return Err(EncodeError::EmptyPayload);
    }
    let ghost n = payload@.len() as int;
    let (data_shards, parity_shards, chunk_len) = resolve_shape(payload.len(), config);
    let total: usize = match data_shards.checked_add(parity_shards) {
        Some(t) => t,
        None => {
            return Err(EncodeError::Rs(RsError::TooManyShards));
        },
    };
    if parity_shards > 0 && total > code::MAX_SHARDS {
        return Err(EncodeError::Rs(RsError::TooManyShards));
    }
    let mut shards: Vec<Vec<u8>> = Vec::new();
    let mut i: usize = 0;
    while i < total
        invariant
            i <= total,
            chunk_len > 0,
            shards@.len() == i,
            forall|k: int|
                0 <= k < i ==> (#[trigger] shards@[k])@ == data_shard(payload@, chunk_len as int, k),
        decreases total - i,
    {
        shards.push(cut(payload, chunk_len, i));
        i = i + 1;
    }
    proof {
        assert(pb::contents(shards@).take(data_shards as int) =~= split(
            payload@,
            data_shards as int,
            chunk_len as int,
        ));
    }
    if let Err(e) = code::fill_parity(data_shards, parity_shards, &mut shards) {
        return Err(EncodeError::Rs(e));
    }
    let mut hashes: Vec<Vec<u8>> = Vec::new();
    let mut j: usize = 0;
    while j < shards.len()
        invariant
            j <= shards@.len(),
            hashes@.len() == j,
            forall|k: int|
                0 <= k < j ==> (#[trigger] hashes@[k])@ == hash::sha256(shards@[k]@) && hashes@[k]@.len() == 32,
        decreases shards@.len() - j,
    {
        hashes.push(hash::sha256_digest(shards[j].as_slice()));
        j = j + 1;
    }
    let message_hash = hash::sha256_digest(payload);
    if payload.len() > i32::MAX as usize {
        return Err(EncodeError::ShardCountOverflow);
    }
    let preamble = Preamble {
        num_data: data_shards as i32,
        num_parity: parity_shards as i32,
        length: payload.len() as i32,
        hashes,
        hash: message_hash,
    };
    proof {
        assert(pb::contents(hashes@) =~= digests(shards_of(payload@, *config))) by {
            assert(pb::contents(shards@) == shards_of(payload@, *config));
            assert forall|k: int| 0 <= k < hashes@.len() implies pb::contents(hashes@)[k] == digests(
                shards_of(payload@, *config),
            )[k] by {
                assert(pb::contents(shards@)[k] == shards@[k]@);
                assert(hashes@[k]@ == hash::sha256(shards@[k]@));
            }
        }
    }
    Ok((preamble, shards))
}

/// Shard `i` of the payload.
fn cut(payload: &[u8], len: usize, i: usize) -> (r: Vec<u8>)
    ensures
        r@ == data_shard(payload@, len as int, i as int),
{
    let mut out: Vec<u8> = Vec::new();
    let mut j: usize = 0;
    let start: Option<usize> = i.checked_mul(len);
    let total: usize = payload.len();
    while j < len
        invariant
            total == payload@.len(),
            j <= len,
            start matches Some(s) ==> s == i * len,
            start is None ==> i * len > usize::MAX,
            out@.len() == j,
            forall|k: int|
                0 <= k < j ==> #[trigger] out@[k] == data_shard(payload@, len as int, i as int)[k],
        decreases len - j,
    {
        let mut byte: u8 = 0;
        if let Some(s) = start {
            if s < total && j < total - s {
                byte = payload[s + j];
            }
        }
        assert(byte == data_shard(payload@, len as int, i as int)[j as int]);
        out.push(byte);
        j = j + 1;
    }
    assert(out@ =~= data_shard(payload@, len as int, i as int));
    out
}

/// Resolve the shard shape from config and payload length.
///
/// - `chunk_len == 0`: split into `data_shards` equal pieces; derive
///   chunk length as `ceil(payload_len / data_shards)`.
/// - `chunk_len > 0`: derive `data_shards = ceil(payload_len /
///   chunk_len)`, `parity_shards = data_shards`.
fn resolve_shape(payload_len: usize, config: &RsConfig) -> (r: (usize, usize, usize))
    requires
        payload_len > 0,
        has_shape(*config),
    ensures
        r.0 == data_count(payload_len as int, *config),
        r.1 == parity_count(payload_len as int, *config),
        r.2 == shard_len(payload_len as int, *config),
        r.0 > 0,
        r.2 > 0,
        r.0 * r.2 >= payload_len,
{
    if config.chunk_len > 0 {
        let chunk_len: usize = config.chunk_len as usize;
        let data_shards: usize = div_ceil(payload_len, chunk_len);
        (data_shards, data_shards, chunk_len)
    } else {
        let data_shards: usize = config.data_shards as usize;
        let parity_shards: usize = config.parity_shards as usize;
        let chunk_len: usize = div_ceil(payload_len, data_shards);
        proof {
            assert(data_shards * chunk_len == chunk_len * data_shards) by (nonlinear_arith);
        }
        (data_shards, parity_shards, chunk_len)
    }
}

/// Smallest integer not below `a / b`.
fn div_ceil(a: usize, b: usize) -> (r: usize)
    requires
        a > 0,
        b > 0,
    ensures
        r == ceil_div(a as int, b as int),
        r > 0,
        r * b >= a,
{
    let q: usize = (a - 1) / b;
    proof {
        let (x, y) = (a as int, b as int);
        assert((x - 1) / y + 1 == (x + y - 1) / y) by (nonlinear_arith)
            requires
                y > 0,
        ;
        assert(((x - 1) / y + 1) * y >= x) by (nonlinear_arith)
            requires
                y > 0,
                x > 0,
        ;
        assert((x - 1) / y <= x - 1) by (nonlinear_arith)
            requires
                y > 0,
                x > 0,
        ;
    }
    q + 1
}

/// The data shards of a payload have room for all of it, and none is empty.
pub(crate) proof fn lemma_shape_fits(len: int, config: RsConfig)
    requires
        len > 0,
        has_shape(config),
    ensures
        shard_len(len, config) > 0,
        data_count(len, config) > 0,
        data_count(len, config) * shard_len(len, config) >= len,
{
    let b = if config.chunk_len > 0 {
        config.chunk_len as int
    } else {
        config.data_shards as int
    };
    assert(ceil_div(len, b) * b >= len && ceil_div(len, b) > 0) by (nonlinear_arith)
        requires
            len > 0,
            b > 0,
            ceil_div(len, b) == (len + b - 1) / b,
    ;
    assert(ceil_div(len, b) * b == b * ceil_div(len, b)) by (nonlinear_arith);
}

} // verus!
