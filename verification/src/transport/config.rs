//! Transport configuration.

use vstd::prelude::*;

use crate::engine::Nanos;

verus! {

/// ALPN protocol identifier for the erasure-coded broadcast transport,
/// `eth-ec-broadcast`. A QUIC handshake that does not
/// negotiate this protocol is rejected before any stream opens.
pub const ALPN: [u8; 16] = [
    101, 116, 104, 45, 101, 99, 45, 98, 114, 111, 97, 100, 99, 97, 115, 116,
];

/// Application error code a receiver uses to reset an inbound SESS stream once
/// it has reconstructed the message.
pub const ERR_RECONSTRUCTED: u32 = 0x01;

/// Upper bound on reconstructed-session keys tracked for the reset.
pub const MAX_RECONSTRUCTED_TRACKED: usize = 8192;

/// Uni-stream credit advertised to each peer. Every chunk rides its own
/// unidirectional stream, so a broadcast burst opens many at once.
pub const MAX_CONCURRENT_UNI_STREAMS: u32 = 4096;

/// Depth of each peer's bounded outbound queue.
pub const PER_PEER_OUTBOUND_QUEUE: usize = 256;

/// QUIC application close code used when a dialed peer asserts an identity
/// other than the pinned one.
pub const PEER_ID_MISMATCH_CLOSE: u32 = 0x02;

/// Tunables of the transport.
#[derive(Debug, Clone)]
pub struct QuicNetConfig {
    /// ALPN protocol identifier offered and required on the QUIC handshake.
    pub alpn: Vec<u8>,
    /// QUIC idle timeout: a connection silent for this long is considered
    /// dead. Bounds how quickly a vanished peer's disconnect is detected; set
    /// well under the session TTL so the strategy stops planning to a dead
    /// peer long before its sessions are swept.
    pub max_idle_timeout: Nanos,
    /// Keep-alive ping interval. Kept below `max_idle_timeout` (rule of thumb
    /// `<= idle / 3`) so a quiet but live connection is not torn down.
    pub keep_alive_interval: Nanos,
}

impl Default for QuicNetConfig {
    /// 30 s of silence, with a keep-alive at a third of it.
    fn default() -> (r: Self)
        ensures
            r.alpn@ == ALPN@,
            r.max_idle_timeout == 30_000_000_000,
            r.keep_alive_interval == 10_000_000_000,
    {
        let mut alpn: Vec<u8> = Vec::new();
        let name = ALPN;
        alpn.extend_from_slice(name.as_slice());
        assert(alpn@ =~= ALPN@);
        QuicNetConfig {
            alpn,
            max_idle_timeout: 30_000_000_000,
            keep_alive_interval: 10_000_000_000,
        }
    }
}

} // verus!
