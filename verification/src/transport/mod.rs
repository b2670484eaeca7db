//! What the QUIC transport decides: which bytes go on which stream, what an
//! inbound stream means, and which sessions are done.
//!
//! Each message rides on a unidirectional stream that opens with a single
//! [`crate::protocol::Protocol`] selector byte:
//!
//! - BCAST: one long-lived stream per direction carrying handshake, subscribe
//!   and unsubscribe frames.
//! - SESS: one stream per `(channel, message_id)` session, an open frame and
//!   then zero or more updates.
//! - CHUNK: one ephemeral stream per chunk, a framed header and then exactly
//!   `data_length` raw payload bytes.
//!
//! Peer identity is the self-asserted `peer_id` string in the BCAST
//! handshake; a dialed peer may be pinned to an expected one.

pub mod config;
pub mod inbound;
pub mod outbound;
pub mod reset;
pub mod routes;
