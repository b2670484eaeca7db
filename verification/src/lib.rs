//! Erasure-coded broadcast: engine, strategies, wire codec, simulation.

pub mod channel;
pub mod chunk;
pub mod convert;
pub mod differential;
pub mod engine;
pub mod hash;
pub mod hex_text;
pub mod messages;
pub mod names;
pub mod order;
pub mod pb;
pub mod protocol;
pub mod protos;
pub mod runtime;
pub mod selector;
pub mod session;
pub mod sim;
pub mod strategy;
pub mod table;
pub mod text;
pub mod transport;
pub mod wire;
