# ethp2p

Erasure-coded broadcast: a payload is cut into Reed-Solomon shards, peers
forward shards to each other, and whoever holds enough of them reconstructs
the payload. The library under `src/` is verified with Verus; `app/` is the
program around it.

## Layout

- `src/strategy/`: the strategy interface and its Reed-Solomon
  implementation (`bitmap`, `config`, `rs/encode`, `rs/decode`, `rs/verify`,
  `rs/planner`, `rs/state`), with the laws of the strategy in `rs/laws`.
- `src/session.rs`, `src/channel.rs`: the state machine of one message, and
  the sessions of one channel.
- `src/engine/`: the engine. `model` says what every operation does to the
  engine and its transport, `mod` is the code, `laws` states what holds across
  operations, `factory` builds relay strategies. `watch` is an induction
  principle over everything an engine does to its transport; `opens` uses it
  to show that sessions are opened before they are used. `broadcast` shows
  that a published payload is delivered once by every subscriber.
- `src/runtime/`: messages, events and the transport interface, with an
  in-process transport whose laws over whole runs are in `memory_laws`.
- `src/pb/`, `src/protocol.rs`, `src/wire.rs`, `src/selector.rs`,
  `src/chunk.rs`: the protobuf messages and the framing of streams;
  `src/pb/faults.rs` says what is wrong with undecodable preambles.
- `src/transport/`: what the QUIC transport decides.
- `src/sim/`: a deterministic simulation with fault injection.
- `src/protos.rs`, `src/differential.rs`, `src/hex_text.rs`: the digest check
  of schema files and the comparison of decoders.
- `src/messages.rs`, `src/convert.rs`: what errors say in words, and how they
  convert to each other.
- `src/table.rs`, `src/order.rs`, `src/names.rs`, `src/text.rs`, `src/hash.rs`:
  maps and sets with a mathematical view, ordered enumeration, names, numbers
  in text, digests.

What the library takes on trust from other crates is behind small wrappers:
SHA-256 (`src/hash.rs`), the Reed-Solomon code (`src/strategy/rs/code.rs`),
variable-length integers and groups of protobuf (`src/pb/wire.rs`), seeded
random numbers (`src/sim/rng.rs`), hexadecimal text (`src/hex_text.rs`) and
the clock (`src/strategy/rs/state.rs`).
