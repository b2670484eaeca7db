//! Engines over the in-process transport.

use ethp2p::channel::{Channel, ChannelError, StrategyFactory};
use ethp2p::engine::factory::{rs_relay_factory, rs_relay_factory_seeded, RsRelayFactory};
use ethp2p::engine::opens::Logged;
use ethp2p::engine::{Engine, EngineConfig, EngineError, StepResult};
use ethp2p::pb::wire::Message;
use ethp2p::runtime::memory_net::{MemoryNetEndpoint, MemoryNetHub};
use ethp2p::runtime::{Net, NetError, NetEvent, NetSend, NetSendView};
use ethp2p::session::SessionError;
use ethp2p::strategy::config::RsConfig;
use ethp2p::strategy::rs::encode::encode as rs_encode;
use ethp2p::strategy::rs::state::RsStrategy;

type TestEngine = Engine<RsStrategy, RsRelayFactory>;

const CHANNEL: &str = "test";
const PID: u32 = 7;

fn pseudorandom_payload(len: usize, seed: u64) -> Vec<u8> {
    // Deterministic xorshift; no extra deps.
    let mut state = seed.wrapping_add(0x9E37_79B9_7F4A_7C15);
    let mut out = Vec::with_capacity(len);
    for _ in 0..len {
        state ^= state << 13;
        state ^= state >> 7;
        state ^= state << 17;
        out.push(state as u8);
    }
    out
}

fn preamble_of(payload: &[u8], config: &RsConfig) -> Vec<u8> {
    let (preamble, _shards) = rs_encode(payload, config).unwrap();
    preamble.encode_to_vec()
}

fn net_of(peers: &[u64]) -> MemoryNetEndpoint {
    let mut hub = MemoryNetHub::new();
    for &p in &peers[1..] {
        hub.register(p);
    }
    hub.endpoint(peers[0])
}

/// Steps the engine of `peer` with its next event, if one waits.
fn step(net: &mut MemoryNetEndpoint, engine: &mut TestEngine, now: u64) -> bool {
    let peer = engine.local_peer();
    net.switch_to(peer);
    match net.hub_mut().next_event(peer) {
        Some(event) => {
            let r = engine.run_one_step(net, Some(event), now);
            assert!(matches!(r, Ok(StepResult::Processed)));
            true
        }
        None => false,
    }
}

#[test]
fn origin_relay_round_trip_64k() {
    const ORIGIN_PEER: u64 = 1;
    const RELAY_PEER: u64 = 2;
    const MESSAGE_ID: &str = "msg-0001";
    let payload = pseudorandom_payload(64 * 1024, 0xDEAD_BEEF);
    let config = RsConfig::default();
    let preamble_bytes = preamble_of(&payload, &config);

    let mut net = net_of(&[ORIGIN_PEER, RELAY_PEER]);
    let mut origin: TestEngine = Engine::new(ORIGIN_PEER, 0);
    let mut relay: TestEngine = Engine::new(RELAY_PEER, 0);

    // Both engines subscribe to the same channel.
    net.switch_to(ORIGIN_PEER);
    origin
        .subscribe(&mut net, CHANNEL.into(), rs_relay_factory(config, PID))
        .unwrap();
    net.switch_to(RELAY_PEER);
    relay
        .subscribe(&mut net, CHANNEL.into(), rs_relay_factory(config, PID))
        .unwrap();

    // Cross-connect.
    net.switch_to(ORIGIN_PEER);
    origin.connect(&mut net, RELAY_PEER).unwrap();
    net.switch_to(RELAY_PEER);
    relay.connect(&mut net, ORIGIN_PEER).unwrap();

    while step(&mut net, &mut origin, 0) || step(&mut net, &mut relay, 0) {}

    net.switch_to(ORIGIN_PEER);
    origin
        .publish(
            &mut net,
            &CHANNEL.into(),
            MESSAGE_ID.into(),
            RsStrategy::new_origin(&payload, config, PID).unwrap(),
            preamble_bytes,
            0,
        )
        .expect("publish");

    while step(&mut net, &mut origin, 0) || step(&mut net, &mut relay, 0) {}

    let delivered = relay.take_delivered();
    assert_eq!(delivered.len(), 1);
    assert_eq!(delivered[0].channel_id, CHANNEL);
    assert_eq!(delivered[0].message_id, MESSAGE_ID);
    assert_eq!(delivered[0].payload.len(), payload.len());
    assert_eq!(delivered[0].payload, payload);
    assert!(relay.take_delivered().is_empty());
    assert!(origin.take_delivered().is_empty());
}

#[test]
fn chunks_before_session_open_are_replayed() {
    const RELAY: u64 = 1;
    const SENDER: u64 = 2;
    const MESSAGE_ID: &str = "msg-parked-0001";
    let config = RsConfig::default();
    let payload: Vec<u8> = (0u32..8192).map(|i| i.wrapping_mul(31) as u8).collect();

    let (preamble, shards) = rs_encode(&payload, &config).unwrap();
    let preamble_bytes = preamble.encode_to_vec();

    let mut net = net_of(&[RELAY, SENDER]);
    let mut relay: TestEngine = Engine::new(RELAY, 0);
    relay
        .subscribe(&mut net, CHANNEL.into(), rs_relay_factory(config, PID))
        .unwrap();

    // Send `data_shards` chunks FIRST, before the open, so the engine has no
    // session yet and must park them. `data_shards` distinct shards suffice to
    // reconstruct.
    let needed = config.data_shards as usize;
    net.switch_to(SENDER);
    for (idx, shard) in shards.iter().enumerate().take(needed) {
        net.send(NetSend::Chunk {
            peer: RELAY,
            channel: CHANNEL.into(),
            message_id: MESSAGE_ID.into(),
            chunk_id: idx as u32,
            payload: shard.clone(),
            token: idx as u64,
        })
        .unwrap();
    }
    // Then the open, which triggers replay of the parked chunks.
    net.send(NetSend::SessionOpen {
        peer: RELAY,
        channel: CHANNEL.into(),
        message_id: MESSAGE_ID.into(),
        preamble: preamble_bytes,
        initial_update: vec![],
    })
    .unwrap();

    // All `needed + 1` events are already queued; step through them.
    for _ in 0..=needed {
        assert!(step(&mut net, &mut relay, 0));
    }

    let delivered = relay.take_delivered();
    assert_eq!(
        delivered.len(),
        1,
        "relay must reconstruct from replayed parked chunks"
    );
    assert_eq!(delivered[0].channel_id, CHANNEL);
    assert_eq!(delivered[0].message_id, MESSAGE_ID);
    assert_eq!(delivered[0].payload, payload, "payload must reconstruct");
}

#[test]
fn origin_relay_leaf_chain_delivers_to_leaf() {
    const ORIGIN_PEER: u64 = 1;
    const RELAY_PEER: u64 = 2;
    const LEAF_PEER: u64 = 3;
    const MESSAGE_ID: &str = "msg-relay-0001";
    let payload = pseudorandom_payload(32 * 1024, 0x0BAD_F00D);
    let config = RsConfig::default();
    let preamble_bytes = preamble_of(&payload, &config);

    let mut net = net_of(&[ORIGIN_PEER, RELAY_PEER, LEAF_PEER]);
    let mut origin: TestEngine = Engine::new(ORIGIN_PEER, 0);
    let mut relay: TestEngine = Engine::new(RELAY_PEER, 0);
    let mut leaf: TestEngine = Engine::new(LEAF_PEER, 0);

    for e in [&mut origin, &mut relay, &mut leaf] {
        net.switch_to(e.local_peer());
        e.subscribe(&mut net, CHANNEL.into(), rs_relay_factory(config, PID))
            .unwrap();
    }

    // Chain only: origin-relay and relay-leaf. Origin and leaf never meet,
    // so the leaf depends entirely on the relay opening a session to it.
    net.switch_to(ORIGIN_PEER);
    origin.connect(&mut net, RELAY_PEER).unwrap();
    net.switch_to(RELAY_PEER);
    relay.connect(&mut net, ORIGIN_PEER).unwrap();
    relay.connect(&mut net, LEAF_PEER).unwrap();
    net.switch_to(LEAF_PEER);
    leaf.connect(&mut net, RELAY_PEER).unwrap();

    for _ in 0..3 {
        step(&mut net, &mut origin, 0);
        step(&mut net, &mut relay, 0);
        step(&mut net, &mut leaf, 0);
    }
    net.switch_to(ORIGIN_PEER);
    origin
        .publish(
            &mut net,
            &CHANNEL.into(),
            MESSAGE_ID.into(),
            RsStrategy::new_origin(&payload, config, PID).unwrap(),
            preamble_bytes,
            0,
        )
        .expect("publish");

    while step(&mut net, &mut origin, 0)
        || step(&mut net, &mut relay, 0)
        || step(&mut net, &mut leaf, 0)
    {}

    let delivered = leaf.take_delivered();
    assert_eq!(delivered.len(), 1);
    assert_eq!(delivered[0].channel_id, CHANNEL);
    assert_eq!(delivered[0].message_id, MESSAGE_ID);
    assert_eq!(
        delivered[0].payload, payload,
        "leaf must reconstruct via the relay"
    );
}

#[test]
fn session_disposed_after_ttl_and_tombstoned() {
    const ORIGIN: u64 = 1;
    const POKER: u64 = 2;
    const MESSAGE_ID: &str = "msg-gc-0001";
    const SECOND: u64 = 1_000_000_000;
    let payload: Vec<u8> = (0u32..4096).map(|i| i.wrapping_mul(7) as u8).collect();
    let config = RsConfig::default();
    let preamble_bytes = preamble_of(&payload, &config);

    let mut net = net_of(&[ORIGIN, POKER]);

    // Short TTL, eager sweeps.
    let engine_cfg = EngineConfig {
        active_session_ttl: SECOND,
        reconstructed_linger: 0,
        tombstone_ttl: 60 * SECOND,
        cleanup_interval: 0,
    };
    let mut origin: TestEngine = Engine::with_config(ORIGIN, engine_cfg, 0);
    origin
        .subscribe(&mut net, CHANNEL.into(), rs_relay_factory(config, PID))
        .unwrap();

    // Publish creates a live origin session (no connected peers to drain to).
    origin
        .publish(
            &mut net,
            &CHANNEL.into(),
            MESSAGE_ID.into(),
            RsStrategy::new_origin(&payload, config, PID).unwrap(),
            preamble_bytes,
            0,
        )
        .unwrap();
    assert_eq!(
        origin.active_session_count(),
        1,
        "session is live after publish"
    );

    // Advance past the TTL, then poke the engine so cleanup runs.
    let now = 5 * SECOND;
    net.switch_to(POKER);
    net.send(NetSend::Subscribe {
        peer: ORIGIN,
        channel: CHANNEL.into(),
    })
    .unwrap();
    assert!(step(&mut net, &mut origin, now));
    assert_eq!(
        origin.active_session_count(),
        0,
        "session must be disposed after the TTL elapses"
    );

    // A late open for the disposed message is ignored (tombstoned).
    net.switch_to(POKER);
    net.send(NetSend::SessionOpen {
        peer: ORIGIN,
        channel: CHANNEL.into(),
        message_id: MESSAGE_ID.into(),
        preamble: vec![],
        initial_update: vec![],
    })
    .unwrap();
    assert!(step(&mut net, &mut origin, now));
    assert_eq!(
        origin.active_session_count(),
        0,
        "a tombstoned session must not be re-opened"
    );
}

fn idle_engine() -> (MemoryNetEndpoint, TestEngine) {
    let mut net = net_of(&[1, 2]);
    let mut engine: TestEngine = Engine::new(1, 0);
    engine
        .subscribe(
            &mut net,
            CHANNEL.into(),
            rs_relay_factory_seeded(RsConfig::default(), 9),
        )
        .unwrap();
    (net, engine)
}

#[test]
fn publishing_errors_are_reported() {
    let (mut net, mut engine) = idle_engine();
    let config = RsConfig::default();
    let payload = vec![1, 2, 3];
    let strategy = || RsStrategy::new_origin(&payload, config, PID).unwrap();
    let preamble = preamble_of(&payload, &config);

    let err = engine
        .publish(
            &mut net,
            &"elsewhere".into(),
            "m".into(),
            strategy(),
            preamble.clone(),
            0,
        )
        .unwrap_err();
    assert!(matches!(err, EngineError::UnknownChannel(c) if c == "elsewhere"));

    engine
        .publish(&mut net, &CHANNEL.into(), "m".into(), strategy(), preamble.clone(), 0)
        .unwrap();
    let err = engine
        .publish(&mut net, &CHANNEL.into(), "m".into(), strategy(), preamble, 0)
        .unwrap_err();
    assert!(matches!(
        err,
        EngineError::Channel(ChannelError::DuplicateSession(m)) if m == "m"
    ));

    let err = engine.connect(&mut net, 99).unwrap_err();
    assert!(matches!(err, EngineError::Net(NetError::PeerNotFound(99))));
}

#[test]
fn handshake_is_sent_once_per_peer() {
    let (mut net, mut engine) = idle_engine();
    engine.connect(&mut net, 2).unwrap();
    engine.connect(&mut net, 2).unwrap();
    assert_eq!(
        net.hub_mut().next_event(2),
        Some(NetEvent::Handshake {
            peer: 1,
            version: 1,
            channels: vec![CHANNEL.into()],
            peer_id: "peer-1".into(),
        })
    );
    assert_eq!(net.hub_mut().next_event(2), None);
}

#[test]
fn parked_chunks_are_bounded() {
    // More chunks than the buffer holds come before the session opens; the
    // oldest are gone, so the rest must suffice.
    let config = RsConfig::default();
    let payload = vec![42; 1000];
    let (preamble, shards) = rs_encode(&payload, &config).unwrap();
    let (mut net, mut engine) = idle_engine();
    let chunk = |idx: usize, data: Vec<u8>| NetEvent::Chunk {
        peer: 2,
        channel: CHANNEL.into(),
        message_id: "m".into(),
        chunk_id: idx as u32,
        payload: data,
    };
    // 16 good chunks, pushed out of the buffer by 32 bad ones.
    for idx in 0..16 {
        engine
            .run_one_step(&mut net, Some(chunk(idx, shards[idx].clone())), 0)
            .unwrap();
    }
    for _ in 0..32 {
        engine
            .run_one_step(&mut net, Some(chunk(0, vec![1])), 0)
            .unwrap();
    }
    engine
        .run_one_step(
            &mut net,
            Some(NetEvent::SessionOpen {
                peer: 2,
                channel: CHANNEL.into(),
                message_id: "m".into(),
                preamble: preamble.encode_to_vec(),
                initial_update: vec![],
            }),
            0,
        )
        .unwrap();
    assert!(engine.take_delivered().is_empty());
    assert_eq!(engine.active_session_count(), 1);
    // The session works with chunks that come now, and delivers once.
    for idx in 0..20 {
        engine
            .run_one_step(&mut net, Some(chunk(idx, shards[idx].clone())), 0)
            .unwrap();
    }
    let delivered = engine.take_delivered();
    assert_eq!(delivered.len(), 1);
    assert_eq!(delivered[0].payload, payload);
}

#[test]
fn end_of_events_closes_the_engine() {
    let (mut net, mut engine) = idle_engine();
    assert!(matches!(
        engine.run_one_step(&mut net, None, 0),
        Ok(StepResult::Closed)
    ));
}

#[test]
fn channel_refuses_bad_preambles_and_unknown_sessions() {
    let mut channel: Channel<RsStrategy, RsRelayFactory> =
        Channel::new(CHANNEL.into(), rs_relay_factory_seeded(RsConfig::default(), 1));
    let err = channel.open_session("m".into(), vec![0x0a], 0).unwrap_err();
    assert!(matches!(
        err,
        ChannelError::InvalidPreamble(text)
            if text == "failed to decode Protobuf message: Preamble.num_data: \
                invalid wire type: LengthDelimited (expected Varint)"
    ));
    let err = channel.open_session("m".into(), vec![], 0).unwrap_err();
    assert!(matches!(
        err,
        ChannelError::InvalidPreamble(text) if text == "MessageHashLengthInvalid { len: 0 }"
    ));
    let err = channel
        .take_chunk(&"m".into(), 0, vec![])
        .unwrap_err();
    assert!(matches!(err, ChannelError::SessionNotFound(m) if m == "m"));

    let config = RsConfig::default();
    let payload = vec![3; 10];
    channel
        .start_origin_session("m".into(), RsStrategy::new_origin(&payload, config, PID).unwrap())
        .unwrap();
    let err = channel
        .take_chunk(&"m".into(), 0, vec![])
        .unwrap_err();
    assert!(matches!(
        err,
        ChannelError::Session(SessionError::PostConsuming(_))
    ));
    assert_eq!(channel.session_ids(), vec!["m".to_string()]);
    channel.remove_session(&"m".into());
    assert!(!channel.has_session(&"m".into()));
}

#[test]
fn refused_preambles_use_no_seed() {
    let config = RsConfig::default();
    let preamble = preamble_of(&[7; 100], &config);
    let picks = |s: &mut RsStrategy| -> Vec<u32> {
        (0..32).map(|_| s.planner_mut().allocate(1).unwrap()).collect()
    };
    let seeded = |seed: u64| {
        let (p, _) = rs_encode(&[7; 100], &config).unwrap();
        RsStrategy::new_relay_with_seed(p, config, seed).unwrap()
    };
    let mut factory = rs_relay_factory_seeded(config, u64::MAX);
    // Undecodable, then decodable and invalid: neither constructs a strategy.
    assert!(factory.build(vec![0x0a], 0).is_err());
    assert!(factory.build(vec![], 0).is_err());
    let mut first = factory.build(preamble.clone(), 0).unwrap();
    assert_eq!(picks(&mut first), picks(&mut seeded(u64::MAX)));
    assert!(factory.build(vec![], 0).is_err());
    let mut second = factory.build(preamble, 0).unwrap();
    assert_eq!(picks(&mut second), picks(&mut seeded(0)));
    assert_ne!(picks(&mut seeded(u64::MAX)), picks(&mut seeded(0)));
}

#[test]
fn every_subscriber_delivers_once_in_whatever_order_turns_are_taken() {
    const ORIGIN: u64 = 1;
    const SUBSCRIBERS: [u64; 3] = [2, 3, 4];
    let config = RsConfig::default();
    let payload = pseudorandom_payload(5000, 11);
    let mut net = net_of(&[ORIGIN, 2, 3, 4]);
    let mut engines: Vec<TestEngine> = (1..=4).map(|p| Engine::new(p, 0)).collect();
    for e in &mut engines {
        let peer = e.local_peer();
        net.switch_to(peer);
        e.subscribe(&mut net, CHANNEL.into(), rs_relay_factory_seeded(config, peer))
            .unwrap();
    }
    // Everyone is subscribed at everyone, so relays forward to each other.
    for e in &mut engines {
        let here = e.local_peer();
        net.switch_to(here);
        for peer in (1..=4).filter(|p| *p != here) {
            let event = NetEvent::Subscribe { peer, channel: CHANNEL.into() };
            e.run_one_step(&mut net, Some(event), 0).unwrap();
        }
    }
    net.switch_to(ORIGIN);
    let strategy = RsStrategy::new_origin(&payload, config, PID).unwrap();
    engines[0]
        .publish(
            &mut net,
            &CHANNEL.into(),
            "m".into(),
            strategy,
            preamble_of(&payload, &config),
            0,
        )
        .unwrap();
    // Turns in a scrambled order, until nothing waits for anyone.
    let mut state = 99_u64;
    let mut idle = 0;
    while idle < 64 {
        state = state.wrapping_mul(6_364_136_223_846_793_005).wrapping_add(1);
        let i = (state >> 33) as usize % engines.len();
        idle = if step(&mut net, &mut engines[i], 0) { 0 } else { idle + 1 };
    }
    for peer in SUBSCRIBERS {
        let got = engines[peer as usize - 1].take_delivered();
        assert_eq!(got.len(), 1, "peer {peer}");
        assert_eq!(got[0].payload, payload);
    }
    assert!(engines[0].take_delivered().is_empty());
}

/// A transport whose queues to some peers are full.
struct Crowded {
    net: MemoryNetEndpoint,
    full: Vec<u64>,
}

impl Net for Crowded {
    type Model = ();

    fn model(&self) {}

    fn sent(_m: (), _msg: NetSendView) -> ((), Result<(), NetError>) {
        unreachable!()
    }

    fn send(&mut self, msg: NetSend) -> Result<(), NetError> {
        let peer = match &msg {
            NetSend::Handshake { peer, .. }
            | NetSend::Subscribe { peer, .. }
            | NetSend::Unsubscribe { peer, .. }
            | NetSend::SessionOpen { peer, .. }
            | NetSend::RoutingUpdate { peer, .. }
            | NetSend::Chunk { peer, .. } => Some(*peer),
            NetSend::SessionReconstructed { .. } => None,
        };
        match peer {
            Some(p) if self.full.contains(&p) => Err(NetError::Backpressure(p)),
            _ => self.net.send(msg),
        }
    }
}

impl Crowded {
    fn events_of(&mut self, peer: u64) -> Vec<NetEvent> {
        let mut out = Vec::new();
        while let Some(e) = self.net.hub_mut().next_event(peer) {
            out.push(e);
        }
        out
    }
}

fn chunk_ids(events: &[NetEvent]) -> Vec<u32> {
    let mut out: Vec<u32> = events
        .iter()
        .map(|e| match e {
            NetEvent::Chunk { chunk_id, .. } => *chunk_id,
            other => panic!("expected a chunk, got {other:?}"),
        })
        .collect();
    out.sort_unstable();
    out
}

/// A relay with subscribers 2 and 9 that has a session open, with the events
/// that bring the session's chunks.
fn relay_of_two(net: &mut Crowded) -> (TestEngine, Vec<Vec<u8>>) {
    let config = RsConfig { bitmap_threshold: 0, ..RsConfig::default() };
    let (preamble, shards) = rs_encode(&[42; 1000], &config).unwrap();
    let mut engine: TestEngine = Engine::new(1, 0);
    engine
        .subscribe(net, CHANNEL.into(), rs_relay_factory_seeded(config, 3))
        .unwrap();
    for peer in [9, 2] {
        let event = NetEvent::Subscribe { peer, channel: CHANNEL.into() };
        engine.run_one_step(net, Some(event), 0).unwrap();
    }
    let open = NetEvent::SessionOpen {
        peer: 2,
        channel: CHANNEL.into(),
        message_id: "m".into(),
        preamble: preamble.encode_to_vec(),
        initial_update: vec![],
    };
    engine.run_one_step(net, Some(open), 0).unwrap();
    (engine, shards)
}

fn chunk_event(shards: &[Vec<u8>], idx: usize) -> NetEvent {
    NetEvent::Chunk {
        peer: 2,
        channel: CHANNEL.into(),
        message_id: "m".into(),
        chunk_id: idx as u32,
        payload: shards[idx].clone(),
    }
}

#[test]
fn control_frames_without_room_are_retried_and_dispatches_refunded() {
    let mut net = Crowded { net: net_of(&[1, 2, 9]), full: vec![2] };
    let (mut engine, shards) = relay_of_two(&mut net);
    engine
        .run_one_step(&mut net, Some(chunk_event(&shards, 0)), 0)
        .unwrap();
    // The peer with room got its session and its update; no chunk went out.
    let seen = net.events_of(9);
    assert!(matches!(seen[0], NetEvent::SessionOpen { .. }));
    assert!(matches!(&seen[1], NetEvent::RoutingUpdate { payload, .. } if payload[0] == 0b01));
    assert_eq!(seen.len(), 2);
    assert!(net.events_of(2).is_empty());

    // Once there is room, the next drain brings what is due, with the open
    // first; the refunded chunk is planned again.
    net.full.clear();
    engine
        .run_one_step(&mut net, Some(chunk_event(&shards, 1)), 0)
        .unwrap();
    let seen = net.events_of(2);
    assert!(matches!(seen[0], NetEvent::SessionOpen { .. }));
    assert!(matches!(&seen[1], NetEvent::RoutingUpdate { payload, .. } if payload[0] == 0b01));
    assert!(matches!(&seen[2], NetEvent::RoutingUpdate { payload, .. } if payload[0] == 0b11));
    assert_eq!(chunk_ids(&seen[3..]), vec![0, 1]);
    let seen = net.events_of(9);
    assert!(matches!(&seen[0], NetEvent::RoutingUpdate { payload, .. } if payload[0] == 0b11));
    assert_eq!(chunk_ids(&seen[1..]), vec![0, 1]);
}

#[test]
fn missing_subscriber_ends_the_drain_at_once() {
    let mut net = Crowded { net: net_of(&[1, 9]), full: vec![] };
    let (mut engine, shards) = relay_of_two(&mut net);
    engine
        .run_one_step(&mut net, Some(chunk_event(&shards, 0)), 0)
        .unwrap();
    // The transport does not know the first subscriber: nothing goes to the
    // second.
    assert!(net.events_of(9).is_empty());

    // Nothing of that drain is retried.
    net.net.hub_mut().register(2);
    engine
        .run_one_step(&mut net, Some(chunk_event(&shards, 1)), 0)
        .unwrap();
    for peer in [2, 9] {
        let seen = net.events_of(peer);
        assert!(matches!(seen[0], NetEvent::SessionOpen { .. }));
        assert!(matches!(&seen[1], NetEvent::RoutingUpdate { payload, .. } if payload[0] == 0b11));
        assert_eq!(chunk_ids(&seen[2..]), vec![1]);
    }
}

#[test]
fn handshakes_and_subscriptions_without_room_go_out_on_the_next_drain() {
    let mut net = Crowded { net: net_of(&[1, 2, 3]), full: vec![2] };
    let mut engine: TestEngine = Engine::new(1, 0);
    let err = engine.connect(&mut net, 2).unwrap_err();
    assert!(matches!(err, EngineError::Net(NetError::Backpressure(2))));
    // Connecting again sends nothing, and is no error.
    engine.connect(&mut net, 2).unwrap();
    engine.connect(&mut net, 3).unwrap();
    let factory = || rs_relay_factory_seeded(RsConfig::default(), 3);
    let err = engine
        .subscribe(&mut net, CHANNEL.into(), factory())
        .unwrap_err();
    assert!(matches!(err, EngineError::Net(NetError::Backpressure(2))));
    // The peer behind the full one is told.
    let seen = net.events_of(3);
    assert!(matches!(seen[0], NetEvent::Handshake { peer: 1, .. }));
    assert!(matches!(&seen[1], NetEvent::Subscribe { peer: 1, channel } if channel == CHANNEL));
    assert_eq!(seen.len(), 2);
    assert!(net.events_of(2).is_empty());

    let subscribe = || NetEvent::Subscribe { peer: 3, channel: CHANNEL.into() };
    // While there is no room, a drain leaves them owed.
    engine.run_one_step(&mut net, Some(subscribe()), 0).unwrap();
    assert!(net.events_of(2).is_empty());
    net.full.clear();
    engine.run_one_step(&mut net, Some(subscribe()), 0).unwrap();
    let seen = net.events_of(2);
    assert!(matches!(
        &seen[0],
        NetEvent::Handshake { peer: 1, channels, .. } if channels == &[CHANNEL.to_string()]
    ));
    assert!(matches!(&seen[1], NetEvent::Subscribe { peer: 1, channel } if channel == CHANNEL));
    assert_eq!(seen.len(), 2);
    // They went out once.
    engine.run_one_step(&mut net, Some(subscribe()), 0).unwrap();
    assert!(net.events_of(2).is_empty());
}

#[test]
fn peers_that_leave_are_owed_nothing() {
    let mut net = Crowded { net: net_of(&[1, 2]), full: vec![2] };
    let mut engine: TestEngine = Engine::new(1, 0);
    engine
        .subscribe(&mut net, CHANNEL.into(), rs_relay_factory_seeded(RsConfig::default(), 3))
        .unwrap();
    assert!(engine.connect(&mut net, 2).is_err());
    engine
        .run_one_step(&mut net, Some(NetEvent::PeerDisconnected { peer: 2 }), 0)
        .unwrap();
    net.full.clear();
    let subscribe = NetEvent::Subscribe { peer: 2, channel: CHANNEL.into() };
    engine.run_one_step(&mut net, Some(subscribe), 0).unwrap();
    assert!(net.events_of(2).is_empty());
}

#[test]
fn clock_seeds_follow_the_reading_of_each_construction() {
    let config = RsConfig::default();
    let preamble = preamble_of(&[7; 100], &config);
    let picks = |s: &mut RsStrategy| -> Vec<u32> {
        (0..32).map(|_| s.planner_mut().allocate(1).unwrap()).collect()
    };
    let seeded = |seed: u64| {
        let (p, _) = rs_encode(&[7; 100], &config).unwrap();
        RsStrategy::new_relay_with_seed(p, config, seed).unwrap()
    };
    let mut factory = rs_relay_factory(config, PID);
    for reading in [5_u32, 999_999_999, 5] {
        let mut built = factory.build(preamble.clone(), reading).unwrap();
        let seed = u64::from(reading) << 32 | u64::from(PID);
        assert_eq!(picks(&mut built), picks(&mut seeded(seed)));
    }
}

#[test]
fn undecodable_preambles_are_described() {
    let mut factory = rs_relay_factory_seeded(RsConfig::default(), 1);
    let mut text = |bytes: &[u8]| match factory.build(bytes.to_vec(), 0) {
        Err(t) => t.strip_prefix("failed to decode Protobuf message: ").unwrap().to_string(),
        Ok(_) => panic!("expected a refusal"),
    };
    // Keys.
    assert_eq!(text(&[0x80]), "invalid varint");
    assert_eq!(
        text(&[0x80, 0x80, 0x80, 0x80, 0x10]),
        "invalid key value: 4294967296"
    );
    assert_eq!(text(&[0x0f]), "invalid wire type value: 7");
    assert_eq!(text(&[0x06]), "invalid wire type value: 6");
    assert_eq!(text(&[0x00]), "invalid tag value: 0");
    // Fields of the preamble.
    assert_eq!(
        text(&[0x12, 0x01]),
        "Preamble.num_parity: invalid wire type: LengthDelimited (expected Varint)"
    );
    assert_eq!(
        text(&[0x1d]),
        "Preamble.length: invalid wire type: ThirtyTwoBit (expected Varint)"
    );
    assert_eq!(
        text(&[0x23]),
        "Preamble.hashes: invalid wire type: StartGroup (expected LengthDelimited)"
    );
    assert_eq!(
        text(&[0x2c]),
        "Preamble.hash: invalid wire type: EndGroup (expected LengthDelimited)"
    );
    assert_eq!(
        text(&[0x29]),
        "Preamble.hash: invalid wire type: SixtyFourBit (expected LengthDelimited)"
    );
    assert_eq!(text(&[0x08]), "Preamble.num_data: invalid varint");
    assert_eq!(text(&[0x22, 0x80]), "Preamble.hashes: invalid varint");
    assert_eq!(text(&[0x08, 0x01, 0x22, 0x02, 0xaa]), "Preamble.hashes: buffer underflow");
    // Other fields.
    assert_eq!(text(&[0x30]), "invalid varint");
    assert_eq!(text(&[0x32, 0x02, 0xaa]), "buffer underflow");
    assert_eq!(text(&[0x35, 0x01]), "buffer underflow");
    assert_eq!(text(&[0x31, 0x01]), "buffer underflow");
    assert_eq!(text(&[0x34]), "unexpected end group tag");
    assert_eq!(text(&[0x33, 0x3c]), "unexpected end group tag");
    assert_eq!(text(&[0x33, 0x30]), "invalid varint");
    let mut deep = vec![0x33; 101];
    deep.extend(vec![0x34; 101]);
    assert_eq!(text(&deep), "recursion limit reached");
}

#[test]
fn logging_a_transport_changes_nothing() {
    let (net, mut engine) = idle_engine();
    let mut logged = Logged::new(net);
    engine.connect(&mut logged, 2).unwrap();
    let err = engine.connect(&mut logged, 99).unwrap_err();
    assert!(matches!(err, EngineError::Net(NetError::PeerNotFound(99))));
}
