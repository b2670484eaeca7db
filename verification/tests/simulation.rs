//! Simulation harness.

use ethp2p::runtime::{Net, NetError, NetEvent, NetSend, NetSendView};
use ethp2p::sim::net::{
    Classification, FaultPlan, Never, SendPredicate, SimNetEndpoint, SimNetHub, CERTAIN,
};
use ethp2p::sim::runner::{derive_seed, SimError, SimRunner};
use ethp2p::sim::state::{Entry, EventQueue, Pending, PumpStep, SimState};
use ethp2p::sim::trace::{Disposition, DropReason, MsgKind, TraceEntry, TraceKind};
use ethp2p::strategy::config::RsConfig;
use ethp2p::strategy::rs::encode::EncodeError;
use rand::{Rng, RngCore, SeedableRng};

const MILLI: u64 = 1_000_000;
const HOUR: u64 = 3_600_000_000_000;
const CHANNEL: &str = "test";

/// Matches chunks by their ID.
struct ChunkIds {
    modulus: u32,
    rest: u32,
}

impl SendPredicate for ChunkIds {
    type Model = ();

    fn model(&self) {}

    fn looked(_m: (), _msg: NetSendView) -> ((), bool) {
        unreachable!()
    }

    fn look(&mut self, msg: &NetSend) -> bool {
        matches!(msg, NetSend::Chunk { chunk_id, .. } if chunk_id % self.modulus == self.rest)
    }
}

fn probability(p: f64) -> u64 {
    (p * CERTAIN as f64).ceil() as u64
}

fn chunk(dst: u64, chunk_id: u32) -> NetSend {
    NetSend::Chunk {
        peer: dst,
        channel: CHANNEL.into(),
        message_id: "msg".into(),
        chunk_id,
        payload: vec![],
        token: 0,
    }
}

/// Drain everything currently queued for a peer.
fn drain<P: SendPredicate>(net: &mut SimNetEndpoint<P>, peer: u64) -> Vec<NetEvent> {
    let mut out = Vec::new();
    while let Some(ev) = net.hub_mut().next_event(peer) {
        out.push(ev);
    }
    out
}

fn chunk_ids(events: &[NetEvent]) -> Vec<u32> {
    events
        .iter()
        .map(|e| match e {
            NetEvent::Chunk { chunk_id, .. } => *chunk_id,
            other => panic!("expected Chunk, got {other:?}"),
        })
        .collect()
}

fn linked<P: SendPredicate>(plan: FaultPlan<P>) -> SimNetEndpoint<P> {
    let mut hub = SimNetHub::new(plan);
    hub.register(2);
    hub.endpoint(1)
}

fn seeded_payload(len: usize, seed: u64) -> Vec<u8> {
    let mut rng = rand_chacha::ChaCha8Rng::seed_from_u64(seed);
    let mut out = vec![0_u8; len];
    rng.fill_bytes(&mut out);
    out
}

#[test]
fn sleep_resolves_on_virtual_advance_not_wall_clock() {
    let mut hub: SimNetHub<Never> = SimNetHub::new(FaultPlan::new(0));
    let clock = hub.clock(17);
    let before = clock.now(&hub);

    let sleep = clock.sleep(&mut hub, HOUR);
    assert!(
        !hub.is_done(&sleep),
        "sleep must not resolve before virtual time advances"
    );

    let wall_start = std::time::Instant::now();
    hub.advance_to(HOUR);
    assert!(hub.is_done(&sleep));
    assert!(
        wall_start.elapsed() < std::time::Duration::from_secs(60),
        "virtual advance must not consume wall-clock time"
    );
    assert!(clock.now(&hub) >= before + HOUR);
}

#[test]
fn time_is_frozen_between_advances() {
    let mut hub: SimNetHub<Never> = SimNetHub::new(FaultPlan::new(0));
    let clock = hub.clock(0);
    assert_eq!(clock.now(&hub), clock.now(&hub));

    hub.advance_to(250 * MILLI);
    let after = clock.now(&hub);
    assert_eq!(after, clock.now(&hub));
    assert_eq!(hub.virtual_now(), 250 * MILLI);
}

#[test]
fn default_configuration_is_fault_free_fifo() {
    let mut net = linked(FaultPlan::<Never>::new(0));
    for n in 0..16 {
        net.send(chunk(2, n)).unwrap();
    }
    net.hub_mut().pump_all();

    let received = drain(&mut net, 2);
    assert_eq!(chunk_ids(&received), (0..16).collect::<Vec<u32>>());
}

#[test]
fn net_send_to_unknown_peer_errors() {
    let mut a = SimNetHub::new(FaultPlan::<Never>::new(0)).endpoint(1);
    assert_eq!(
        a.send(chunk(99, 0)).unwrap_err(),
        NetError::PeerNotFound(99)
    );
}

#[test]
fn scripted_drop_rule_removes_matching_messages() {
    let mut plan = FaultPlan::new(0);
    plan.drop_if(1, 2, ChunkIds { modulus: 2, rest: 1 });
    let mut net = linked(plan);

    for n in 0..8 {
        net.send(chunk(2, n)).unwrap();
    }
    net.hub_mut().pump_all();

    let received = drain(&mut net, 2);
    assert_eq!(chunk_ids(&received), vec![0, 2, 4, 6]);

    let dropped: Vec<u64> = net
        .hub()
        .trace()
        .iter()
        .filter(|e| {
            matches!(
                &e.kind,
                TraceKind::Send {
                    disposition: Disposition::Dropped {
                        reason: DropReason::Rule
                    },
                    ..
                }
            )
        })
        .map(|e| e.seq)
        .collect();
    assert_eq!(dropped.len(), 4);
    // The sender sees every chunk go out.
    assert_eq!(drain(&mut net, 1).len(), 8);
}

#[test]
fn partition_window_blocks_a_link() {
    let mut plan = FaultPlan::<Never>::new(0);
    plan.partition(1, 2, 0, 5 * MILLI);
    let mut net = linked(plan);

    // Sent at virtual t=0: inside [0ms, 5ms), so dropped.
    net.send(chunk(2, 0)).unwrap();
    net.hub_mut().pump_all();
    assert!(drain(&mut net, 2).is_empty());

    // Advance past the window; sends now go through.
    net.hub_mut().advance_to(5 * MILLI);
    net.send(chunk(2, 1)).unwrap();
    net.hub_mut().pump_all();
    assert_eq!(chunk_ids(&drain(&mut net, 2)), vec![1]);
}

#[test]
fn per_message_delay_reorders_delivery() {
    let mut plan = FaultPlan::new(0);
    plan.delay_if(1, 2, 10 * MILLI, ChunkIds { modulus: u32::MAX, rest: 0 });
    let mut net = linked(plan);

    // m1 (chunk 0) is sent first but delayed; m2 (chunk 1) is not.
    net.send(chunk(2, 0)).unwrap();
    net.send(chunk(2, 1)).unwrap();
    net.hub_mut().pump_all();

    assert_eq!(chunk_ids(&drain(&mut net, 2)), vec![1, 0]);
    assert_eq!(net.hub().virtual_now(), 10 * MILLI);
}

fn wakeup_entry(at_ms: u64, seq: u64) -> Entry {
    Entry {
        at: at_ms * MILLI,
        seq,
        pending: Pending::Wakeup(0),
    }
}

#[test]
fn heap_pops_earliest_time_first() {
    let mut heap = EventQueue::new();
    for (at, seq) in [(5, 0), (1, 1), (3, 2)] {
        heap.push(wakeup_entry(at, seq));
    }
    assert_eq!(heap.next_at(), Some(MILLI));
    let order: Vec<(u64, u64)> = std::iter::from_fn(|| heap.pop())
        .map(|e| (e.at, e.seq))
        .collect();
    assert_eq!(
        order,
        vec![(MILLI, 1), (3 * MILLI, 2), (5 * MILLI, 0)]
    );
}

#[test]
fn simultaneous_entries_pop_in_enqueue_order() {
    for _ in 0..16 {
        let mut heap = EventQueue::new();
        for seq in 0..8 {
            heap.push(wakeup_entry(7, seq));
        }
        let order: Vec<u64> = std::iter::from_fn(|| heap.pop()).map(|e| e.seq).collect();
        assert_eq!(order, vec![0, 1, 2, 3, 4, 5, 6, 7]);
    }
}

#[test]
fn pop_next_advances_virtual_time() {
    let mut state: SimState<Never> = SimState::new(FaultPlan::new(0));
    let _sleep_a = state.schedule_wakeup(10 * MILLI);
    let _sleep_b = state.schedule_wakeup(4 * MILLI);
    assert_eq!(state.now(), 0);
    assert_eq!(state.pop_next(), Some(PumpStep::Woke));
    assert_eq!(state.now(), 4 * MILLI);
    assert_eq!(state.pop_next(), Some(PumpStep::Woke));
    assert_eq!(state.now(), 10 * MILLI);
    assert_eq!(state.pop_next(), None);
}

fn run_seeded_faulty_scenario(seed: u64) -> Vec<TraceEntry> {
    let payload = seeded_payload(16 * 1024, 7);
    let config = RsConfig::default();
    let channel = CHANNEL.to_string();

    let mut plan = FaultPlan::<Never>::new(seed);
    plan.drop_with_probability(1, 2, probability(0.10));
    plan.drop_with_probability(2, 4, probability(0.10));
    plan.delay_jitter(1, 3, 5 * MILLI);
    plan.delay_jitter(3, 2, 2 * MILLI);

    let mut runner = SimRunner::new(&[1, 2, 3, 4], plan);
    runner.subscribe_all(&channel, config).expect("subscribe");
    runner.connect_full_mesh().expect("connect");
    runner.run_to_quiescence(100_000).expect("handshake phase");
    runner
        .publish(1, &channel, &"msg-det".to_string(), &payload, config)
        .expect("publish");
    runner
        .run_to_quiescence(1_000_000)
        .expect("broadcast phase");
    runner.trace()
}

#[test]
fn same_seed_yields_identical_traces() {
    let first = run_seeded_faulty_scenario(42);
    let second = run_seeded_faulty_scenario(42);
    assert!(
        !first.is_empty(),
        "scenario must record a non-trivial trace"
    );
    assert_eq!(
        first, second,
        "same scenario + same seed must produce an identical trace"
    );
}

#[test]
fn traces_are_in_order_and_sessions_open_first() {
    let trace = run_seeded_faulty_scenario(42);
    for pair in trace.windows(2) {
        assert!(pair[0].seq < pair[1].seq);
        assert!(pair[0].at <= pair[1].at);
    }
    let mut opened = Vec::new();
    for entry in &trace {
        if let TraceKind::Send { src, dst, msg, .. } = entry.kind {
            match msg {
                MsgKind::SessionOpen => opened.push((src, dst)),
                MsgKind::RoutingUpdate | MsgKind::Chunk { .. } => {
                    assert!(opened.contains(&(src, dst)), "{src} used an unopened session to {dst}");
                }
                _ => {}
            }
        }
    }
    assert!(!opened.is_empty());
}

#[test]
fn all_relays_reconstruct_under_scripted_chunk_loss() {
    const ORIGIN: u64 = 1;
    const RELAYS: [u64; 3] = [2, 3, 4];
    const MESSAGE_ID: &str = "msg-loss";
    let payload = seeded_payload(64 * 1024, 0xBADC_0FFE);
    let config = RsConfig::default();
    let channel = CHANNEL.to_string();
    // Default config: 16 data + 16 parity shards. Reconstruction needs
    // any 16 of 32, so the per-link margin is 16 lost shards. Dropping
    // chunk ids that are multiples of 4 removes exactly 8 of 32 per faulted
    // link, strictly below the margin even with no relay-to-relay help.
    let mut plan = FaultPlan::new(1);
    for relay in RELAYS {
        plan.drop_if(ORIGIN, relay, ChunkIds { modulus: 4, rest: 0 });
    }

    let mut peers = vec![ORIGIN];
    peers.extend(RELAYS);
    let mut runner = SimRunner::new(&peers, plan);
    runner.subscribe_all(&channel, config).expect("subscribe");
    runner.connect_full_mesh().expect("connect");
    runner.run_to_quiescence(100_000).expect("handshake phase");

    runner
        .publish(ORIGIN, &channel, &MESSAGE_ID.to_string(), &payload, config)
        .expect("publish");
    runner
        .run_to_quiescence(1_000_000)
        .expect("broadcast phase");

    for relay in RELAYS {
        let delivered = runner.take_deliveries(relay);
        assert_eq!(
            delivered.len(),
            1,
            "relay {relay} must deliver exactly once (seed {})",
            runner.seed()
        );
        assert_eq!(delivered[0].message_id, MESSAGE_ID);
        assert_eq!(
            delivered[0].payload, payload,
            "relay {relay} must reconstruct the payload byte-for-byte"
        );
    }

    // The trace must confirm the faults actually bit: at least one
    // dropped chunk on every faulted link from the origin.
    let trace = runner.trace();
    for relay in RELAYS {
        let dropped_chunks = trace
            .iter()
            .filter(|e| {
                matches!(
                    &e.kind,
                    TraceKind::Send {
                        src,
                        dst,
                        msg: MsgKind::Chunk { .. },
                        disposition: Disposition::Dropped { .. },
                    } if *src == ORIGIN && *dst == relay
                )
            })
            .count();
        assert!(
            dropped_chunks >= 1,
            "expected dropped chunks on link {ORIGIN}->{relay}, trace shows none"
        );
    }
}

#[test]
fn fault_free_two_engine_round_trip_64k() {
    const ORIGIN: u64 = 1;
    const RELAY: u64 = 2;
    const MESSAGE_ID: &str = "msg-0001";
    let payload = seeded_payload(64 * 1024, 0xDEAD_BEEF);
    let config = RsConfig::default();
    let channel = CHANNEL.to_string();

    let mut runner = SimRunner::new(&[ORIGIN, RELAY], FaultPlan::<Never>::new(0));
    runner.subscribe_all(&channel, config).expect("subscribe");
    runner.connect_full_mesh().expect("connect");
    runner.run_to_quiescence(10_000).expect("handshake phase");

    runner
        .publish(ORIGIN, &channel, &MESSAGE_ID.to_string(), &payload, config)
        .expect("publish");
    runner.run_to_quiescence(100_000).expect("broadcast phase");

    let delivered = runner.take_deliveries(RELAY);
    assert_eq!(
        delivered.len(),
        1,
        "relay must deliver exactly once (seed {})",
        runner.seed()
    );
    assert_eq!(delivered[0].channel_id, CHANNEL);
    assert_eq!(delivered[0].message_id, MESSAGE_ID);
    assert_eq!(
        delivered[0].payload, payload,
        "payload must round-trip byte-for-byte"
    );
}

#[test]
fn draws_follow_the_seeded_generator() {
    // The plan draws what a generator of the same seed gives, in turn.
    let mut plan = FaultPlan::<Never>::new(5);
    plan.drop_with_probability(1, 2, probability(0.5));
    plan.delay_jitter(1, 2, 1_000);
    let mut rng = rand_chacha::ChaCha8Rng::seed_from_u64(5);
    let mut drops = 0;
    for n in 0..200 {
        let expected = if rng.random::<f64>() < 0.5 {
            drops += 1;
            Classification::Drop(DropReason::Random)
        } else {
            Classification::Deliver {
                delay: rng.random_range(0..=1_000),
            }
        };
        assert_eq!(plan.classify(1, 2, 0, &chunk(2, n)), expected);
    }
    assert!(drops > 50 && drops < 150);
    // Other links are untouched.
    assert_eq!(
        plan.classify(2, 1, 0, &chunk(1, 0)),
        Classification::Deliver { delay: 0 }
    );
}

#[test]
fn peer_seeds_are_spread() {
    assert_eq!(derive_seed(7, 0), 7);
    assert_eq!(derive_seed(0, 1), 0x9E37_79B9_7F4A_7C15);
    assert_eq!(derive_seed(1, 1), 0x9E37_79B9_7F4A_7C14);
    assert_eq!(derive_seed(0, 2), 0x3C6E_F372_FE94_F82A);
}

#[test]
fn runner_errors_are_reported() {
    let config = RsConfig::default();
    let channel = CHANNEL.to_string();
    let id = "m".to_string();
    let mut runner = SimRunner::new(&[1, 2], FaultPlan::<Never>::new(0));
    let err = runner.publish(1, &channel, &id, &[], config).unwrap_err();
    assert!(matches!(err, SimError::Encode(EncodeError::EmptyPayload)));
    let err = runner.publish(9, &channel, &id, &[1], config).unwrap_err();
    assert!(matches!(err, SimError::UnknownPeer(9)));
    let err = runner.publish(1, &channel, &id, &[1], config).unwrap_err();
    assert!(matches!(err, SimError::Engine { peer: 1, .. }));
    runner.connect_full_mesh().unwrap();
    let err = runner.run_to_quiescence(1).unwrap_err();
    assert!(matches!(err, SimError::MaxStepsExceeded { max: 1 }));
    assert_eq!(runner.virtual_now(), 0);
}

#[test]
fn no_step_is_left_once_the_queue_is_pumped() {
    let mut runner = SimRunner::new(&[1, 2], FaultPlan::<Never>::new(0));
    runner.connect_full_mesh().unwrap();
    runner.hub_mut().pump_all();
    runner.hub_mut().register(2);
    assert_eq!(runner.run_to_quiescence(10).unwrap(), 0);
    assert!(runner.take_deliveries(2).is_empty());
    assert!(runner.take_deliveries(77).is_empty());
}

#[test]
fn reconstruction_notice_crosses_the_simulated_link() {
    let mut plan = FaultPlan::<Never>::new(0);
    plan.delay_jitter(2, 1, 0);
    let mut net = linked(plan);
    net.send(NetSend::SessionOpen {
        peer: 2,
        channel: "ch".into(),
        message_id: "m".into(),
        preamble: vec![],
        initial_update: vec![],
    })
    .unwrap();
    net.switch_to(2);
    net.send(NetSend::SessionReconstructed {
        channel: "ch".into(),
        message_id: "m".into(),
    })
    .unwrap();
    net.hub_mut().pump_all();
    assert_eq!(
        drain(&mut net, 1),
        vec![NetEvent::PeerReconstructed {
            peer: 2,
            channel: "ch".into(),
            message_id: "m".into(),
        }]
    );
    let trace = net.hub().trace();
    assert_eq!(trace.len(), 2);
    assert_eq!(
        trace[1].kind,
        TraceKind::Send {
            src: 2,
            dst: 1,
            msg: MsgKind::SessionReconstructed,
            disposition: Disposition::Delivered { deliver_at: 0 },
        }
    );
}
