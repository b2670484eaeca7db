//! Emit planner behaviour.

use ethp2p::strategy::rs::planner::{fib_priority, EmitPlanner, PlannerMode};

#[test]
fn least_allocated_first() {
    let mut p = EmitPlanner::new(8, 0xDEAD_BEEF, PlannerMode::Origin);
    // Pre-allocate to a different peer five times to push some shard counts up.
    for _ in 0..5 {
        assert!(p.allocate(99).is_some(), "warm-up");
    }
    // Subsequent allocates to a new peer should prefer un-allocated shards.
    for _ in 0..3 {
        let idx = p.allocate(1).unwrap();
        assert!(
            p.allocation_count(idx) <= 2,
            "should pick low-allocation shards (got count {})",
            p.allocation_count(idx)
        );
    }
}

#[test]
fn relay_caps_at_forward_multiplier() {
    let cap = 2;
    let mut p = EmitPlanner::new(
        2,
        0,
        PlannerMode::Relay {
            forward_multiplier: cap,
        },
    );
    // Two shards × cap = 4 total allocations possible.
    let mut got = Vec::new();
    for peer in 0..10_u64 {
        if let Some(idx) = p.allocate(peer) {
            got.push(idx);
        }
    }
    assert_eq!(got.len(), 4);
    // Each shard exactly cap times.
    let mut counts = [0_u32; 2];
    for &idx in &got {
        counts[idx as usize] += 1;
    }
    assert_eq!(counts, [cap; 2]);
}

#[test]
fn origin_unconstrained() {
    let mut p = EmitPlanner::new(2, 0, PlannerMode::Origin);
    // 100 different peers should each get an allocation despite the
    // Origin mode having no cap.
    for peer in 0..100_u64 {
        assert!(p.allocate(peer).is_some());
    }
    // Total allocations = 100, distributed across 2 shards.
    assert_eq!(p.allocation_count(0) + p.allocation_count(1), 100);
}

#[test]
fn fib_priority_deterministic_per_seed() {
    let p1 = fib_priority(0xCAFE, 7);
    let p2 = fib_priority(0xCAFE, 7);
    assert_eq!(p1, p2);
    // Different seed → different priority (with overwhelming probability).
    let p3 = fib_priority(0xBEEF, 7);
    assert_ne!(p1, p3);
}

#[test]
fn record_sent_marks_peer_havelist() {
    let mut p = EmitPlanner::new(4, 0, PlannerMode::Origin);
    let peer = 42_u64;
    let idx = p.allocate(peer).unwrap();
    p.record_sent(peer, idx);
    assert_eq!(p.sent_count(idx), 1);
    // Subsequent allocate for the same peer should skip `idx`.
    let next = p.allocate(peer).unwrap();
    assert_ne!(next, idx);
}

#[test]
fn cancel_in_flight_reopens_for_allocation() {
    let mut p = EmitPlanner::new(2, 0, PlannerMode::Origin);
    let peer = 7_u64;
    let idx = p.allocate(peer).unwrap();
    p.cancel_in_flight(peer, idx);
    // Now `idx` should be allocatable again to this peer.
    let mut found = false;
    for _ in 0..4 {
        if let Some(next) = p.allocate(peer) {
            if next == idx {
                found = true;
                break;
            }
        }
    }
    assert!(found, "cancelled in-flight shard should be re-allocatable");
}
