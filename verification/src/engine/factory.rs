//! Factory of Reed-Solomon relay strategies.

use vstd::prelude::*;

use crate::channel::StrategyFactory;
use crate::pb::faults;
use crate::pb::rs::Preamble;
use crate::pb::wire;
use crate::pb::wire::Message;
use crate::pb::WireError;
use crate::strategy::config::RsConfig;
use crate::strategy::rs::state;
use crate::strategy::rs::state::{RsStrategy, RsView};
use crate::strategy::rs::verify;

verus! {

/// Where a factory takes the seeds of its strategies from.
#[derive(Debug, Clone, Copy, PartialEq, Eq, Structural)]
pub enum Seeds {
    /// The wall clock at the time of construction, with the number of the
    /// process.
    Clock { pid: u32 },
    /// Counting up; `next` is the seed of the strategy constructed next.
    Counted { next: u64 },
}

/// Builds relay strategies from encoded preambles. A refused preamble
/// constructs none and uses no seed.
#[derive(Debug, Clone, Copy)]
pub struct RsRelayFactory {
    config: RsConfig,
    seeds: Seeds,
}

/// State of an [`RsRelayFactory`].
pub ghost struct RsRelayFactoryView {
    pub config: RsConfig,
    pub seeds: Seeds,
}

/// The seed that follows `seed`.
pub open spec fn following(seed: u64) -> u64 {
    if seed == u64::MAX {
        0
    } else {
        (seed + 1) as u64
    }
}

/// The seed of a strategy constructed when the wall clock is `reading`
/// nanoseconds into its second, and where the seeds after it come from.
pub open spec fn seeded(seeds: Seeds, reading: u32) -> (u64, Seeds) {
    match seeds {
        Seeds::Clock { pid } => (state::mixed(reading, pid) as u64, seeds),
        Seeds::Counted { next } => (next, Seeds::Counted { next: following(next) }),
    }
}

impl StrategyFactory<RsStrategy> for RsRelayFactory {
    type Model = RsRelayFactoryView;

    closed spec fn model(&self) -> RsRelayFactoryView {
        RsRelayFactoryView { config: self.config, seeds: self.seeds }
    }

    open spec fn built(m: RsRelayFactoryView, preamble: Seq<u8>, reading: u32) -> (
        RsRelayFactoryView,
        Result<RsView, Seq<char>>,
    ) {
        match wire::merged::<Preamble>(Preamble::blank(), preamble) {
            Err(_) => (m, Err(faults::complaint(preamble)->0)),
            Ok(p) => match verify::preamble_fault(p) {
                Some(e) => (m, Err(e.structure())),
                None => {
                    let (seed, seeds) = seeded(m.seeds, reading);
                    (RsRelayFactoryView { seeds, ..m }, Ok(RsView::relay(p, m.config, seed)))
                },
            },
        }
    }

    fn build(&mut self, preamble: Vec<u8>, reading: u32) -> (r: Result<RsStrategy, String>) {
        let parsed = match Preamble::decode(preamble.as_slice()) {
            Ok(p) => p,
            Err(_) => {
                proof {
                    faults::law_complaint_iff_malformed(Preamble::blank(), preamble@);
                }
                return match faults::complaint_about(preamble.as_slice()) {
                    Some(t) => Err(t),
                    None => Err(String::new()),
                };
            },
        };
        let (seed, seeds): (u64, Seeds) = match self.seeds {
            Seeds::Clock { pid } => (state::planner_seed(reading, pid), self.seeds),
            Seeds::Counted { next } => (next, Seeds::Counted { next: next.wrapping_add(1) }),
        };
        match RsStrategy::new_relay_with_seed(parsed, self.config, seed) {
            Ok(s) => {
                self.seeds = seeds;
                Ok(s)
            },
            Err(e) => Err(e.describe()),
        }
    }
}

/// Build a relay strategy factory. Each strategy is seeded from the wall
/// clock, as it is when the strategy is constructed, and from `pid`, the
/// number of the process.
pub fn rs_relay_factory(config: RsConfig, pid: u32) -> (r: RsRelayFactory)
    ensures
        r.model() == (RsRelayFactoryView { config, seeds: Seeds::Clock { pid } }),
{
    RsRelayFactory { config, seeds: Seeds::Clock { pid } }
}

/// [`rs_relay_factory`] with deterministic planner seeding: the n-th
/// strategy the factory constructs gets seed `base_seed + n`. Used by
/// the sim harness, where reproducibility requires every relay
/// strategy's shard emission order to derive from the scenario seed.
pub fn rs_relay_factory_seeded(config: RsConfig, base_seed: u64) -> (r: RsRelayFactory)
    ensures
        r.model() == (RsRelayFactoryView { config, seeds: Seeds::Counted { next: base_seed } }),
{
    RsRelayFactory { config, seeds: Seeds::Counted { next: base_seed } }
}

/// A factory that counts gives the strategies that it builds consecutive
/// seeds, and a preamble that it refuses takes none. One that reads the clock
/// stays as it is. The strategy is a relay of the preamble under the
/// configuration of the factory.
pub proof fn law_seeds_are_consecutive(m: RsRelayFactoryView, preamble: Seq<u8>, reading: u32)
    ensures
        ({
            let (after, r) = RsRelayFactory::built(m, preamble, reading);
            &&& after.config == m.config
            &&& r is Err ==> after == m
            &&& r is Ok <==> (wire::merged::<Preamble>(Preamble::blank(), preamble) matches Ok(p)
                && verify::preamble_fault(p) is None)
            &&& m.seeds is Clock ==> after == m
            &&& m.seeds matches Seeds::Counted { next } ==> (r matches Ok(s) ==> {
                &&& s.planner.seed == next
                &&& next < u64::MAX ==> after.seeds == (Seeds::Counted { next: (next + 1) as u64 })
            })
            &&& r matches Ok(s) ==> {
                &&& wire::merged::<Preamble>(Preamble::blank(), preamble) == Ok::<_, WireError>(
                    s.preamble,
                )
                &&& s == RsView::relay(s.preamble, m.config, s.planner.seed)
            }
        }),
{
}

} // verus!
