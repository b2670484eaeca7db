//! Virtual-time clock.

use vstd::prelude::*;

use crate::engine::model;
use crate::engine::Nanos;
use crate::sim::net::{SendPredicate, SimNetHub};
use crate::sim::state::Sleep;

verus! {

/// Deterministic clock over the simulation's virtual time.
///
/// `now()` is the simulation start instant plus the virtual offset;
/// it changes only when the simulation advances. A sleep is over
/// only when virtual time passes its wakeup point:
/// a 1-hour virtual sleep costs no wall-clock time.
#[derive(Debug, Clone, Copy)]
pub struct SimClock {
    start: Nanos,
}

impl SimClock {
    /// When the simulation started.
    pub closed spec fn started(&self) -> Nanos {
        self.start
    }

    /// A clock of a simulation that started at `start`.
    pub fn new(start: Nanos) -> (r: Self)
        ensures
            r.started() == start,
    {
        SimClock { start }
    }

    /// Virtual instant: simulation start plus virtual offset.
    pub fn now<P: SendPredicate>(&self, hub: &SimNetHub<P>) -> (r: Nanos)
        ensures
            r == model::later(self.started(), hub@.now),
    {
        self.start.saturating_add(hub.virtual_now())
    }

    /// A sleep that is over when `d` has passed.
    pub fn sleep<P: SendPredicate>(&self, hub: &mut SimNetHub<P>, d: Nanos) -> (r: Sleep)
        ensures
            final(hub)@ == old(hub)@.sleeping(model::later(old(hub)@.now, d)),
            r@ == old(hub)@.woken.len(),
    {
        hub.sleep(d)
    }
}

impl<P: SendPredicate> SimNetHub<P> {
    /// The clock of this simulation, which started at `start`.
    pub fn clock(&self, start: Nanos) -> (r: SimClock)
        ensures
            r.started() == start,
    {
        SimClock::new(start)
    }
}

} // verus!
