//! `SimNet`: the fault-injecting in-process transport.
//!
//! Same hub/endpoint shape as [`crate::runtime::memory_net`], but
//! sends are routed through the event queue instead of being
//! delivered directly, and a per-directed-link [`FaultPlan`] decides
//! each message's disposition. With no fault rules configured the
//! behavior matches `MemoryNet`: exactly-once, FIFO per link.

use vstd::prelude::*;

use crate::engine::model;
use crate::engine::Nanos;
use crate::runtime::{Net, NetError, NetEvent, NetEventView, NetSend, NetSendView};
use crate::sim::rng;
use crate::sim::state;
use crate::sim::state::{PumpStep, SimState, SimView, Sleep};
use crate::sim::trace::{DropReason, TraceEntry};
use crate::strategy::PeerId;

verus! {

/// Decides for which messages a scripted fault rule fires. It may keep
/// state between messages.
pub trait SendPredicate: Sized {
    /// State of the predicate.
    type Model;

    spec fn model(&self) -> Self::Model;

    /// State and answer after a message was looked at.
    spec fn looked(m: Self::Model, msg: NetSendView) -> (Self::Model, bool);

    fn look(&mut self, msg: &NetSend) -> (r: bool)
        ensures
            (final(self).model(), r) == Self::looked(old(self).model(), msg@),
    ;
}

/// The predicate that matches no message.
#[derive(Debug, Clone, Copy)]
pub struct Never;

impl SendPredicate for Never {
    type Model = ();

    open spec fn model(&self) -> () {
        ()
    }

    open spec fn looked(m: (), msg: NetSendView) -> ((), bool) {
        ((), false)
    }

    fn look(&mut self, msg: &NetSend) -> (r: bool) {
        false
    }
}

/// Numbers below which a draw of 53 random bits falls with certainty.
pub const CERTAIN: u64 = 0x20_0000_0000_0000;

enum FaultAction<P> {
    DropIf(P),
    DropWithProbability(u64),
    DelayIf { pred: P, delay: Nanos },
    DelayJitter { max: Nanos },
    Partition { from: Nanos, until: Nanos },
}

/// What a fault rule does; `M` is the state of its predicate.
pub ghost enum ActionView<M> {
    /// Drop messages that the predicate matches.
    DropIf(M),
    /// Drop messages when a draw of 53 random bits is below the number.
    DropWithProbability(u64),
    /// Delay messages that the predicate matches.
    DelayIf { pred: M, delay: Nanos },
    /// Delay messages by a random time up to `max`.
    DelayJitter { max: Nanos },
    /// Drop messages sent in `[from, until)`.
    Partition { from: Nanos, until: Nanos },
}

struct FaultRule<P> {
    src: PeerId,
    dst: PeerId,
    action: FaultAction<P>,
}

/// A fault rule on a directed link.
pub ghost struct RuleView<M> {
    pub src: PeerId,
    pub dst: PeerId,
    pub action: ActionView<M>,
}

impl<P: SendPredicate> View for FaultRule<P> {
    type V = RuleView<P::Model>;

    closed spec fn view(&self) -> RuleView<P::Model> {
        RuleView {
            src: self.src,
            dst: self.dst,
            action: match self.action {
                FaultAction::DropIf(p) => ActionView::DropIf(p.model()),
                FaultAction::DropWithProbability(t) => ActionView::DropWithProbability(t),
                FaultAction::DelayIf { pred, delay } => ActionView::DelayIf {
                    pred: pred.model(),
                    delay,
                },
                FaultAction::DelayJitter { max } => ActionView::DelayJitter { max },
                FaultAction::Partition { from, until } => ActionView::Partition { from, until },
            },
        }
    }
}

/// Per-directed-link fault rules plus the scenario's seeded random numbers.
///
/// Rules are evaluated in insertion order for every message whose
/// `(src, dst)` link matches. Drop-style rules short-circuit; delay
/// contributions accumulate. All randomness (probability draws, delay
/// jitter) comes from one stream seeded with the scenario seed, so
/// the same scenario and seed always classify identically.
pub struct FaultPlan<P> {
    seed: u64,
    rules: Vec<FaultRule<P>>,
    pos: u128,
}

/// State of a [`FaultPlan`].
#[verifier::ext_equal]
pub ghost struct PlanView<M> {
    pub seed: u64,
    pub rules: Seq<RuleView<M>>,
    /// Position in the seed's stream of random numbers.
    pub pos: u128,
}

impl<M> PlanView<M> {
    /// The plan with one more rule.
    pub open spec fn with(self, src: PeerId, dst: PeerId, action: ActionView<M>) -> PlanView<M> {
        PlanView { rules: self.rules.push(RuleView { src, dst, action }), ..self }
    }

    /// The plan in which the action of a rule is another.
    pub open spec fn updated(self, i: int, action: ActionView<M>) -> PlanView<M> {
        PlanView { rules: self.rules.update(i, RuleView { action, ..self.rules[i] }), ..self }
    }
}

/// Outcome of classifying one message.
#[derive(Debug, Clone, Copy, PartialEq, Eq, Structural)]
pub enum Classification {
    Deliver { delay: Nanos },
    Drop(DropReason),
}

/// A message on a link at a time.
pub ghost struct Passage {
    pub src: PeerId,
    pub dst: PeerId,
    pub now: Nanos,
    pub msg: NetSendView,
}

/// The plan and the outcome after the rules from the `i`-th on judged a
/// message that earlier rules delayed by `delay`.
pub open spec fn judged<P: SendPredicate>(
    plan: PlanView<P::Model>,
    i: int,
    delay: Nanos,
    p: Passage,
) -> (PlanView<P::Model>, Classification)
    decreases plan.rules.len() - i,
{
    if i < 0 || i >= plan.rules.len() {
        (plan, Classification::Deliver { delay })
    } else {
        let rule = plan.rules[i];
        if rule.src != p.src || rule.dst != p.dst {
            judged::<P>(plan, i + 1, delay, p)
        } else {
            match rule.action {
                ActionView::Partition { from, until } => if from <= p.now < until {
                    (plan, Classification::Drop(DropReason::Partition))
                } else {
                    judged::<P>(plan, i + 1, delay, p)
                },
                ActionView::DropIf(m) => {
                    let (m1, hit) = P::looked(m, p.msg);
                    let next = plan.updated(i, ActionView::DropIf(m1));
                    if hit {
                        (next, Classification::Drop(DropReason::Rule))
                    } else {
                        judged::<P>(next, i + 1, delay, p)
                    }
                },
                ActionView::DropWithProbability(threshold) => {
                    let (word, pos) = rng::chacha_word(plan.seed, plan.pos);
                    let next = PlanView { pos, ..plan };
                    if word / 2048 < threshold {
                        (next, Classification::Drop(DropReason::Random))
                    } else {
                        judged::<P>(next, i + 1, delay, p)
                    }
                },
                ActionView::DelayIf { pred, delay: d } => {
                    let (m1, hit) = P::looked(pred, p.msg);
                    let next = plan.updated(i, ActionView::DelayIf { pred: m1, delay: d });
                    judged::<P>(
                        next,
                        i + 1,
                        if hit {
                            model::later(delay, d)
                        } else {
                            delay
                        },
                        p,
                    )
                },
                ActionView::DelayJitter { max } => {
                    let (d, pos) = rng::chacha_range(plan.seed, plan.pos, max);
                    judged::<P>(PlanView { pos, ..plan }, i + 1, model::later(delay, d), p)
                },
            }
        }
    }
}

impl<P: SendPredicate> View for FaultPlan<P> {
    type V = PlanView<P::Model>;

    closed spec fn view(&self) -> PlanView<P::Model> {
        PlanView {
            seed: self.seed,
            rules: self.rules@.map_values(|r: FaultRule<P>| r@),
            pos: self.pos,
        }
    }
}

impl<P: SendPredicate> FaultPlan<P> {
    /// A plan with no rules: every message is delivered with zero
    /// delay. The seed still determines any randomness added later.
    pub fn new(seed: u64) -> (r: Self)
        ensures
            r@ == (PlanView::<P::Model> { seed, rules: Seq::empty(), pos: 0 }),
    {
        let r = FaultPlan { seed, rules: Vec::new(), pos: 0 };
        assert(r@.rules =~= Seq::<RuleView<P::Model>>::empty());
        r
    }

    /// The scenario seed; reported on failures for reproduction.
    pub fn seed(&self) -> (r: u64)
        ensures
            r == self@.seed,
    {
        self.seed
    }

    fn add_rule(&mut self, rule: FaultRule<P>)
        ensures
            final(self)@ == (PlanView { rules: old(self)@.rules.push(rule@), ..old(self)@ }),
    {
        self.rules.push(rule);
        assert(self@.rules =~= old(self)@.rules.push(rule@));
    }

    /// Drop messages on `src -> dst` matching the predicate.
    pub fn drop_if(&mut self, src: PeerId, dst: PeerId, pred: P)
        ensures
            final(self)@ == old(self)@.with(src, dst, ActionView::DropIf(pred.model())),
    {
        self.add_rule(FaultRule { src, dst, action: FaultAction::DropIf(pred) });
    }

    /// Drop each message on `src -> dst` with the given probability,
    /// drawn from the seeded stream. The probability is given in units of
    /// one in [`CERTAIN`].
    pub fn drop_with_probability(&mut self, src: PeerId, dst: PeerId, probability: u64)
        ensures
            final(self)@ == old(self)@.with(
                src,
                dst,
                ActionView::DropWithProbability(probability),
            ),
    {
        self.add_rule(
            FaultRule { src, dst, action: FaultAction::DropWithProbability(probability) },
        );
    }

    /// Add a fixed virtual-time delay to messages on `src -> dst`
    /// matching the predicate.
    pub fn delay_if(&mut self, src: PeerId, dst: PeerId, delay: Nanos, pred: P)
        ensures
            final(self)@ == old(self)@.with(
                src,
                dst,
                ActionView::DelayIf { pred: pred.model(), delay },
            ),
    {
        self.add_rule(FaultRule { src, dst, action: FaultAction::DelayIf { pred, delay } });
    }

    /// Add a seeded-random delay in `0..=max` to every message on
    /// `src -> dst`.
    pub fn delay_jitter(&mut self, src: PeerId, dst: PeerId, max: Nanos)
        ensures
            final(self)@ == old(self)@.with(src, dst, ActionView::DelayJitter { max }),
    {
        self.add_rule(FaultRule { src, dst, action: FaultAction::DelayJitter { max } });
    }

    /// Drop everything in both directions between `a` and `b` while
    /// virtual time is within `[from, until)`.
    pub fn partition(&mut self, a: PeerId, b: PeerId, from: Nanos, until: Nanos)
        ensures
            final(self)@ == old(self)@.with(a, b, ActionView::Partition { from, until }).with(
                b,
                a,
                ActionView::Partition { from, until },
            ),
    {
        self.add_rule(FaultRule { src: a, dst: b, action: FaultAction::Partition { from, until } });
        self.add_rule(FaultRule { src: b, dst: a, action: FaultAction::Partition { from, until } });
    }

    /// Lets the rules judge a message.
    pub fn classify(&mut self, src: PeerId, dst: PeerId, now: Nanos, msg: &NetSend) -> (r: Classification)
        ensures
            (final(self)@, r) == judged::<P>(
                old(self)@,
                0,
                0,
                Passage { src, dst, now, msg: msg@ },
            ),
    {
        let ghost p = Passage { src, dst, now, msg: msg@ };
        let mut delay: Nanos = 0;
        let mut i: usize = 0;
        while i < self.rules.len()
            invariant
                i <= self.rules@.len(),
                p == (Passage { src, dst, now, msg: msg@ }),
                judged::<P>(self@, i as int, delay, p) == judged::<P>(old(self)@, 0, 0, p),
            decreases self.rules@.len() - i,
        {
            let ghost before = self@;
            let seed: u64 = self.seed;
            let pos: u128 = self.pos;
            assert(before.rules[i as int] == self.rules@[i as int]@);
            if self.rules[i].src == src && self.rules[i].dst == dst {
                let rule = &mut self.rules[i];
                match &mut rule.action {
                    FaultAction::Partition { from, until } => {
                        let hit: bool = *from <= now && now < *until;
                        assert(self@.rules =~= before.rules);
                        if hit {
                            return Classification::Drop(DropReason::Partition);
                        }
                    },
                    FaultAction::DropIf(pred) => {
                        let hit = pred.look(msg);
                        proof {
                            let m1 = P::looked(before.rules[i as int].action->DropIf_0, msg@).0;
                            assert(self@.rules =~= before.updated(
                                i as int,
                                ActionView::DropIf(m1),
                            ).rules);
                        }
                        if hit {
                            return Classification::Drop(DropReason::Rule);
                        }
                    },
                    FaultAction::DropWithProbability(threshold) => {
                        let (word, after) = rng::draw_word(seed, pos);
                        let hit: bool = word / 2048 < *threshold;
                        self.pos = after;
                        assert(self@.rules =~= before.rules);
                        if hit {
                            return Classification::Drop(DropReason::Random);
                        }
                    },
                    FaultAction::DelayIf { pred, delay: d } => {
                        let hit = pred.look(msg);
                        let extra: Nanos = *d;
                        if hit {
                            delay = delay.saturating_add(extra);
                        }
                        proof {
                            let m1 = P::looked(before.rules[i as int].action->pred, msg@).0;
                            assert(self@.rules =~= before.updated(
                                i as int,
                                ActionView::DelayIf { pred: m1, delay: extra },
                            ).rules);
                        }
                    },
                    FaultAction::DelayJitter { max } => {
                        let (d, after) = rng::draw_range(seed, pos, *max);
                        self.pos = after;
                        assert(self@.rules =~= before.rules);
                        delay = delay.saturating_add(d);
                    },
                }
            }
            i = i + 1;
        }
        Classification::Deliver { delay }
    }
}

proof fn lemma_other_links<P: SendPredicate>(
    plan: PlanView<P::Model>,
    i: int,
    delay: Nanos,
    p: Passage,
)
    requires
        0 <= i,
        forall|k: int|
            i <= k < plan.rules.len() ==> (#[trigger] plan.rules[k]).src != p.src || plan.rules[k].dst
                != p.dst,
    ensures
        judged::<P>(plan, i, delay, p) == (plan, Classification::Deliver { delay }),
    decreases plan.rules.len() - i,
{
    if i < plan.rules.len() {
        lemma_other_links::<P>(plan, i + 1, delay, p);
    }
}

/// A message on a link that no rule names is delivered without delay, and
/// the plan stays as it was.
pub proof fn law_other_links_are_untouched<P: SendPredicate>(plan: PlanView<P::Model>, p: Passage)
    requires
        forall|k: int|
            0 <= k < plan.rules.len() ==> (#[trigger] plan.rules[k]).src != p.src || plan.rules[k].dst
                != p.dst,
    ensures
        judged::<P>(plan, 0, 0, p) == (plan, Classification::Deliver { delay: 0 }),
{
    lemma_other_links::<P>(plan, 0, 0, p);
}

/// A rule that cuts the link of a message at its time.
pub open spec fn cuts<M>(rule: RuleView<M>, p: Passage) -> bool {
    &&& rule.src == p.src
    &&& rule.dst == p.dst
    &&& rule.action matches ActionView::Partition { from, until } && from <= p.now < until
}

proof fn lemma_partition<P: SendPredicate>(
    plan: PlanView<P::Model>,
    i: int,
    delay: Nanos,
    p: Passage,
    k: int,
)
    requires
        0 <= i <= k < plan.rules.len(),
        cuts(plan.rules[k], p),
    ensures
        judged::<P>(plan, i, delay, p).1 is Drop,
    decreases plan.rules.len() - i,
{
    let rule = plan.rules[i];
    if i < k {
        if rule.src != p.src || rule.dst != p.dst {
            lemma_partition::<P>(plan, i + 1, delay, p, k);
        } else {
            match rule.action {
                ActionView::Partition { from, until } => {
                    lemma_partition::<P>(plan, i + 1, delay, p, k);
                },
                ActionView::DropIf(m) => {
                    let m1 = P::looked(m, p.msg).0;
                    lemma_partition::<P>(
                        plan.updated(i, ActionView::DropIf(m1)),
                        i + 1,
                        delay,
                        p,
                        k,
                    );
                },
                ActionView::DropWithProbability(threshold) => {
                    let pos = rng::chacha_word(plan.seed, plan.pos).1;
                    lemma_partition::<P>(PlanView { pos, ..plan }, i + 1, delay, p, k);
                },
                ActionView::DelayIf { pred, delay: d } => {
                    let (m1, hit) = P::looked(pred, p.msg);
                    let next = plan.updated(i, ActionView::DelayIf { pred: m1, delay: d });
                    lemma_partition::<P>(
                        next,
                        i + 1,
                        if hit {
                            model::later(delay, d)
                        } else {
                            delay
                        },
                        p,
                        k,
                    );
                },
                ActionView::DelayJitter { max } => {
                    let (d, pos) = rng::chacha_range(plan.seed, plan.pos, max);
                    lemma_partition::<P>(
                        PlanView { pos, ..plan },
                        i + 1,
                        model::later(delay, d),
                        p,
                        k,
                    );
                },
            }
        }
    }
}

/// Nothing passes between two partitioned peers while virtual time is in the
/// window, in either direction, whatever other rules there are.
pub proof fn law_partition_drops<P: SendPredicate>(
    plan: PlanView<P::Model>,
    a: PeerId,
    b: PeerId,
    from: Nanos,
    until: Nanos,
    p: Passage,
)
    requires
        (p.src == a && p.dst == b) || (p.src == b && p.dst == a),
        from <= p.now < until,
    ensures
        ({
            let cut = ActionView::Partition { from, until };
            judged::<P>(plan.with(a, b, cut).with(b, a, cut), 0, 0, p).1 is Drop
        }),
{
    let n = plan.rules.len() as int;
    let cut = ActionView::Partition { from, until };
    let with = plan.with(a, b, cut).with(b, a, cut);
    if p.src == a && p.dst == b {
        assert(with.rules[n] == RuleView { src: a, dst: b, action: cut });
        lemma_partition::<P>(with, 0, 0, p, n);
    } else {
        assert(with.rules[n + 1] == RuleView { src: b, dst: a, action: cut });
        lemma_partition::<P>(with, 0, 0, p, n + 1);
    }
}

proof fn lemma_rule_is_judged_last<P: SendPredicate>(
    plan: PlanView<P::Model>,
    last: RuleView<P::Model>,
    i: int,
    delay: Nanos,
    p: Passage,
)
    requires
        0 <= i <= plan.rules.len(),
    ensures
        ({
            let (before, verdict) = judged::<P>(plan, i, delay, p);
            let all = PlanView { rules: plan.rules.push(last), ..plan };
            &&& before.rules.len() == plan.rules.len()
            &&& before.seed == plan.seed
            &&& judged::<P>(all, i, delay, p) == match verdict {
                Classification::Drop(_) => (
                    PlanView { rules: before.rules.push(last), ..before },
                    verdict,
                ),
                Classification::Deliver { delay: x } => judged::<P>(
                    PlanView { rules: before.rules.push(last), ..before },
                    plan.rules.len() as int,
                    x,
                    p,
                ),
            }
        }),
    decreases plan.rules.len() - i,
{
    let all = PlanView { rules: plan.rules.push(last), ..plan };
    if i < plan.rules.len() {
        let rule = plan.rules[i];
        assert(all.rules[i] == rule);
        if rule.src != p.src || rule.dst != p.dst {
            lemma_rule_is_judged_last::<P>(plan, last, i + 1, delay, p);
        } else {
            match rule.action {
                ActionView::Partition { from, until } => {
                    lemma_rule_is_judged_last::<P>(plan, last, i + 1, delay, p);
                },
                ActionView::DropIf(m) => {
                    let m1 = P::looked(m, p.msg).0;
                    let next = plan.updated(i, ActionView::DropIf(m1));
                    assert(all.updated(i, ActionView::DropIf(m1)).rules =~= next.rules.push(last));
                    lemma_rule_is_judged_last::<P>(next, last, i + 1, delay, p);
                },
                ActionView::DropWithProbability(threshold) => {
                    let pos = rng::chacha_word(plan.seed, plan.pos).1;
                    lemma_rule_is_judged_last::<P>(PlanView { pos, ..plan }, last, i + 1, delay, p);
                },
                ActionView::DelayIf { pred, delay: d } => {
                    let (m1, hit) = P::looked(pred, p.msg);
                    let action = ActionView::DelayIf { pred: m1, delay: d };
                    let next = plan.updated(i, action);
                    assert(all.updated(i, action).rules =~= next.rules.push(last));
                    let sum = if hit {
                        model::later(delay, d)
                    } else {
                        delay
                    };
                    lemma_rule_is_judged_last::<P>(next, last, i + 1, sum, p);
                },
                ActionView::DelayJitter { max } => {
                    let (d, pos) = rng::chacha_range(plan.seed, plan.pos, max);
                    lemma_rule_is_judged_last::<P>(
                        PlanView { pos, ..plan },
                        last,
                        i + 1,
                        model::later(delay, d),
                        p,
                    );
                },
            }
        }
    }
}

/// What the last rule makes of a message, which no other rule follows.
proof fn lemma_last_rule<P: SendPredicate>(plan: PlanView<P::Model>, x: Nanos, p: Passage)
    requires
        plan.rules.len() > 0,
    ensures
        ({
            let last = plan.rules.last();
            let n = plan.rules.len() - 1;
            let (after, verdict) = judged::<P>(plan, n, x, p);
            if last.src != p.src || last.dst != p.dst {
                after == plan && verdict == (Classification::Deliver { delay: x })
            } else {
                match last.action {
                    ActionView::Partition { from, until } => after == plan && verdict == (if from <= p.now
                        < until {
                        Classification::Drop(DropReason::Partition)
                    } else {
                        Classification::Deliver { delay: x }
                    }),
                    ActionView::DropIf(m) => {
                        &&& after == plan.updated(n, ActionView::DropIf(P::looked(m, p.msg).0))
                        &&& verdict == (if P::looked(m, p.msg).1 {
                            Classification::Drop(DropReason::Rule)
                        } else {
                            Classification::Deliver { delay: x }
                        })
                    },
                    ActionView::DropWithProbability(threshold) => {
                        let (word, pos) = rng::chacha_word(plan.seed, plan.pos);
                        &&& after == PlanView { pos, ..plan }
                        &&& verdict == (if word / 2048 < threshold {
                            Classification::Drop(DropReason::Random)
                        } else {
                            Classification::Deliver { delay: x }
                        })
                    },
                    ActionView::DelayIf { pred, delay: d } => verdict == (Classification::Deliver {
                        delay: if P::looked(pred, p.msg).1 {
                            model::later(x, d)
                        } else {
                            x
                        },
                    }),
                    ActionView::DelayJitter { max } => {
                        let (d, pos) = rng::chacha_range(plan.seed, plan.pos, max);
                        &&& after == PlanView { pos, ..plan }
                        &&& verdict == (Classification::Deliver { delay: model::later(x, d) })
                    },
                }
            }
        }),
{
    reveal_with_fuel(judged, 3);
}

/// A message that a plan drops is dropped for the same reason when a rule is
/// added: the first rule that drops decides.
pub proof fn law_first_drop_decides<P: SendPredicate>(
    plan: PlanView<P::Model>,
    src: PeerId,
    dst: PeerId,
    action: ActionView<P::Model>,
    p: Passage,
)
    requires
        judged::<P>(plan, 0, 0, p).1 is Drop,
    ensures
        judged::<P>(plan.with(src, dst, action), 0, 0, p).1 == judged::<P>(plan, 0, 0, p).1,
{
    lemma_rule_is_judged_last::<P>(plan, RuleView { src, dst, action }, 0, 0, p);
}

/// A rule on another link, in the other direction too, changes nothing for a
/// message.
pub proof fn law_rules_are_per_link<P: SendPredicate>(
    plan: PlanView<P::Model>,
    src: PeerId,
    dst: PeerId,
    action: ActionView<P::Model>,
    p: Passage,
)
    requires
        src != p.src || dst != p.dst,
    ensures
        judged::<P>(plan.with(src, dst, action), 0, 0, p).1 == judged::<P>(plan, 0, 0, p).1,
{
    let last = RuleView { src, dst, action };
    lemma_rule_is_judged_last::<P>(plan, last, 0, 0, p);
    let (before, verdict) = judged::<P>(plan, 0, 0, p);
    if let Classification::Deliver { delay } = verdict {
        lemma_last_rule::<P>(PlanView { rules: before.rules.push(last), ..before }, delay, p);
    }
}

/// Delays add up: a plan that delivers a message after `x` delivers it after
/// `x + d`, or the longest time there is, once a delay of `d` that matches the
/// message is added; one that does not match adds nothing.
pub proof fn law_delays_add_up<P: SendPredicate>(
    plan: PlanView<P::Model>,
    pred: P::Model,
    d: Nanos,
    p: Passage,
    x: Nanos,
)
    requires
        judged::<P>(plan, 0, 0, p).1 == (Classification::Deliver { delay: x }),
    ensures
        ({
            let more = plan.with(p.src, p.dst, ActionView::DelayIf { pred, delay: d });
            judged::<P>(more, 0, 0, p).1 matches Classification::Deliver { delay } && {
                &&& P::looked(pred, p.msg).1 && x + d <= u64::MAX ==> delay == x + d
                &&& P::looked(pred, p.msg).1 && x + d > u64::MAX ==> delay == u64::MAX
                &&& !P::looked(pred, p.msg).1 ==> delay == x
            }
        }),
{
    let action = ActionView::DelayIf { pred, delay: d };
    let last = RuleView { src: p.src, dst: p.dst, action };
    lemma_rule_is_judged_last::<P>(plan, last, 0, 0, p);
    let before = judged::<P>(plan, 0, 0, p).0;
    let all = PlanView { rules: before.rules.push(last), ..before };
    lemma_last_rule::<P>(all, x, p);
}

/// Jitter adds the number drawn for the message to its delay.
pub proof fn law_jitter_adds_its_draw<P: SendPredicate>(
    plan: PlanView<P::Model>,
    max: Nanos,
    p: Passage,
    x: Nanos,
)
    requires
        judged::<P>(plan, 0, 0, p).1 == (Classification::Deliver { delay: x }),
    ensures
        ({
            let more = plan.with(p.src, p.dst, ActionView::DelayJitter { max });
            let before = judged::<P>(plan, 0, 0, p).0;
            let (d, pos) = rng::chacha_range(plan.seed, before.pos, max);
            &&& judged::<P>(more, 0, 0, p).0.pos == pos
            &&& judged::<P>(more, 0, 0, p).1 matches Classification::Deliver { delay } && delay == (
            if x + d <= u64::MAX {
                x + d
            } else {
                u64::MAX as int
            })
        }),
{
    let last = RuleView { src: p.src, dst: p.dst, action: ActionView::DelayJitter { max } };
    lemma_rule_is_judged_last::<P>(plan, last, 0, 0, p);
    let before = judged::<P>(plan, 0, 0, p).0;
    let all = PlanView { rules: before.rules.push(last), ..before };
    lemma_last_rule::<P>(all, x, p);
}

/// A scripted drop takes the messages that its predicate matches and leaves
/// the others; either way the predicate has looked at the message.
pub proof fn law_scripted_drop_follows_predicate<P: SendPredicate>(
    plan: PlanView<P::Model>,
    pred: P::Model,
    p: Passage,
    x: Nanos,
)
    requires
        judged::<P>(plan, 0, 0, p).1 == (Classification::Deliver { delay: x }),
    ensures
        ({
            let more = plan.with(p.src, p.dst, ActionView::DropIf(pred));
            let (after, verdict) = judged::<P>(more, 0, 0, p);
            let (seen, hit) = P::looked(pred, p.msg);
            &&& hit ==> verdict == Classification::Drop(DropReason::Rule)
            &&& !hit ==> verdict == (Classification::Deliver { delay: x })
            &&& after.rules.len() == plan.rules.len() + 1
            &&& after.rules.last().action == ActionView::DropIf(seen)
        }),
{
    let last = RuleView { src: p.src, dst: p.dst, action: ActionView::DropIf(pred) };
    lemma_rule_is_judged_last::<P>(plan, last, 0, 0, p);
    let before = judged::<P>(plan, 0, 0, p).0;
    let all = PlanView { rules: before.rules.push(last), ..before };
    lemma_last_rule::<P>(all, x, p);
}

/// A message is lost to chance exactly if the 53 bits drawn for it fall below
/// the number given: never for 0, always for [`CERTAIN`].
pub proof fn law_chance_drops_below_threshold<P: SendPredicate>(
    plan: PlanView<P::Model>,
    threshold: u64,
    p: Passage,
    x: Nanos,
)
    requires
        judged::<P>(plan, 0, 0, p).1 == (Classification::Deliver { delay: x }),
    ensures
        ({
            let more = plan.with(p.src, p.dst, ActionView::DropWithProbability(threshold));
            let (after, verdict) = judged::<P>(more, 0, 0, p);
            let (word, pos) = rng::chacha_word(plan.seed, judged::<P>(plan, 0, 0, p).0.pos);
            &&& verdict == Classification::Drop(DropReason::Random) <==> (word as int) < threshold * 2048
            &&& verdict != Classification::Drop(DropReason::Random) ==> verdict == (
            Classification::Deliver { delay: x })
            &&& threshold == 0 ==> verdict == (Classification::Deliver { delay: x })
            &&& threshold >= 0x20_0000_0000_0000 ==> verdict == Classification::Drop(DropReason::Random)
            &&& after.pos == pos
        }),
{
    let last = RuleView {
        src: p.src,
        dst: p.dst,
        action: ActionView::DropWithProbability(threshold),
    };
    lemma_rule_is_judged_last::<P>(plan, last, 0, 0, p);
    let before = judged::<P>(plan, 0, 0, p).0;
    let all = PlanView { rules: before.rules.push(last), ..before };
    lemma_last_rule::<P>(all, x, p);
}

/// A partition lets through what is sent before it or from its end on, with
/// the delay that it has otherwise.
pub proof fn law_partition_has_an_end<P: SendPredicate>(
    plan: PlanView<P::Model>,
    a: PeerId,
    b: PeerId,
    from: Nanos,
    until: Nanos,
    p: Passage,
)
    requires
        p.now < from || until <= p.now,
    ensures
        ({
            let cut = ActionView::Partition { from, until };
            judged::<P>(plan.with(a, b, cut).with(b, a, cut), 0, 0, p).1 == judged::<P>(
                plan,
                0,
                0,
                p,
            ).1
        }),
{
    let cut = ActionView::Partition { from, until };
    let one = plan.with(a, b, cut);
    lemma_rule_is_judged_last::<P>(plan, RuleView { src: a, dst: b, action: cut }, 0, 0, p);
    lemma_rule_is_judged_last::<P>(one, RuleView { src: b, dst: a, action: cut }, 0, 0, p);
    let (before, verdict) = judged::<P>(plan, 0, 0, p);
    if let Classification::Deliver { delay } = verdict {
        let all = PlanView {
            rules: before.rules.push(RuleView { src: a, dst: b, action: cut }),
            ..before
        };
        lemma_last_rule::<P>(all, delay, p);
        let mid = judged::<P>(one, 0, 0, p).0;
        let both = PlanView {
            rules: mid.rules.push(RuleView { src: b, dst: a, action: cut }),
            ..mid
        };
        lemma_last_rule::<P>(both, delay, p);
    }
}

/// Switchboard of the simulated engines. Owns the discrete-event state.
pub struct SimNetHub<P> {
    state: SimState<P>,
}

impl<P: SendPredicate> View for SimNetHub<P> {
    type V = SimView<P::Model>;

    closed spec fn view(&self) -> SimView<P::Model> {
        self.state@
    }
}

impl<P: SendPredicate> SimNetHub<P> {
    pub fn new(plan: FaultPlan<P>) -> (r: Self)
        ensures
            r@ == SimView::start(plan@),
    {
        SimNetHub { state: SimState::new(plan) }
    }

    /// Register `peer_id`. Sends from any other peer targeting `peer_id` are
    /// routed (via the event queue) to its inbound queue, which starts empty.
    pub fn register(&mut self, peer_id: PeerId)
        ensures
            final(self)@ == old(self)@.registered(peer_id),
    {
        self.state.register_inbox(peer_id);
    }

    /// Register `peer_id` and return its endpoint.
    pub fn endpoint(self, peer_id: PeerId) -> (r: SimNetEndpoint<P>)
        ensures
            r.model() == (peer_id, self@.registered(peer_id)),
    {
        let mut hub = self;
        hub.register(peer_id);
        SimNetEndpoint { peer_id, hub }
    }

    /// Current virtual time since simulation start.
    pub fn virtual_now(&self) -> (r: Nanos)
        ensures
            r == self@.now,
    {
        self.state.now()
    }

    /// Submit an outbound message of `src`.
    pub fn send_from(&mut self, src: PeerId, msg: NetSend) -> (r: Result<(), NetError>)
        ensures
            (final(self)@, r) == state::submitted::<P>(old(self)@, src, msg@),
    {
        self.state.submit_send(src, msg)
    }

    /// Process one pending entry (delivery or wakeup), advancing
    /// virtual time to it. Returns `None` when the queue is empty.
    pub fn pump(&mut self) -> (r: Option<PumpStep>)
        ensures
            (final(self)@, r) == old(self)@.popped(),
    {
        self.state.pop_next()
    }

    /// Drain the queue completely without stepping any engine; returns
    /// the number of entries processed. Useful for transport-level
    /// tests where endpoints are driven manually.
    pub fn pump_all(&mut self) -> (r: usize)
        ensures
            r == old(self)@.queue.len(),
            final(self)@ == old(self)@.drained(),
    {
        self.state.drain()
    }

    /// Process everything due at or before `target`, then set virtual
    /// time to `target`.
    pub fn advance_to(&mut self, target: Nanos)
        ensures
            final(self)@ == old(self)@.advanced(target),
    {
        self.state.advance_to(target);
    }

    /// The next event that waits for a peer.
    pub fn next_event(&mut self, peer_id: PeerId) -> (r: Option<NetEvent>)
        ensures
            match r {
                Some(e) => old(self)@.taken(peer_id) == (final(self)@, Some(e@)),
                None => old(self)@.taken(peer_id) == (final(self)@, None::<NetEventView>),
            },
    {
        self.state.next_event(peer_id)
    }

    /// Snapshot of the recorded trace.
    pub fn trace(&self) -> (r: Vec<TraceEntry>)
        ensures
            r@ == self@.trace,
    {
        self.state.trace()
    }

    /// Records that the engine of `peer` is stepped.
    pub fn record_engine_step(&mut self, peer: PeerId)
        ensures
            final(self)@ == old(self)@.stepped(peer),
    {
        self.state.record_engine_step(peer);
    }

    /// Register a clock wakeup after the given virtual time.
    pub fn sleep(&mut self, d: Nanos) -> (r: Sleep)
        ensures
            final(self)@ == old(self)@.sleeping(model::later(old(self)@.now, d)),
            r@ == old(self)@.woken.len(),
    {
        let at: Nanos = self.state.now().saturating_add(d);
        self.state.schedule_wakeup(at)
    }

    /// Whether a wakeup has fired.
    pub fn is_done(&self, sleep: &Sleep) -> (r: bool)
        ensures
            r == (sleep@ < self@.woken.len() && self@.woken[sleep@ as int]),
    {
        self.state.is_done(sleep)
    }
}

/// Per-engine view of a [`SimNetHub`]: it speaks for one peer at a time.
pub struct SimNetEndpoint<P> {
    peer_id: PeerId,
    hub: SimNetHub<P>,
}

impl<P: SendPredicate> SimNetEndpoint<P> {
    /// An endpoint on a hub that speaks for `peer_id`.
    pub fn new(peer_id: PeerId, hub: SimNetHub<P>) -> (r: Self)
        ensures
            r.model() == (peer_id, hub@),
    {
        SimNetEndpoint { peer_id, hub }
    }

    /// The peer ID this endpoint speaks for.
    pub fn peer_id(&self) -> (r: PeerId)
        ensures
            r == self.model().0,
    {
        self.peer_id
    }

    /// Speaks for another peer from now on.
    pub fn switch_to(&mut self, peer_id: PeerId)
        ensures
            final(self).model() == (peer_id, old(self).model().1),
    {
        self.peer_id = peer_id;
    }

    /// The hub behind this endpoint.
    pub fn hub(&self) -> (r: &SimNetHub<P>)
        ensures
            r@ == self.model().1,
    {
        &self.hub
    }

    /// The hub behind this endpoint.
    pub fn hub_mut(&mut self) -> (r: &mut SimNetHub<P>)
        ensures
            (*r)@ == old(self).model().1,
            final(self).model() == (old(self).model().0, (*final(r))@),
    {
        &mut self.hub
    }
}

impl<P: SendPredicate> Net for SimNetEndpoint<P> {
    type Model = (PeerId, SimView<P::Model>);

    closed spec fn model(&self) -> (PeerId, SimView<P::Model>) {
        (self.peer_id, self.hub@)
    }

    open spec fn sent(m: (PeerId, SimView<P::Model>), msg: NetSendView) -> (
        (PeerId, SimView<P::Model>),
        Result<(), NetError>,
    ) {
        let (hub, r) = state::submitted::<P>(m.1, m.0, msg);
        ((m.0, hub), r)
    }

    fn send(&mut self, msg: NetSend) -> (r: Result<(), NetError>) {
        self.hub.send_from(self.peer_id, msg)
    }
}

} // verus!
