//! The scheduled distribution engine.
//!
//! A distribution plan vests a reward currency linearly over a bounded
//! round range: `amount_per_round` (already scaled by the rate
//! denomination) becomes due for every elapsed round between its start
//! and its end. Plans are realized lazily: before any settlement the pool
//! feeds every plan's newly vested amount — the rounds elapsed since the
//! plan was last realized, never the whole range again — into the reward
//! rate accumulator. A plan whose end round has passed folds its final
//! remainder into the accumulator and is dropped.

use vstd::prelude::*;

use crate::constants::REWARD_RATE_DENOMINATION;
use crate::errors::StakingError;
use crate::reward_rate::RewardRateModule;

verus! {

/// A linearly vesting allocation of one reward currency.
#[derive(Clone, Copy, PartialEq, Eq, Structural, Debug)]
pub struct DistributionPlan {
    /// The reward currency being vested.
    pub token_id: u64,
    /// First round of the vesting range.
    pub start_round: u64,
    /// Last round of the vesting range; vesting ends here.
    pub end_round: u64,
    /// Amount vested per elapsed round, scaled by the rate denomination.
    pub amount_per_round: u128,
    /// Rounds up to and including this one are already realized; starts at
    /// the plan's start round.
    pub realized_round: u64,
}

impl DistributionPlan {
    /// The identity of a plan: the four parameters it was created from.
    pub open spec fn matches(self, token_id: u64, start_round: u64, end_round: u64, amount_per_round: u128) -> bool {
        self.token_id == token_id && self.start_round == start_round && self.end_round
            == end_round && self.amount_per_round == amount_per_round
    }

    /// A plan vests forward over a non-empty range and its whole vested
    /// amount fits a machine integer.
    pub open spec fn wf(self) -> bool {
        &&& self.start_round < self.end_round
        &&& self.start_round <= self.realized_round <= self.end_round
        &&& self.amount_per_round * (self.end_round - self.start_round) <= u128::MAX
    }

    /// Whether the plan's whole range has elapsed at this round.
    pub open spec fn expired(self, round: u64) -> bool {
        round > self.end_round
    }

    /// The scaled amount newly vested at `round`: one `amount_per_round`
    /// for every round after the last realized one, capped at the end of
    /// the range. Zero before the start and zero when realized twice in
    /// the same round.
    pub open spec fn due_amount(self, round: u64) -> int {
        let upto: int = if round <= self.end_round {
            round as int
        } else {
            self.end_round as int
        };
        if upto > self.realized_round {
            self.amount_per_round * (upto - self.realized_round)
        } else {
            0
        }
    }

    /// The plan after realizing at `round`: its cursor moves forward to
    /// the realized round, never past the end of the range and never
    /// backward.
    pub open spec fn advanced(self, round: u64) -> DistributionPlan {
        let upto: u64 = if round <= self.end_round {
            round
        } else {
            self.end_round
        };
        if upto > self.realized_round {
            DistributionPlan { realized_round: upto, ..self }
        } else {
            self
        }
    }
}

/// What one plan adds to its currency's accumulator rate when realized at
/// `round` against an aggregated score: nothing with nothing staked, its
/// due amount spread over the score otherwise.
pub open spec fn plan_increment(plan: DistributionPlan, round: u64, aggregated: u128) -> int {
    if aggregated == 0 {
        0
    } else {
        plan.due_amount(round) / (aggregated as int)
    }
}

/// What a list of plans adds to one currency's accumulator rate when all
/// are realized at `round`, in order.
pub open spec fn increments_sum(
    plans: Seq<DistributionPlan>,
    token_id: u64,
    round: u64,
    aggregated: u128,
) -> int
    decreases plans.len(),
{
    if plans.len() == 0 {
        0
    } else {
        (if plans[0].token_id == token_id {
            plan_increment(plans[0], round, aggregated)
        } else {
            0
        }) + increments_sum(plans.drop_first(), token_id, round, aggregated)
    }
}

/// The plans that survive a realization at `round`, each with its cursor
/// advanced: expired plans are dropped, the order of the rest is kept.
pub open spec fn realize_plans_seq(plans: Seq<DistributionPlan>, round: u64) -> Seq<
    DistributionPlan,
>
    decreases plans.len(),
{
    if plans.len() == 0 {
        Seq::empty()
    } else {
        let rest = realize_plans_seq(plans.drop_first(), round);
        if plans[0].expired(round) {
            rest
        } else {
            seq![plans[0].advanced(round)] + rest
        }
    }
}

/// Whether any plan is still inside its range at `round`.
pub open spec fn any_active(plans: Seq<DistributionPlan>, round: u64) -> bool {
    exists|i: int| 0 <= i < plans.len() && !(#[trigger] plans[i]).expired(round)
}

/// No two plans share all four identifying parameters.
pub open spec fn distinct_plans(plans: Seq<DistributionPlan>) -> bool {
    forall|i: int, j: int|
        #![trigger plans[i], plans[j]]
        0 <= i < j < plans.len() ==> !plans[i].matches(
            plans[j].token_id,
            plans[j].start_round,
            plans[j].end_round,
            plans[j].amount_per_round,
        )
}

/// The scheduled distribution engine's state: the active plans and the
/// round of the last realization.
pub struct PlannedDistributionModule {
    pub distribution_plans: Vec<DistributionPlan>,
    pub last_distribution_round: u64,
}

impl PlannedDistributionModule {
    /// Every plan is well-formed and no two plans share their parameters.
    pub open spec fn wf(self) -> bool {
        &&& forall|i: int|
            0 <= i < self.distribution_plans@.len() ==> (
            #[trigger] self.distribution_plans@[i]).wf()
        &&& distinct_plans(self.distribution_plans@)
    }

    /// An engine with no plans.
    pub fn new() -> (r: PlannedDistributionModule)
        ensures
            r.wf(),
            r.distribution_plans@ == Seq::<DistributionPlan>::empty(),
            r.last_distribution_round == 0,
    {
        let m = PlannedDistributionModule {
            distribution_plans: Vec::new(),
            last_distribution_round: 0,
        };
        proof {
            assert(m.distribution_plans@ =~= Seq::<DistributionPlan>::empty());
        }
        m
    }
}

/// A plan's contribution is never negative.
pub proof fn lemma_increment_nonneg(plan: DistributionPlan, round: u64, aggregated: u128)
    requires
        plan.wf(),
    ensures
        plan_increment(plan, round, aggregated) >= 0,
{
    if aggregated != 0 {
        assert(plan.due_amount(round) >= 0) by {
            let upto: int = if round <= plan.end_round {
                round as int
            } else {
                plan.end_round as int
            };
            if upto > plan.realized_round {
                assert(plan.amount_per_round * (upto - plan.realized_round) >= 0) by (nonlinear_arith)
                    requires
                        plan.amount_per_round >= 0,
                        upto - plan.realized_round > 0,
                ;
            }
        }
        vstd::arithmetic::div_mod::lemma_div_is_ordered(0, plan.due_amount(round), aggregated as int);
    }
}

/// A plan's due amount never exceeds its whole vested range, which fits a
/// machine integer.
pub proof fn lemma_due_le_range(plan: DistributionPlan, round: u64)
    requires
        plan.wf(),
    ensures
        0 <= plan.due_amount(round) <= plan.amount_per_round * (plan.end_round
            - plan.start_round),
{
    let upto: int = if round <= plan.end_round {
        round as int
    } else {
        plan.end_round as int
    };
    if upto > plan.realized_round {
        assert(upto - plan.realized_round <= plan.end_round - plan.start_round);
        assert(plan.amount_per_round * (upto - plan.realized_round) <= plan.amount_per_round * (
        plan.end_round - plan.start_round) && plan.amount_per_round * (upto - plan.realized_round)
            >= 0) by (nonlinear_arith)
            requires
                plan.amount_per_round >= 0,
                0 < upto - plan.realized_round <= plan.end_round - plan.start_round,
        ;
    } else {
        assert(plan.amount_per_round * (plan.end_round - plan.start_round) >= 0) by (nonlinear_arith)
            requires
                plan.amount_per_round >= 0,
                plan.end_round - plan.start_round > 0,
        ;
    }
}

/// Summed contributions are never negative.
pub proof fn lemma_increments_nonneg(
    plans: Seq<DistributionPlan>,
    token_id: u64,
    round: u64,
    aggregated: u128,
)
    requires
        forall|i: int| 0 <= i < plans.len() ==> (#[trigger] plans[i]).wf(),
    ensures
        increments_sum(plans, token_id, round, aggregated) >= 0,
    decreases plans.len(),
{
    if plans.len() > 0 {
        lemma_increment_nonneg(plans[0], round, aggregated);
        assert(forall|i: int|
            0 <= i < plans.drop_first().len() ==> (#[trigger] plans.drop_first()[i]).wf());
        lemma_increments_nonneg(plans.drop_first(), token_id, round, aggregated);
    }
}

/// Contributions split around any index.
proof fn lemma_increments_split(
    plans: Seq<DistributionPlan>,
    i: int,
    token_id: u64,
    round: u64,
    aggregated: u128,
)
    requires
        0 <= i <= plans.len(),
    ensures
        increments_sum(plans, token_id, round, aggregated) == increments_sum(
            plans.subrange(0, i),
            token_id,
            round,
            aggregated,
        ) + increments_sum(plans.subrange(i, plans.len() as int), token_id, round, aggregated),
    decreases i,
{
    if i == 0 {
        assert(plans.subrange(0, 0) =~= Seq::<DistributionPlan>::empty());
        assert(plans.subrange(0, plans.len() as int) =~= plans);
    } else {
        let tail = plans.drop_first();
        lemma_increments_split(tail, i - 1, token_id, round, aggregated);
        assert(tail.subrange(0, i - 1) =~= plans.subrange(0, i).drop_first());
        assert(tail.subrange(i - 1, tail.len() as int) =~= plans.subrange(
            i,
            plans.len() as int,
        ));
        assert(plans.subrange(0, i)[0] == plans[0]);
        assert(increments_sum(plans.subrange(0, i), token_id, round, aggregated) == (if plans[0].token_id
            == token_id {
            plan_increment(plans[0], round, aggregated)
        } else {
            0
        }) + increments_sum(plans.subrange(0, i).drop_first(), token_id, round, aggregated));
    }
}

/// Appending one plan appends its contribution.
proof fn lemma_increments_push(
    plans: Seq<DistributionPlan>,
    p: DistributionPlan,
    token_id: u64,
    round: u64,
    aggregated: u128,
)
    ensures
        increments_sum(plans.push(p), token_id, round, aggregated) == increments_sum(
            plans,
            token_id,
            round,
            aggregated,
        ) + (if p.token_id == token_id {
            plan_increment(p, round, aggregated)
        } else {
            0
        }),
    decreases plans.len(),
{
    if plans.len() == 0 {
        assert(plans.push(p)[0] == p);
        assert(plans.push(p).drop_first() =~= Seq::<DistributionPlan>::empty());
        assert(increments_sum(plans.push(p).drop_first(), token_id, round, aggregated) == 0);
    } else {
        assert(plans.push(p)[0] == plans[0]);
        assert(plans.push(p).drop_first() =~= plans.drop_first().push(p));
        lemma_increments_push(plans.drop_first(), p, token_id, round, aggregated);
        assert(increments_sum(plans.push(p), token_id, round, aggregated) == (if plans[0].token_id
            == token_id {
            plan_increment(plans[0], round, aggregated)
        } else {
            0
        }) + increments_sum(plans.drop_first().push(p), token_id, round, aggregated));
    }
}

/// Appending one plan to the input of a realization appends its survivor,
/// if it survives.
proof fn lemma_realize_push(plans: Seq<DistributionPlan>, p: DistributionPlan, round: u64)
    ensures
        realize_plans_seq(plans.push(p), round) == if p.expired(round) {
            realize_plans_seq(plans, round)
        } else {
            realize_plans_seq(plans, round).push(p.advanced(round))
        },
    decreases plans.len(),
{
    if plans.len() == 0 {
        assert(plans.push(p)[0] == p);
        assert(plans.push(p).drop_first() =~= Seq::<DistributionPlan>::empty());
        assert(realize_plans_seq(plans.push(p).drop_first(), round) =~= Seq::<
            DistributionPlan,
        >::empty());
        if !p.expired(round) {
            assert(seq![p.advanced(round)] + Seq::<DistributionPlan>::empty() =~= realize_plans_seq(
                plans,
                round,
            ).push(p.advanced(round)));
        }
    } else {
        assert(plans.push(p)[0] == plans[0]);
        assert(plans.push(p).drop_first() =~= plans.drop_first().push(p));
        lemma_realize_push(plans.drop_first(), p, round);
        if !plans[0].expired(round) && !p.expired(round) {
            assert(seq![plans[0].advanced(round)] + realize_plans_seq(
                plans.drop_first(),
                round,
            ).push(p.advanced(round)) =~= (seq![plans[0].advanced(round)] + realize_plans_seq(
                plans.drop_first(),
                round,
            )).push(p.advanced(round)));
        }
    }
}


/// Dropping the first plan keeps the rest distinct.
proof fn lemma_distinct_plans_drop_first(s: Seq<DistributionPlan>)
    requires
        distinct_plans(s),
        s.len() > 0,
    ensures
        distinct_plans(s.drop_first()),
{
    let tail = s.drop_first();
    assert forall|p: int, q: int|
        #![trigger tail[p], tail[q]]
        0 <= p < q < tail.len() implies !tail[p].matches(
        tail[q].token_id,
        tail[q].start_round,
        tail[q].end_round,
        tail[q].amount_per_round,
    ) by {
        assert(tail[p] == s[p + 1]);
        assert(tail[q] == s[q + 1]);
    }
}

/// A realization keeps every surviving plan well-formed, keeps the plans
/// distinct, and invents no plan: each survivor carries the parameters of
/// one of the plans realized.
proof fn lemma_realize_props(s: Seq<DistributionPlan>, round: u64)
    requires
        forall|i: int| 0 <= i < s.len() ==> (#[trigger] s[i]).wf(),
        distinct_plans(s),
    ensures
        forall|k: int|
            0 <= k < realize_plans_seq(s, round).len() ==> (#[trigger] realize_plans_seq(
                s,
                round,
            )[k]).wf(),
        distinct_plans(realize_plans_seq(s, round)),
        forall|k: int|
            0 <= k < realize_plans_seq(s, round).len() ==> exists|j: int|
                0 <= j < s.len() && (#[trigger] realize_plans_seq(s, round)[k]).matches(
                    s[j].token_id,
                    s[j].start_round,
                    s[j].end_round,
                    s[j].amount_per_round,
                ),
    decreases s.len(),
{
    if s.len() > 0 {
        let tail = s.drop_first();
        lemma_distinct_plans_drop_first(s);
        lemma_realize_props(tail, round);
        let rest = realize_plans_seq(tail, round);
        let r = realize_plans_seq(s, round);
        if s[0].expired(round) {
            assert(r == rest);
            assert forall|k: int| 0 <= k < r.len() implies exists|j: int|
                0 <= j < s.len() && (#[trigger] r[k]).matches(
                    s[j].token_id,
                    s[j].start_round,
                    s[j].end_round,
                    s[j].amount_per_round,
                ) by {
                let j = choose|j: int|
                    0 <= j < tail.len() && (#[trigger] rest[k]).matches(
                        tail[j].token_id,
                        tail[j].start_round,
                        tail[j].end_round,
                        tail[j].amount_per_round,
                    );
                assert(tail[j] == s[j + 1]);
                assert(r[k].matches(
                    s[j + 1].token_id,
                    s[j + 1].start_round,
                    s[j + 1].end_round,
                    s[j + 1].amount_per_round,
                ));
            }
        } else {
            let head = s[0].advanced(round);
            assert(r == seq![head] + rest);
            assert(r[0] == head);
            assert(head.wf() && head.matches(
                s[0].token_id,
                s[0].start_round,
                s[0].end_round,
                s[0].amount_per_round,
            ));
            assert forall|k: int| 0 <= k < r.len() implies exists|j: int|
                0 <= j < s.len() && (#[trigger] r[k]).matches(
                    s[j].token_id,
                    s[j].start_round,
                    s[j].end_round,
                    s[j].amount_per_round,
                ) by {
                if k == 0 {
                    assert(r[0].matches(
                        s[0].token_id,
                        s[0].start_round,
                        s[0].end_round,
                        s[0].amount_per_round,
                    ));
                } else {
                    assert(r[k] == rest[k - 1]);
                    let j = choose|j: int|
                        0 <= j < tail.len() && (#[trigger] rest[k - 1]).matches(
                            tail[j].token_id,
                            tail[j].start_round,
                            tail[j].end_round,
                            tail[j].amount_per_round,
                        );
                    assert(tail[j] == s[j + 1]);
                    assert(r[k].matches(
                        s[j + 1].token_id,
                        s[j + 1].start_round,
                        s[j + 1].end_round,
                        s[j + 1].amount_per_round,
                    ));
                }
            }
            assert forall|k: int| 0 <= k < r.len() implies (#[trigger] r[k]).wf() by {
                if k > 0 {
                    assert(r[k] == rest[k - 1]);
                }
            }
            assert forall|p: int, q: int|
                #![trigger r[p], r[q]]
                0 <= p < q < r.len() implies !r[p].matches(
                r[q].token_id,
                r[q].start_round,
                r[q].end_round,
                r[q].amount_per_round,
            ) by {
                if p == 0 {
                    assert(r[q] == rest[q - 1]);
                    let j = choose|j: int|
                        0 <= j < tail.len() && (#[trigger] rest[q - 1]).matches(
                            tail[j].token_id,
                            tail[j].start_round,
                            tail[j].end_round,
                            tail[j].amount_per_round,
                        );
                    assert(tail[j] == s[j + 1]);
                    assert(!s[0].matches(
                        s[j + 1].token_id,
                        s[j + 1].start_round,
                        s[j + 1].end_round,
                        s[j + 1].amount_per_round,
                    ));
                } else {
                    assert(r[p] == rest[p - 1]);
                    assert(r[q] == rest[q - 1]);
                }
            }
        }
    }
}

/// The scaled amount a plan has newly vested at `round`.
fn amount_to_realize(plan: &DistributionPlan, round: u64) -> (r: u128)
    requires
        plan.wf(),
    ensures
        r as int == plan.due_amount(round),
{
    let upto: u64 = if round <= plan.end_round {
        round
    } else {
        plan.end_round
    };
    if upto > plan.realized_round {
        let rounds: u64 = upto - plan.realized_round;
        proof {
            assert(plan.amount_per_round * (rounds as int) <= plan.amount_per_round * ((
            plan.end_round - plan.start_round) as int) && plan.amount_per_round * (rounds as int)
                >= 0) by (nonlinear_arith)
                requires
                    plan.amount_per_round >= 0,
                    0 < rounds as int <= plan.end_round - plan.start_round,
            ;
        }
        plan.amount_per_round * (rounds as u128)
    } else {
        0
    }
}

impl PlannedDistributionModule {
    /// Realize every plan at the current round: feed each plan's newly
    /// vested amount into the reward rate accumulator, advance its cursor,
    /// drop plans whose range has elapsed after folding in their final
    /// remainder, and record the round of this realization if any plan is
    /// still in range. Realizing twice in the same round adds nothing the
    /// second time.
    pub fn distribute_as_planned(&mut self, rewards: &mut RewardRateModule, current_round: u64)
        requires
            old(self).wf(),
            old(rewards).wf(),
            forall|i: int|
                0 <= i < old(self).distribution_plans@.len() ==> old(rewards).is_reward_token(
                    (#[trigger] old(self).distribution_plans@[i]).token_id,
                ),
            forall|t: u64|
                #[trigger] old(rewards).rate(t) + increments_sum(
                    old(self).distribution_plans@,
                    t,
                    current_round,
                    old(rewards).aggregated_staked_score,
                ) <= u128::MAX,
        ensures
            final(self).wf(),
            final(rewards).wf(),
            final(self).distribution_plans@ == realize_plans_seq(
                old(self).distribution_plans@,
                current_round,
            ),
            final(self).last_distribution_round == if any_active(
                old(self).distribution_plans@,
                current_round,
            ) {
                current_round as int
            } else {
                old(self).last_distribution_round as int
            },
            forall|t: u64|
                #[trigger] final(rewards).rate(t) == old(rewards).rate(t) + increments_sum(
                    old(self).distribution_plans@,
                    t,
                    current_round,
                    old(rewards).aggregated_staked_score,
                ),
            forall|t: u64|
                #[trigger] final(rewards).is_reward_token(t) == old(rewards).is_reward_token(t),
            final(rewards).current_reward_rate.records@.len() == old(
                rewards,
            ).current_reward_rate.records@.len(),
            forall|i: int|
                0 <= i < old(rewards).current_reward_rate.records@.len()
                    ==> (#[trigger] final(rewards).current_reward_rate.records@[i]).k1 == old(
                    rewards,
                ).current_reward_rate.records@[i].k1,
            final(rewards).user_staked_score == old(rewards).user_staked_score,
            final(rewards).aggregated_staked_score == old(rewards).aggregated_staked_score,
            final(rewards).user_reward_rate == old(rewards).user_reward_rate,
            final(rewards).user_stored_rewards == old(rewards).user_stored_rewards,
            forall|i: int|
                0 <= i < final(self).distribution_plans@.len() ==> final(rewards).is_reward_token(
                    (#[trigger] final(self).distribution_plans@[i]).token_id,
                ),
    {
        let ghost plans0 = self.distribution_plans@;
        let ghost agg0 = rewards.aggregated_staked_score;
        let n = self.distribution_plans.len();
        let mut result: Vec<DistributionPlan> = Vec::new();
        let mut saw_active = false;
        let mut i: usize = 0;
        proof {
            assert(plans0.subrange(0, 0) =~= Seq::<DistributionPlan>::empty());
            assert(result@ =~= Seq::<DistributionPlan>::empty());
        }
        while i < n
            invariant
                n == plans0.len(),
                self.distribution_plans@ == plans0,
                i <= n,
                forall|j: int| 0 <= j < n ==> (#[trigger] plans0[j]).wf(),
                distinct_plans(plans0),
                forall|j: int|
                    0 <= j < n ==> old(rewards).is_reward_token((#[trigger] plans0[j]).token_id),
                forall|t: u64|
                    #[trigger] old(rewards).rate(t) + increments_sum(
                        plans0,
                        t,
                        current_round,
                        agg0,
                    ) <= u128::MAX,
                rewards.wf(),
                agg0 == old(rewards).aggregated_staked_score,
                rewards.aggregated_staked_score == agg0,
                rewards.user_staked_score == old(rewards).user_staked_score,
                rewards.user_reward_rate == old(rewards).user_reward_rate,
                rewards.user_stored_rewards == old(rewards).user_stored_rewards,
                forall|t: u64|
                    #[trigger] rewards.is_reward_token(t) == old(rewards).is_reward_token(t),
                rewards.current_reward_rate.records@.len() == old(
                    rewards,
                ).current_reward_rate.records@.len(),
                forall|k: int|
                    0 <= k < old(rewards).current_reward_rate.records@.len() ==> (
                    #[trigger] rewards.current_reward_rate.records@[k]).k1 == old(
                        rewards,
                    ).current_reward_rate.records@[k].k1,
                forall|t: u64|
                    #[trigger] rewards.rate(t) == old(rewards).rate(t) + increments_sum(
                        plans0.subrange(0, i as int),
                        t,
                        current_round,
                        agg0,
                    ),
                result@ == realize_plans_seq(plans0.subrange(0, i as int), current_round),
                saw_active == any_active(plans0.subrange(0, i as int), current_round),
            decreases n - i,
        {
            let plan = self.distribution_plans[i];
            let amount = amount_to_realize(&plan, current_round);
            let ghost prefix = plans0.subrange(0, i as int);
            proof {
                assert(prefix.push(plan) =~= plans0.subrange(0, i as int + 1));
                assert forall|t: u64| #[trigger] increments_sum(
                    plans0.subrange(0, i as int + 1),
                    t,
                    current_round,
                    agg0,
                ) == increments_sum(prefix, t, current_round, agg0) + (if plan.token_id == t {
                    plan_increment(plan, current_round, agg0)
                } else {
                    0
                }) by {
                    lemma_increments_push(prefix, plan, t, current_round, agg0);
                }
                if agg0 != 0 {
                    lemma_increments_split(
                        plans0,
                        i as int + 1,
                        plan.token_id,
                        current_round,
                        agg0,
                    );
                    assert(forall|j: int|
                        0 <= j < plans0.subrange(i as int + 1, n as int).len() ==> (
                        #[trigger] plans0.subrange(i as int + 1, n as int)[j]).wf());
                    lemma_increments_nonneg(
                        plans0.subrange(i as int + 1, n as int),
                        plan.token_id,
                        current_round,
                        agg0,
                    );
                    lemma_increment_nonneg(plan, current_round, agg0);
                    lemma_increments_nonneg(prefix, plan.token_id, current_round, agg0);
                    assert(rewards.rate(plan.token_id) + amount / agg0 <= u128::MAX);
                }
            }
            rewards.handle_increase_reward_rate_raw(plan.token_id, amount);
            proof {
                assert forall|t: u64| #[trigger] rewards.rate(t) == old(rewards).rate(t)
                    + increments_sum(
                    plans0.subrange(0, i as int + 1),
                    t,
                    current_round,
                    agg0,
                ) by {
                    if t != plan.token_id {
                        assert(rewards.rate(t) == old(rewards).rate(t) + increments_sum(
                            prefix,
                            t,
                            current_round,
                            agg0,
                        ));
                    }
                }
            }
            if current_round <= plan.end_round {
                let upto: u64 = if current_round <= plan.end_round {
                    current_round
                } else {
                    plan.end_round
                };
                let advanced_plan = if upto > plan.realized_round {
                    DistributionPlan { realized_round: upto, ..plan }
                } else {
                    plan
                };
                proof {
                    assert(advanced_plan == plan.advanced(current_round));
                    lemma_realize_push(prefix, plan, current_round);
                    assert(!plan.expired(current_round));
                    assert(any_active(plans0.subrange(0, i as int + 1), current_round)) by {
                        assert(!(plans0.subrange(0, i as int + 1)[i as int]).expired(
                            current_round,
                        ));
                    }
                }
                result.push(advanced_plan);
                saw_active = true;
            } else {
                proof {
                    lemma_realize_push(prefix, plan, current_round);
                    assert(plan.expired(current_round));
                    assert(any_active(plans0.subrange(0, i as int + 1), current_round)
                        == any_active(prefix, current_round)) by {
                        if any_active(plans0.subrange(0, i as int + 1), current_round) {
                            let j = choose|j: int|
                                0 <= j < i + 1 && !(#[trigger] plans0.subrange(
                                    0,
                                    i as int + 1,
                                )[j]).expired(current_round);
                            if j < i {
                                assert(!(prefix[j]).expired(current_round));
                            }
                        } else {
                            if any_active(prefix, current_round) {
                                let j = choose|j: int|
                                    0 <= j < i && !(#[trigger] prefix[j]).expired(current_round);
                                assert(!(plans0.subrange(0, i as int + 1)[j]).expired(
                                    current_round,
                                ));
                            }
                        }
                    }
                }
            }
            i += 1;
        }
        proof {
            assert(plans0.subrange(0, n as int) =~= plans0);
        }
        self.distribution_plans = result;
        if saw_active {
            self.last_distribution_round = current_round;
        }
        proof {
            lemma_realize_props(plans0, current_round);
        }
    }
}


/// Whether a plan with exactly these parameters is stored.
pub open spec fn has_plan(
    plans: Seq<DistributionPlan>,
    token_id: u64,
    start_round: u64,
    end_round: u64,
    amount_per_round: u128,
) -> bool {
    exists|j: int|
        0 <= j < plans.len() && (#[trigger] plans[j]).matches(
            token_id,
            start_round,
            end_round,
            amount_per_round,
        )
}

/// The per-round vesting amount of a plan over this range: the total,
/// scaled by the rate denomination, spread evenly over the rounds.
pub fn get_amount_per_round(start_round: u64, end_round: u64, total_distribution_amount: u128) -> (r:
    u128)
    requires
        start_round < end_round,
        total_distribution_amount * REWARD_RATE_DENOMINATION <= u128::MAX,
    ensures
        r == total_distribution_amount * REWARD_RATE_DENOMINATION / ((end_round - start_round)
            as int),
{
    let scaled = total_distribution_amount * REWARD_RATE_DENOMINATION;
    scaled / ((end_round - start_round) as u128)
}

/// The amount a plan would newly vest at this round, or nothing when the
/// plan's whole range has elapsed.
pub fn get_amount_to_distribute(plan: &DistributionPlan, current_round: u64) -> (r: Option<u128>)
    requires
        plan.wf(),
    ensures
        r == if plan.expired(current_round) {
            None::<u128>
        } else {
            Some(plan.due_amount(current_round) as u128)
        },
{
    if current_round > plan.end_round {
        None
    } else {
        Some(amount_to_realize(plan, current_round))
    }
}

impl PlannedDistributionModule {
    /// Index of the plan with exactly these parameters, if one is stored.
    fn find_plan(&self, token_id: u64, start_round: u64, end_round: u64, amount_per_round: u128) -> (r:
        Option<usize>)
        ensures
            match r {
                Some(i) => i < self.distribution_plans@.len()
                    && self.distribution_plans@[i as int].matches(
                    token_id,
                    start_round,
                    end_round,
                    amount_per_round,
                ),
                None => !has_plan(
                    self.distribution_plans@,
                    token_id,
                    start_round,
                    end_round,
                    amount_per_round,
                ),
            },
    {
        let n = self.distribution_plans.len();
        let mut i: usize = 0;
        while i < n
            invariant
                n == self.distribution_plans@.len(),
                i <= n,
                forall|j: int|
                    0 <= j < i ==> !(#[trigger] self.distribution_plans@[j]).matches(
                        token_id,
                        start_round,
                        end_round,
                        amount_per_round,
                    ),
            decreases n - i,
        {
            let plan = self.distribution_plans[i];
            if plan.token_id == token_id && plan.start_round == start_round && plan.end_round
                == end_round && plan.amount_per_round == amount_per_round {
                return Some(i);
            }
            i += 1;
        }
        None
    }

    /// Store a plan vesting the total amount linearly over the round
    /// range, registering its currency as a reward currency. A range that
    /// does not end after it starts is refused. Storing a plan whose four
    /// parameters already exist is a no-op: plans form a set.
    pub fn create_plan(
        &mut self,
        rewards: &mut RewardRateModule,
        token_id: u64,
        start_round: u64,
        end_round: u64,
        total_distribution_amount: u128,
    ) -> (r: Result<(), StakingError>)
        requires
            old(self).wf(),
            old(rewards).wf(),
            total_distribution_amount * REWARD_RATE_DENOMINATION <= u128::MAX,
        ensures
            final(self).wf(),
            final(rewards).wf(),
            r is Err <==> end_round <= start_round,
            r is Err ==> *final(self) == *old(self) && *final(rewards) == *old(rewards) && r
                == Result::<(), StakingError>::Err(StakingError::InvalidPlanRange),
            r is Ok ==> {
                let amount_per_round = (total_distribution_amount * REWARD_RATE_DENOMINATION / ((
                end_round - start_round) as int)) as u128;
                &&& final(rewards).is_reward_token(token_id)
                &&& forall|t: u64|
                    t != token_id ==> #[trigger] final(rewards).is_reward_token(t) == old(
                        rewards,
                    ).is_reward_token(t)
                &&& forall|t: u64| #[trigger] final(rewards).rate(t) == old(rewards).rate(t)
                &&& final(rewards).user_staked_score == old(rewards).user_staked_score
                &&& final(rewards).aggregated_staked_score == old(rewards).aggregated_staked_score
                &&& final(rewards).user_reward_rate == old(rewards).user_reward_rate
                &&& final(rewards).user_stored_rewards == old(rewards).user_stored_rewards
                &&& final(self).last_distribution_round == old(self).last_distribution_round
                &&& final(self).distribution_plans@ == if has_plan(
                    old(self).distribution_plans@,
                    token_id,
                    start_round,
                    end_round,
                    amount_per_round,
                ) {
                    old(self).distribution_plans@
                } else {
                    old(self).distribution_plans@.push(
                        (DistributionPlan {
                            token_id,
                            start_round,
                            end_round,
                            amount_per_round,
                            realized_round: start_round,
                        }),
                    )
                }
            },
    {
        if end_round <= start_round {
            return Err(StakingError::InvalidPlanRange);
        }
        rewards.register_reward_token(token_id);
        let amount_per_round = get_amount_per_round(start_round, end_round, total_distribution_amount);
        proof {
            vstd::arithmetic::div_mod::lemma_fundamental_div_mod(
                (total_distribution_amount * REWARD_RATE_DENOMINATION) as int,
                (end_round - start_round) as int,
            );
            vstd::arithmetic::div_mod::lemma_mod_bound(
                (total_distribution_amount * REWARD_RATE_DENOMINATION) as int,
                (end_round - start_round) as int,
            );
            vstd::arithmetic::mul::lemma_mul_is_commutative(
                (end_round - start_round) as int,
                amount_per_round as int,
            );
        }
        let plan = DistributionPlan {
            token_id,
            start_round,
            end_round,
            amount_per_round,
            realized_round: start_round,
        };
        match self.find_plan(token_id, start_round, end_round, amount_per_round) {
            Some(_) => Ok(()),
            None => {
                proof {
                    assert(plan.wf());
                }
                self.distribution_plans.push(plan);
                proof {
                    let s = old(self).distribution_plans@;
                    assert forall|p: int, q: int|
                        #![trigger self.distribution_plans@[p], self.distribution_plans@[q]]
                        0 <= p < q < self.distribution_plans@.len() implies !self.distribution_plans@[p].matches(
                        self.distribution_plans@[q].token_id,
                        self.distribution_plans@[q].start_round,
                        self.distribution_plans@[q].end_round,
                        self.distribution_plans@[q].amount_per_round,
                    ) by {
                        if q < s.len() {
                            assert(self.distribution_plans@[p] == s[p]);
                            assert(self.distribution_plans@[q] == s[q]);
                        } else {
                            assert(self.distribution_plans@[p] == s[p]);
                            assert(self.distribution_plans@[q] == plan);
                        }
                    }
                }
                Ok(())
            },
        }
    }

    /// Remove the plan with exactly these parameters, after folding any
    /// amount it has vested but not yet realized into the accumulator.
    /// Parameters matching no stored plan are refused.
    pub fn remove_plan(
        &mut self,
        rewards: &mut RewardRateModule,
        token_id: u64,
        start_round: u64,
        end_round: u64,
        amount_per_round: u128,
        current_round: u64,
    ) -> (r: Result<(), StakingError>)
        requires
            old(self).wf(),
            old(rewards).wf(),
            forall|i: int|
                0 <= i < old(self).distribution_plans@.len() ==> old(rewards).is_reward_token(
                    (#[trigger] old(self).distribution_plans@[i]).token_id,
                ),
            forall|i: int|
                0 <= i < old(self).distribution_plans@.len() ==> old(rewards).rate(
                    (#[trigger] old(self).distribution_plans@[i]).token_id,
                ) + plan_increment(
                    old(self).distribution_plans@[i],
                    current_round,
                    old(rewards).aggregated_staked_score,
                ) <= u128::MAX,
        ensures
            final(self).wf(),
            final(rewards).wf(),
            r is Err <==> !has_plan(
                old(self).distribution_plans@,
                token_id,
                start_round,
                end_round,
                amount_per_round,
            ),
            r is Err ==> *final(self) == *old(self) && *final(rewards) == *old(rewards) && r
                == Result::<(), StakingError>::Err(StakingError::PlanNotFound),
            r is Ok ==> exists|i: int|
                0 <= i < old(self).distribution_plans@.len() && (#[trigger] old(
                    self,
                ).distribution_plans@[i]).matches(token_id, start_round, end_round, amount_per_round)
                    && final(self).distribution_plans@ == old(self).distribution_plans@.remove(i)
                    && final(rewards).rate(token_id) == old(rewards).rate(token_id)
                    + plan_increment(
                    old(self).distribution_plans@[i],
                    current_round,
                    old(rewards).aggregated_staked_score,
                ),
            r is Ok ==> forall|t: u64|
                t != token_id ==> #[trigger] final(rewards).rate(t) == old(rewards).rate(t),
            forall|t: u64|
                #[trigger] final(rewards).is_reward_token(t) == old(rewards).is_reward_token(t),
            final(rewards).user_staked_score == old(rewards).user_staked_score,
            final(rewards).aggregated_staked_score == old(rewards).aggregated_staked_score,
            final(rewards).user_reward_rate == old(rewards).user_reward_rate,
            final(rewards).user_stored_rewards == old(rewards).user_stored_rewards,
            final(self).last_distribution_round == old(self).last_distribution_round,
            forall|i: int|
                0 <= i < final(self).distribution_plans@.len() ==> final(rewards).is_reward_token(
                    (#[trigger] final(self).distribution_plans@[i]).token_id,
                ),
    {
        match self.find_plan(token_id, start_round, end_round, amount_per_round) {
            None => Err(StakingError::PlanNotFound),
            Some(i) => {
                let plan = self.distribution_plans[i];
                let amount = amount_to_realize(&plan, current_round);
                rewards.handle_increase_reward_rate_raw(plan.token_id, amount);
                proof {
                    if rewards.aggregated_staked_score == 0 {
                        assert(plan_increment(plan, current_round, old(rewards).aggregated_staked_score) == 0);
                    }
                }
                self.distribution_plans.remove(i);
                proof {
                    let s = old(self).distribution_plans@;
                    let u = s.remove(i as int);
                    s.remove_ensures(i as int);
                    assert forall|p: int, q: int|
                        #![trigger u[p], u[q]]
                        0 <= p < q < u.len() implies !u[p].matches(
                        u[q].token_id,
                        u[q].start_round,
                        u[q].end_round,
                        u[q].amount_per_round,
                    ) by {
                        let p0: int = if p < i { p } else { p + 1 };
                        let q0: int = if q < i { q } else { q + 1 };
                        assert(u[p] == s[p0]);
                        assert(u[q] == s[q0]);
                    }
                    assert forall|k: int| 0 <= k < u.len() implies ((#[trigger] u[k]).wf()
                        && final(rewards).is_reward_token(u[k].token_id)) by {
                        let k0: int = if k < i { k } else { k + 1 };
                        assert(u[k] == s[k0]);
                    }
                }
                Ok(())
            },
        }
    }
}

} // verus!
