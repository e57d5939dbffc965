//! The orchestration of every state-changing participant operation.
//!
//! Every deposit, withdrawal or claim first realizes all pending
//! scheduled distributions, then settles the calling participant's
//! unrealized reward against the accumulator, and only then touches the
//! stake ledger. Each operation is atomic: a refused precondition leaves
//! the ledger exactly as it was.

use vstd::prelude::*;

use crate::constants::REWARD_RATE_DENOMINATION;
use crate::errors::StakingError;
use crate::planned_distribution::increments_sum;
use crate::planned_distribution::any_active;
use crate::planned_distribution::realize_plans_seq;
use crate::reward_rate::settled_upto;
use crate::storage::NftStaking;
use crate::storage::PendingUnstake;
use crate::table::lemma_find_at_index;
use crate::table::lemma_find_none_iff_no_match;
use crate::table::key_matches;
use crate::table::Record;
use crate::table::Table;
use crate::Payment;

verus! {

/// The total quantity a list of payments carries for one asset instance.
pub open spec fn amounts_for(payments: Seq<Payment>, token_id: u64, nonce: u64) -> int
    decreases payments.len(),
{
    if payments.len() == 0 {
        0
    } else {
        (if payments[0].token_id == token_id && payments[0].token_nonce == nonce {
            payments[0].amount as int
        } else {
            0
        }) + amounts_for(payments.drop_first(), token_id, nonce)
    }
}

/// Quantities carried are never negative.
proof fn lemma_amounts_nonneg(payments: Seq<Payment>, token_id: u64, nonce: u64)
    ensures
        amounts_for(payments, token_id, nonce) >= 0,
    decreases payments.len(),
{
    if payments.len() > 0 {
        lemma_amounts_nonneg(payments.drop_first(), token_id, nonce);
    }
}

/// Quantities carried split around any index.
proof fn lemma_amounts_split(payments: Seq<Payment>, i: int, token_id: u64, nonce: u64)
    requires
        0 <= i <= payments.len(),
    ensures
        amounts_for(payments, token_id, nonce) == amounts_for(
            payments.subrange(0, i),
            token_id,
            nonce,
        ) + amounts_for(payments.subrange(i, payments.len() as int), token_id, nonce),
    decreases i,
{
    if i == 0 {
        assert(payments.subrange(0, 0) =~= Seq::<Payment>::empty());
        assert(payments.subrange(0, payments.len() as int) =~= payments);
    } else {
        let tail = payments.drop_first();
        lemma_amounts_split(tail, i - 1, token_id, nonce);
        assert(tail.subrange(0, i - 1) =~= payments.subrange(0, i).drop_first());
        assert(tail.subrange(i - 1, tail.len() as int) =~= payments.subrange(
            i,
            payments.len() as int,
        ));
        assert(payments.subrange(0, i)[0] == payments[0]);
        assert(amounts_for(payments.subrange(0, i), token_id, nonce) == (if payments[0].token_id
            == token_id && payments[0].token_nonce == nonce {
            payments[0].amount as int
        } else {
            0
        }) + amounts_for(payments.subrange(0, i).drop_first(), token_id, nonce));
    }
}

/// Appending one payment appends its quantity.
proof fn lemma_amounts_push(payments: Seq<Payment>, p: Payment, token_id: u64, nonce: u64)
    ensures
        amounts_for(payments.push(p), token_id, nonce) == amounts_for(payments, token_id, nonce)
            + (if p.token_id == token_id && p.token_nonce == nonce {
            p.amount as int
        } else {
            0
        }),
    decreases payments.len(),
{
    if payments.len() == 0 {
        assert(payments.push(p)[0] == p);
        assert(payments.push(p).drop_first() =~= Seq::<Payment>::empty());
        assert(amounts_for(payments.push(p).drop_first(), token_id, nonce) == 0);
    } else {
        assert(payments.push(p)[0] == payments[0]);
        assert(payments.push(p).drop_first() =~= payments.drop_first().push(p));
        lemma_amounts_push(payments.drop_first(), p, token_id, nonce);
    }
}

/// What a list of manual reward deposits adds to one currency's
/// accumulator rate, in order.
pub open spec fn deposit_increments(payments: Seq<Payment>, token_id: u64, aggregated: u128) -> int
    decreases payments.len(),
{
    if payments.len() == 0 {
        0
    } else {
        (if payments[0].token_id == token_id && aggregated != 0 {
            (payments[0].amount * REWARD_RATE_DENOMINATION) / (aggregated as int)
        } else {
            0
        }) + deposit_increments(payments.drop_first(), token_id, aggregated)
    }
}

/// Deposit increments are never negative.
proof fn lemma_deposit_increments_nonneg(payments: Seq<Payment>, token_id: u64, aggregated: u128)
    ensures
        deposit_increments(payments, token_id, aggregated) >= 0,
    decreases payments.len(),
{
    if payments.len() > 0 {
        lemma_deposit_increments_nonneg(payments.drop_first(), token_id, aggregated);
        if payments[0].token_id == token_id && aggregated != 0 {
            assert(payments[0].amount * REWARD_RATE_DENOMINATION >= 0) by (nonlinear_arith);
            vstd::arithmetic::div_mod::lemma_div_is_ordered(
                0,
                (payments[0].amount * REWARD_RATE_DENOMINATION) as int,
                aggregated as int,
            );
        }
    }
}

/// Deposit increments split around any index.
proof fn lemma_deposit_increments_split(
    payments: Seq<Payment>,
    i: int,
    token_id: u64,
    aggregated: u128,
)
    requires
        0 <= i <= payments.len(),
    ensures
        deposit_increments(payments, token_id, aggregated) == deposit_increments(
            payments.subrange(0, i),
            token_id,
            aggregated,
        ) + deposit_increments(
            payments.subrange(i, payments.len() as int),
            token_id,
            aggregated,
        ),
    decreases i,
{
    if i == 0 {
        assert(payments.subrange(0, 0) =~= Seq::<Payment>::empty());
        assert(payments.subrange(0, payments.len() as int) =~= payments);
    } else {
        let tail = payments.drop_first();
        lemma_deposit_increments_split(tail, i - 1, token_id, aggregated);
        assert(tail.subrange(0, i - 1) =~= payments.subrange(0, i).drop_first());
        assert(tail.subrange(i - 1, tail.len() as int) =~= payments.subrange(
            i,
            payments.len() as int,
        ));
        assert(payments.subrange(0, i)[0] == payments[0]);
        assert(deposit_increments(payments.subrange(0, i), token_id, aggregated) == (if payments[0].token_id
            == token_id && aggregated != 0 {
            (payments[0].amount * REWARD_RATE_DENOMINATION) / (aggregated as int)
        } else {
            0
        }) + deposit_increments(payments.subrange(0, i).drop_first(), token_id, aggregated));
    }
}

/// Appending one deposit appends its increment.
proof fn lemma_deposit_increments_push(
    payments: Seq<Payment>,
    p: Payment,
    token_id: u64,
    aggregated: u128,
)
    ensures
        deposit_increments(payments.push(p), token_id, aggregated) == deposit_increments(
            payments,
            token_id,
            aggregated,
        ) + (if p.token_id == token_id && aggregated != 0 {
            (p.amount * REWARD_RATE_DENOMINATION) / (aggregated as int)
        } else {
            0
        }),
    decreases payments.len(),
{
    if payments.len() == 0 {
        assert(payments.push(p)[0] == p);
        assert(payments.push(p).drop_first() =~= Seq::<Payment>::empty());
        assert(deposit_increments(payments.push(p).drop_first(), token_id, aggregated) == 0);
    } else {
        assert(payments.push(p)[0] == payments[0]);
        assert(payments.push(p).drop_first() =~= payments.drop_first().push(p));
        lemma_deposit_increments_push(payments.drop_first(), p, token_id, aggregated);
    }
}

impl NftStaking {
    /// The bound under which realizing every plan at this round stays
    /// inside machine integers.
    pub open spec fn realize_fits(self, current_round: u64) -> bool {
        forall|t: u64|
            #[trigger] self.rate(t) + increments_sum(
                self.planned_distribution.distribution_plans@,
                t,
                current_round,
                self.aggregated_score(),
            ) <= u128::MAX
    }

    /// A currency's accumulator rate once every plan is realized at this
    /// round.
    pub open spec fn rate_after_realize(self, token_id: u64, current_round: u64) -> int {
        self.rate(token_id) + increments_sum(
            self.planned_distribution.distribution_plans@,
            token_id,
            current_round,
            self.aggregated_score(),
        )
    }

    /// What a settlement at this round would owe the participant in a
    /// currency beyond the stored balance.
    pub open spec fn unstored_after_realize(self, user: u64, token_id: u64, current_round: u64) -> int {
        (self.rate_after_realize(token_id, current_round) - self.checkpoint(user, token_id))
            * self.user_score(user) / (REWARD_RATE_DENOMINATION as int)
    }

    /// The participant's whole claimable reward in a currency at this
    /// round: stored plus newly owed.
    pub open spec fn pending_after_realize(self, user: u64, token_id: u64, current_round: u64) -> int {
        self.stored(user, token_id) + self.unstored_after_realize(user, token_id, current_round)
    }

    /// The bound under which settling the participant after a realization
    /// at this round stays inside machine integers.
    pub open spec fn settle_fits_after_realize(self, user: u64, current_round: u64) -> bool {
        forall|t: u64|
            #[trigger] self.is_reward_token_spec(t) ==> (self.rate_after_realize(t, current_round)
                - self.checkpoint(user, t)) * self.user_score(user) <= u128::MAX
                && self.stored(user, t) + self.unstored_after_realize(user, t, current_round)
                <= u128::MAX
    }

    /// The machine-integer bounds a state change (realize, then settle
    /// the participant) needs.
    pub open spec fn state_change_fits(self, user: u64, current_round: u64) -> bool {
        &&& self.realize_fits(current_round)
        &&& self.settle_fits_after_realize(user, current_round)
    }

    /// Realize all plans at the current round, then settle the
    /// participant's unrealized reward in every registered currency. This
    /// runs before any operation that changes the participant's stake or
    /// pays out rewards.
    pub fn handle_state_change(&mut self, user: u64, current_round: u64)
        requires
            old(self).well_formed(),
            old(self).state_change_fits(user, current_round),
        ensures
            final(self).well_formed(),
            final(self).planned_distribution.distribution_plans@ == realize_plans_seq(
                old(self).planned_distribution.distribution_plans@,
                current_round,
            ),
            final(self).planned_distribution.last_distribution_round == (if any_active(
                old(self).planned_distribution.distribution_plans@,
                current_round,
            ) {
                current_round as int
            } else {
                old(self).planned_distribution.last_distribution_round as int
            }),
            forall|t: u64| #[trigger] final(self).rate(t) == old(self).rate_after_realize(
                t,
                current_round,
            ),
            forall|t: u64| #[trigger] final(self).is_reward_token_spec(t) == old(
                self,
            ).is_reward_token_spec(t),
            final(self).reward_rate.current_reward_rate.records@.len() == old(
                self,
            ).reward_rate.current_reward_rate.records@.len(),
            forall|i: int|
                0 <= i < old(self).reward_rate.current_reward_rate.records@.len() ==> (
                #[trigger] final(self).reward_rate.current_reward_rate.records@[i]).k1 == old(
                    self,
                ).reward_rate.current_reward_rate.records@[i].k1,
            forall|t: u64|
                #[trigger] old(self).is_reward_token_spec(t) ==> final(self).stored(user, t)
                    == old(self).pending_after_realize(user, t, current_round)
                    && final(self).checkpoint(user, t) == old(self).rate_after_realize(
                    t,
                    current_round,
                ),
            forall|t: u64|
                !#[trigger] old(self).is_reward_token_spec(t) ==> final(self).stored(user, t)
                    == old(self).stored(user, t) && final(self).checkpoint(user, t) == old(
                    self,
                ).checkpoint(user, t),
            forall|u: u64, t: u64|
                u != user ==> #[trigger] final(self).stored(u, t) == old(self).stored(u, t),
            forall|u: u64, t: u64|
                u != user ==> #[trigger] final(self).checkpoint(u, t) == old(self).checkpoint(u, t),
            forall|u: u64| #[trigger] final(self).user_score(u) == old(self).user_score(u),
            final(self).aggregated_score() == old(self).aggregated_score(),
            final(self).reward_rate.user_staked_score == old(self).reward_rate.user_staked_score,
            final(self).staking_disabled == old(self).staking_disabled,
            final(self).allowed_nft_collections == old(self).allowed_nft_collections,
            final(self).nft_collection_score == old(self).nft_collection_score,
            final(self).nft_collection_nonce_score == old(self).nft_collection_nonce_score,
            final(self).stake_quantity == old(self).stake_quantity,
            final(self).unstaking_items@ == old(self).unstaking_items@,
            final(self).unstaking_penalty == old(self).unstaking_penalty,
    {
        let ghost s0 = *self;
        proof {
            assert forall|t: u64| true implies #[trigger] self.reward_rate.rate(t)
                + increments_sum(
                self.planned_distribution.distribution_plans@,
                t,
                current_round,
                self.reward_rate.aggregated_staked_score,
            ) <= u128::MAX by {
                assert(s0.rate(t) + increments_sum(
                    s0.planned_distribution.distribution_plans@,
                    t,
                    current_round,
                    s0.aggregated_score(),
                ) <= u128::MAX);
            }
        }
        self.planned_distribution.distribute_as_planned(&mut self.reward_rate, current_round);
        let ghost s1 = *self;
        proof {
            assert forall|t: u64| true implies #[trigger] s1.rate(t) == s0.rate_after_realize(
                t,
                current_round,
            ) by {
                assert(s1.reward_rate.rate(t) == s0.reward_rate.rate(t) + increments_sum(
                    s0.planned_distribution.distribution_plans@,
                    t,
                    current_round,
                    s0.reward_rate.aggregated_staked_score,
                ));
            }
        }
        proof {
            assert(self.reward_rate.settle_all_fits(user)) by {
                assert forall|t: u64| #[trigger] self.reward_rate.is_reward_token(t) implies
                    self.reward_rate.settle_one_fits(user, t) by {
                    assert(s0.is_reward_token_spec(t));
                    assert(self.reward_rate.rate(t) == s0.rate_after_realize(t, current_round));
                    assert(self.reward_rate.checkpoint(user, t) == s0.checkpoint(user, t));
                    assert(self.reward_rate.stored(user, t) == s0.stored(user, t));
                    assert(self.reward_rate.user_score(user) == s0.user_score(user));
                }
            }
        }
        self.reward_rate.handle_store_all_pending_rewards(user);
        proof {
            assert forall|t: u64| true implies #[trigger] self.rate(t) == s0.rate_after_realize(
                t,
                current_round,
            ) by {
                assert(self.reward_rate.rate(t) == s1.reward_rate.rate(t));
            }
            assert forall|t: u64| true implies #[trigger] self.is_reward_token_spec(t)
                == s0.is_reward_token_spec(t) by {
                assert(self.reward_rate.is_reward_token(t) == s1.reward_rate.is_reward_token(t));
                assert(s1.reward_rate.is_reward_token(t) == s0.reward_rate.is_reward_token(t));
            }
            assert forall|t: u64| !#[trigger] s0.is_reward_token_spec(t) implies self.stored(
                user,
                t,
            ) == s0.stored(user, t) && self.checkpoint(user, t) == s0.checkpoint(user, t) by {
                assert(!s1.reward_rate.is_reward_token(t));
                assert(s1.reward_rate.stored(user, t) == s0.stored(user, t));
                assert(s1.reward_rate.checkpoint(user, t) == s0.checkpoint(user, t));
            }
            assert forall|t: u64| #[trigger] s0.is_reward_token_spec(t) implies self.stored(
                user,
                t,
            ) == s0.pending_after_realize(user, t, current_round) && self.checkpoint(user, t)
                == s0.rate_after_realize(t, current_round) by {
                assert(s1.reward_rate.is_reward_token(t));
                assert(s1.reward_rate.stored(user, t) == s0.stored(user, t));
                assert(s1.reward_rate.unstored(user, t) == s0.unstored_after_realize(
                    user,
                    t,
                    current_round,
                ));
            }
            assert(self.well_formed()) by {
                assert forall|i: int|
                    0 <= i < self.planned_distribution.distribution_plans@.len() implies
                    self.reward_rate.is_reward_token(
                    (#[trigger] self.planned_distribution.distribution_plans@[i]).token_id,
                ) by {
                    assert(s1.reward_rate.is_reward_token(
                        s1.planned_distribution.distribution_plans@[i].token_id,
                    ));
                }
            }
        }
    }

    /// Register each deposited currency and spread its amount over the
    /// aggregated score. Used for unscheduled distributions; deposits
    /// made while nothing is staked are absorbed without effect.
    pub fn handle_distribute_rewards(&mut self, rewards: &Vec<Payment>)
        requires
            old(self).well_formed(),
            forall|i: int|
                0 <= i < rewards@.len() ==> (#[trigger] rewards@[i]).amount
                    * REWARD_RATE_DENOMINATION <= u128::MAX,
            forall|t: u64|
                #[trigger] old(self).rate(t) + deposit_increments(
                    rewards@,
                    t,
                    old(self).aggregated_score(),
                ) <= u128::MAX,
        ensures
            final(self).well_formed(),
            forall|t: u64| #[trigger] final(self).rate(t) == old(self).rate(t)
                + deposit_increments(rewards@, t, old(self).aggregated_score()),
            forall|i: int|
                0 <= i < rewards@.len() ==> final(self).is_reward_token_spec(
                    (#[trigger] rewards@[i]).token_id,
                ),
            forall|t: u64|
                (forall|i: int| 0 <= i < rewards@.len() ==> (#[trigger] rewards@[i]).token_id != t)
                    ==> #[trigger] final(self).is_reward_token_spec(t) == old(
                    self,
                ).is_reward_token_spec(t),
            forall|u: u64, t: u64| #[trigger] final(self).stored(u, t) == old(self).stored(u, t),
            forall|u: u64, t: u64| #[trigger] final(self).checkpoint(u, t) == old(self).checkpoint(
                u,
                t,
            ),
            forall|u: u64| #[trigger] final(self).user_score(u) == old(self).user_score(u),
            final(self).aggregated_score() == old(self).aggregated_score(),
            final(self).reward_rate.user_staked_score == old(self).reward_rate.user_staked_score,
            final(self).reward_rate.user_reward_rate == old(self).reward_rate.user_reward_rate,
            final(self).reward_rate.user_stored_rewards == old(
                self,
            ).reward_rate.user_stored_rewards,
            final(self).planned_distribution == old(self).planned_distribution,
            final(self).staking_disabled == old(self).staking_disabled,
            final(self).allowed_nft_collections == old(self).allowed_nft_collections,
            final(self).nft_collection_score == old(self).nft_collection_score,
            final(self).nft_collection_nonce_score == old(self).nft_collection_nonce_score,
            final(self).stake_quantity == old(self).stake_quantity,
            final(self).unstaking_items@ == old(self).unstaking_items@,
            final(self).unstaking_penalty == old(self).unstaking_penalty,
    {
        let ghost ps = rewards@;
        let ghost agg = self.aggregated_score();
        let n = rewards.len();
        let mut i: usize = 0;
        proof {
            assert(ps.subrange(0, 0) =~= Seq::<Payment>::empty());
        }
        while i < n
            invariant
                n == ps.len(),
                rewards@ == ps,
                i <= n,
                old(self).well_formed(),
                forall|j: int|
                    0 <= j < n ==> (#[trigger] ps[j]).amount * REWARD_RATE_DENOMINATION
                        <= u128::MAX,
                forall|t: u64|
                    #[trigger] old(self).rate(t) + deposit_increments(ps, t, agg) <= u128::MAX,
                agg == old(self).aggregated_score(),
                self.reward_rate.wf(),
                self.aggregated_score() == agg,
                self.reward_rate.user_staked_score == old(self).reward_rate.user_staked_score,
                self.reward_rate.user_reward_rate == old(self).reward_rate.user_reward_rate,
                self.reward_rate.user_stored_rewards == old(self).reward_rate.user_stored_rewards,
                self.planned_distribution == old(self).planned_distribution,
                self.staking_disabled == old(self).staking_disabled,
                self.allowed_nft_collections == old(self).allowed_nft_collections,
                self.nft_collection_score == old(self).nft_collection_score,
                self.nft_collection_nonce_score == old(self).nft_collection_nonce_score,
                self.stake_quantity == old(self).stake_quantity,
                self.unstaking_items@ == old(self).unstaking_items@,
                self.unstaking_penalty == old(self).unstaking_penalty,
                forall|t: u64| #[trigger] self.rate(t) == old(self).rate(t) + deposit_increments(
                    ps.subrange(0, i as int),
                    t,
                    agg,
                ),
                forall|j: int|
                    0 <= j < i ==> self.is_reward_token_spec((#[trigger] ps[j]).token_id),
                forall|t: u64|
                    (forall|j: int| 0 <= j < i ==> (#[trigger] ps[j]).token_id != t)
                        ==> #[trigger] self.is_reward_token_spec(t) == old(
                        self,
                    ).is_reward_token_spec(t),
                forall|t: u64|
                    old(self).is_reward_token_spec(t) ==> #[trigger] self.is_reward_token_spec(t),
            decreases n - i,
        {
            let p = rewards[i];
            let ghost before = *self;
            let ghost prefix = ps.subrange(0, i as int);
            proof {
                assert(prefix.push(p) =~= ps.subrange(0, i as int + 1));
                assert forall|t: u64| #[trigger] deposit_increments(
                    ps.subrange(0, i as int + 1),
                    t,
                    agg,
                ) == deposit_increments(prefix, t, agg) + (if p.token_id == t && agg != 0 {
                    (p.amount * REWARD_RATE_DENOMINATION) / (agg as int)
                } else {
                    0
                }) by {
                    lemma_deposit_increments_push(prefix, p, t, agg);
                }
                if agg != 0 {
                    lemma_deposit_increments_split(ps, i as int + 1, p.token_id, agg);
                    lemma_deposit_increments_nonneg(
                        ps.subrange(i as int + 1, n as int),
                        p.token_id,
                        agg,
                    );
                    lemma_deposit_increments_nonneg(prefix, p.token_id, agg);
                    vstd::arithmetic::div_mod::lemma_div_is_ordered(
                        0,
                        (p.amount * REWARD_RATE_DENOMINATION) as int,
                        agg as int,
                    );
                    assert(p.amount * REWARD_RATE_DENOMINATION >= 0) by (nonlinear_arith);
                    lemma_deposit_increments_nonneg(prefix, p.token_id, agg);
                    assert(deposit_increments(ps.subrange(0, i as int + 1), p.token_id, agg)
                        <= deposit_increments(ps, p.token_id, agg));
                    assert(before.rate(p.token_id) == old(self).rate(p.token_id)
                        + deposit_increments(prefix, p.token_id, agg));
                    assert(before.rate(p.token_id) + (p.amount * REWARD_RATE_DENOMINATION) / (
                    agg as int) <= u128::MAX);
                }
                assert(ps[i as int].amount * REWARD_RATE_DENOMINATION <= u128::MAX);
                assert(p == ps[i as int]);
            }
            self.reward_rate.handle_increase_reward_rate(&p);
            proof {
                assert forall|t: u64| #[trigger] self.rate(t) == old(self).rate(t)
                    + deposit_increments(ps.subrange(0, i as int + 1), t, agg) by {
                    assert(before.rate(t) == old(self).rate(t) + deposit_increments(
                        prefix,
                        t,
                        agg,
                    ));
                    if t != p.token_id {
                        assert(self.reward_rate.rate(t) == before.reward_rate.rate(t));
                    } else {
                        if agg == 0 {
                            assert(self.reward_rate.rate(t) == before.reward_rate.rate(t));
                        } else {
                            assert(self.reward_rate.rate(t) == before.reward_rate.rate(t) + (
                            p.amount * REWARD_RATE_DENOMINATION) / (agg as int));
                        }
                    }
                }
                assert forall|t: u64|
                    old(self).is_reward_token_spec(t) implies #[trigger] self.is_reward_token_spec(
                    t,
                ) by {
                    assert(before.is_reward_token_spec(t) ==> self.is_reward_token_spec(t));
                }
                assert forall|t: u64|
                    (forall|j: int| 0 <= j < i + 1 ==> (#[trigger] ps[j]).token_id != t) implies
                    #[trigger] self.is_reward_token_spec(t) == old(self).is_reward_token_spec(
                    t,
                ) by {
                    assert(ps[i as int].token_id != t);
                    assert(forall|j: int| 0 <= j < i ==> (#[trigger] ps[j]).token_id != t);
                    assert(before.is_reward_token_spec(t) == old(self).is_reward_token_spec(t));
                    assert(self.reward_rate.is_reward_token(t) == before.reward_rate.is_reward_token(
                        t,
                    ));
                }
                assert forall|j: int| 0 <= j < i + 1 implies self.is_reward_token_spec(
                    (#[trigger] ps[j]).token_id,
                ) by {
                    if j < i {
                        assert(before.is_reward_token_spec(ps[j].token_id));
                        assert(before.is_reward_token_spec(ps[j].token_id)
                            ==> self.is_reward_token_spec(ps[j].token_id));
                    } else {
                        assert(ps[j] == p);
                        assert(self.reward_rate.is_reward_token(p.token_id));
                    }
                }
            }
            i += 1;
        }
        proof {
            assert(ps.subrange(0, n as int) =~= ps);
            assert(self.well_formed()) by {
                assert forall|k: int|
                    0 <= k < self.planned_distribution.distribution_plans@.len() implies
                    self.reward_rate.is_reward_token(
                    (#[trigger] self.planned_distribution.distribution_plans@[k]).token_id,
                ) by {
                    let t = self.planned_distribution.distribution_plans@[k].token_id;
                    assert(old(self).is_reward_token_spec(t));
                    assert(self.is_reward_token_spec(t));
                }
            }
        }
    }
}


/// A payment's score is never negative.
proof fn lemma_payment_score_nonneg(s: NftStaking, p: Payment)
    ensures
        s.payment_score(p) >= 0,
{
    assert(s.resolved_score(p.token_id, p.token_nonce) * p.amount >= 0) by (nonlinear_arith)
        requires
            s.resolved_score(p.token_id, p.token_nonce) >= 0,
            p.amount >= 0,
    ;
}

/// Scores carried are never negative.
proof fn lemma_payments_score_nonneg(s: NftStaking, payments: Seq<Payment>)
    ensures
        s.payments_score(payments) >= 0,
    decreases payments.len(),
{
    if payments.len() > 0 {
        lemma_payment_score_nonneg(s, payments[0]);
        lemma_payments_score_nonneg(s, payments.drop_first());
    }
}

/// Scores carried split around any index.
proof fn lemma_payments_score_split(s: NftStaking, payments: Seq<Payment>, i: int)
    requires
        0 <= i <= payments.len(),
    ensures
        s.payments_score(payments) == s.payments_score(payments.subrange(0, i))
            + s.payments_score(payments.subrange(i, payments.len() as int)),
    decreases i,
{
    if i == 0 {
        assert(payments.subrange(0, 0) =~= Seq::<Payment>::empty());
        assert(payments.subrange(0, payments.len() as int) =~= payments);
    } else {
        let tail = payments.drop_first();
        lemma_payments_score_split(s, tail, i - 1);
        assert(tail.subrange(0, i - 1) =~= payments.subrange(0, i).drop_first());
        assert(tail.subrange(i - 1, tail.len() as int) =~= payments.subrange(
            i,
            payments.len() as int,
        ));
        assert(payments.subrange(0, i)[0] == payments[0]);
        assert(s.payments_score(payments.subrange(0, i)) == s.payment_score(payments[0])
            + s.payments_score(payments.subrange(0, i).drop_first()));
    }
}

/// Appending one payment appends its score.
proof fn lemma_payments_score_push(s: NftStaking, payments: Seq<Payment>, p: Payment)
    ensures
        s.payments_score(payments.push(p)) == s.payments_score(payments) + s.payment_score(p),
    decreases payments.len(),
{
    if payments.len() == 0 {
        assert(payments.push(p)[0] == p);
        assert(payments.push(p).drop_first() =~= Seq::<Payment>::empty());
        assert(s.payments_score(payments.push(p).drop_first()) == 0);
    } else {
        assert(payments.push(p)[0] == payments[0]);
        assert(payments.push(p).drop_first() =~= payments.drop_first().push(p));
        lemma_payments_score_push(s, payments.drop_first(), p);
    }
}

/// Two ledgers with the same score override tables weigh every payment
/// list alike.
proof fn lemma_payments_score_agree(a: NftStaking, b: NftStaking, payments: Seq<Payment>)
    requires
        a.nft_collection_score == b.nft_collection_score,
        a.nft_collection_nonce_score == b.nft_collection_nonce_score,
    ensures
        a.payments_score(payments) == b.payments_score(payments),
    decreases payments.len(),
{
    if payments.len() > 0 {
        assert(a.payment_score(payments[0]) == b.payment_score(payments[0]));
        lemma_payments_score_agree(a, b, payments.drop_first());
    }
}

impl NftStaking {
    /// The machine-integer bounds a deposit needs: the aggregated score
    /// and every touched holding still fit after growing.
    pub open spec fn deposits_fit(self, user: u64, payments: Seq<Payment>) -> bool {
        &&& self.aggregated_score() + self.payments_score(payments) <= u128::MAX
        &&& forall|t: u64, n: u64|
            self.quantity(user, t, n) + #[trigger] amounts_for(payments, t, n) <= u128::MAX
    }

    /// Deposit a batch of assets for the participant: realize and settle
    /// first, then grow each holding and raise the participant's and the
    /// aggregated score by the batch's resolved score, which is returned.
    pub fn handle_stake(&mut self, user: u64, payments: &Vec<Payment>, current_round: u64) -> (r:
        u128)
        requires
            old(self).well_formed(),
            old(self).state_change_fits(user, current_round),
            old(self).all_allowed(payments@),
            old(self).deposits_fit(user, payments@),
        ensures
            final(self).well_formed(),
            r == old(self).payments_score(payments@),
            forall|t: u64, n: u64| #[trigger] final(self).quantity(user, t, n) == old(
                self,
            ).quantity(user, t, n) + amounts_for(payments@, t, n),
            forall|u2: u64, t: u64, n: u64|
                u2 != user ==> #[trigger] final(self).quantity(u2, t, n) == old(self).quantity(
                    u2,
                    t,
                    n,
                ),
            final(self).user_score(user) == old(self).user_score(user) + old(self).payments_score(
                payments@,
            ),
            forall|u2: u64| u2 != user ==> #[trigger] final(self).user_score(u2) == old(
                self,
            ).user_score(u2),
            final(self).aggregated_score() == old(self).aggregated_score() + old(
                self,
            ).payments_score(payments@),
            forall|t: u64| #[trigger] final(self).rate(t) == old(self).rate_after_realize(
                t,
                current_round,
            ),
            forall|t: u64| #[trigger] final(self).is_reward_token_spec(t) == old(
                self,
            ).is_reward_token_spec(t),
            forall|t: u64|
                #[trigger] old(self).is_reward_token_spec(t) ==> final(self).stored(user, t)
                    == old(self).pending_after_realize(user, t, current_round)
                    && final(self).checkpoint(user, t) == old(self).rate_after_realize(
                    t,
                    current_round,
                ),
            forall|t: u64|
                !#[trigger] old(self).is_reward_token_spec(t) ==> final(self).stored(user, t)
                    == old(self).stored(user, t) && final(self).checkpoint(user, t) == old(
                    self,
                ).checkpoint(user, t),
            forall|u2: u64, t: u64|
                u2 != user ==> #[trigger] final(self).stored(u2, t) == old(self).stored(u2, t),
            forall|u2: u64, t: u64|
                u2 != user ==> #[trigger] final(self).checkpoint(u2, t) == old(self).checkpoint(
                    u2,
                    t,
                ),
            final(self).planned_distribution.distribution_plans@ == realize_plans_seq(
                old(self).planned_distribution.distribution_plans@,
                current_round,
            ),
            final(self).planned_distribution.last_distribution_round == (if any_active(
                old(self).planned_distribution.distribution_plans@,
                current_round,
            ) {
                current_round as int
            } else {
                old(self).planned_distribution.last_distribution_round as int
            }),
            final(self).staking_disabled == old(self).staking_disabled,
            final(self).allowed_nft_collections == old(self).allowed_nft_collections,
            final(self).nft_collection_score == old(self).nft_collection_score,
            final(self).nft_collection_nonce_score == old(self).nft_collection_nonce_score,
            final(self).unstaking_items@ == old(self).unstaking_items@,
            final(self).unstaking_penalty == old(self).unstaking_penalty,
    {
        self.handle_state_change(user, current_round);
        let ghost s1 = *self;
        proof {
            lemma_payments_score_agree(s1, *old(self), payments@);
            lemma_payments_score_nonneg(*old(self), payments@);
            assert(payments@.subrange(0, 0) =~= Seq::<Payment>::empty());
        }
        let ghost ps = payments@;
        let mut total: u128 = 0;
        let n = payments.len();
        let mut i: usize = 0;
        while i < n
            invariant
                n == ps.len(),
                payments@ == ps,
                i <= n,
                old(self).well_formed(),
                old(self).deposits_fit(user, ps),
                s1.well_formed(),
                s1.nft_collection_score == old(self).nft_collection_score,
                s1.nft_collection_nonce_score == old(self).nft_collection_nonce_score,
                s1.stake_quantity == old(self).stake_quantity,
                self.reward_rate == s1.reward_rate,
                self.planned_distribution == s1.planned_distribution,
                self.staking_disabled == s1.staking_disabled,
                self.allowed_nft_collections == s1.allowed_nft_collections,
                self.nft_collection_score == s1.nft_collection_score,
                self.nft_collection_nonce_score == s1.nft_collection_nonce_score,
                self.unstaking_items@ == s1.unstaking_items@,
                self.unstaking_penalty == s1.unstaking_penalty,
                self.stake_quantity.wf(),
                total == old(self).payments_score(ps.subrange(0, i as int)),
                forall|t: u64, n2: u64| #[trigger] self.quantity(user, t, n2) == old(
                    self,
                ).quantity(user, t, n2) + amounts_for(ps.subrange(0, i as int), t, n2),
                forall|u2: u64, t: u64, n2: u64|
                    u2 != user ==> #[trigger] self.quantity(u2, t, n2) == old(self).quantity(
                        u2,
                        t,
                        n2,
                    ),
            decreases n - i,
        {
            let p = payments[i];
            let ghost before = *self;
            let ghost prefix = ps.subrange(0, i as int);
            proof {
                assert(prefix.push(p) =~= ps.subrange(0, i as int + 1));
                lemma_payments_score_push(*old(self), prefix, p);
                lemma_payments_score_split(*old(self), ps, i as int + 1);
                lemma_payments_score_nonneg(*old(self), ps.subrange(i as int + 1, n as int));
                lemma_payments_score_nonneg(*old(self), prefix);
                lemma_payment_score_nonneg(*old(self), p);
                assert(self.payment_score(p) == old(self).payment_score(p));
                assert(old(self).payment_score(p) <= old(self).payments_score(ps));
                assert forall|t: u64, n2: u64| #[trigger] amounts_for(
                    ps.subrange(0, i as int + 1),
                    t,
                    n2,
                ) == amounts_for(prefix, t, n2) + (if p.token_id == t && p.token_nonce == n2 {
                    p.amount as int
                } else {
                    0
                }) by {
                    lemma_amounts_push(prefix, p, t, n2);
                }
                lemma_amounts_split(ps, i as int + 1, p.token_id, p.token_nonce);
                lemma_amounts_nonneg(ps.subrange(i as int + 1, n as int), p.token_id, p.token_nonce);
                lemma_amounts_nonneg(prefix, p.token_id, p.token_nonce);
                assert(self.quantity(user, p.token_id, p.token_nonce) + p.amount <= u128::MAX);
            }
            let score = self.get_payment_score(&p);
            total = total + score;
            self.stake_quantity.add_to(user, p.token_id, p.token_nonce, p.amount);
            proof {
                assert forall|t: u64, n2: u64| #[trigger] self.quantity(user, t, n2) == old(
                    self,
                ).quantity(user, t, n2) + amounts_for(ps.subrange(0, i as int + 1), t, n2) by {
                    assert(before.quantity(user, t, n2) == old(self).quantity(user, t, n2)
                        + amounts_for(prefix, t, n2));
                    if !(t == p.token_id && n2 == p.token_nonce) {
                        assert(self.stake_quantity.opt(user, t, n2) == before.stake_quantity.opt(
                            user,
                            t,
                            n2,
                        ));
                    } else {
                        assert(self.stake_quantity.opt(user, t, n2) == Some(
                            (before.stake_quantity.get(user, t, n2) + p.amount) as u128,
                        ));
                    }
                }
                assert forall|u2: u64, t: u64, n2: u64|
                    u2 != user implies #[trigger] self.quantity(u2, t, n2) == old(self).quantity(
                    u2,
                    t,
                    n2,
                ) by {
                    assert(before.quantity(u2, t, n2) == old(self).quantity(u2, t, n2));
                    assert(self.stake_quantity.opt(u2, t, n2) == before.stake_quantity.opt(
                        u2,
                        t,
                        n2,
                    ));
                }
            }
            i += 1;
        }
        let ghost s2 = *self;
        proof {
            assert(ps.subrange(0, n as int) =~= ps);
            assert(total == old(self).payments_score(ps));
            lemma_payments_score_nonneg(*old(self), ps);
            assert(self.reward_rate.aggregated_staked_score + total <= u128::MAX);
        }
        self.reward_rate.handle_increase_staked_score(user, total);
        proof {
            assert forall|t: u64, n2: u64| #[trigger] self.quantity(user, t, n2) == old(
                self,
            ).quantity(user, t, n2) + amounts_for(ps, t, n2) by {
                assert(s2.quantity(user, t, n2) == old(self).quantity(user, t, n2) + amounts_for(
                    ps.subrange(0, n as int),
                    t,
                    n2,
                ));
            }
            assert forall|u2: u64, t: u64, n2: u64|
                u2 != user implies #[trigger] self.quantity(u2, t, n2) == old(self).quantity(
                u2,
                t,
                n2,
            ) by {
                assert(s2.quantity(u2, t, n2) == old(self).quantity(u2, t, n2));
            }
            assert(self.well_formed()) by {
                assert forall|k: int|
                    0 <= k < self.planned_distribution.distribution_plans@.len() implies
                    self.reward_rate.is_reward_token(
                    (#[trigger] self.planned_distribution.distribution_plans@[k]).token_id,
                ) by {
                    assert(s1.reward_rate.is_reward_token(
                        s1.planned_distribution.distribution_plans@[k].token_id,
                    ));
                }
            }
            assert forall|t: u64| true implies #[trigger] self.rate(t) == old(
                self,
            ).rate_after_realize(t, current_round) by {
                assert(self.reward_rate.rate(t) == s1.reward_rate.rate(t));
                assert(s1.rate(t) == old(self).rate_after_realize(t, current_round));
            }
            assert forall|t: u64| true implies #[trigger] self.is_reward_token_spec(t) == old(
                self,
            ).is_reward_token_spec(t) by {
                assert(self.reward_rate.is_reward_token(t) == s1.reward_rate.is_reward_token(t));
                assert(s1.is_reward_token_spec(t) == old(self).is_reward_token_spec(t));
            }
            assert forall|t: u64| #[trigger] old(self).is_reward_token_spec(t) implies self.stored(
                user,
                t,
            ) == old(self).pending_after_realize(user, t, current_round) && self.checkpoint(
                user,
                t,
            ) == old(self).rate_after_realize(t, current_round) by {
                assert(self.reward_rate.stored(user, t) == s1.reward_rate.stored(user, t));
                assert(self.reward_rate.checkpoint(user, t) == s1.reward_rate.checkpoint(user, t));
                assert(s1.stored(user, t) == old(self).pending_after_realize(
                    user,
                    t,
                    current_round,
                ));
                assert(s1.checkpoint(user, t) == old(self).rate_after_realize(t, current_round));
            }
            assert forall|t: u64| !#[trigger] old(self).is_reward_token_spec(t) implies
                self.stored(user, t) == old(self).stored(user, t) && self.checkpoint(user, t)
                    == old(self).checkpoint(user, t) by {
                assert(self.reward_rate.stored(user, t) == s1.reward_rate.stored(user, t));
                assert(self.reward_rate.checkpoint(user, t) == s1.reward_rate.checkpoint(user, t));
                assert(s1.stored(user, t) == old(self).stored(user, t));
                assert(s1.checkpoint(user, t) == old(self).checkpoint(user, t));
            }
            assert forall|u2: u64, t: u64| u2 != user implies #[trigger] self.stored(u2, t) == old(
                self,
            ).stored(u2, t) by {
                assert(self.reward_rate.stored(u2, t) == s1.reward_rate.stored(u2, t));
                assert(s1.stored(u2, t) == old(self).stored(u2, t));
            }
            assert forall|u2: u64, t: u64|
                u2 != user implies #[trigger] self.checkpoint(u2, t) == old(self).checkpoint(
                u2,
                t,
            ) by {
                assert(self.reward_rate.checkpoint(u2, t) == s1.reward_rate.checkpoint(u2, t));
                assert(s1.checkpoint(u2, t) == old(self).checkpoint(u2, t));
            }
            assert forall|u2: u64| u2 != user implies #[trigger] self.user_score(u2) == old(
                self,
            ).user_score(u2) by {
                assert(s1.user_score(u2) == old(self).user_score(u2));
            }
        }
        total
    }
}


/// An element-for-element copy of a payment list.
pub fn clone_payments(payments: &Vec<Payment>) -> (r: Vec<Payment>)
    ensures
        r@ == payments@,
{
    let n = payments.len();
    let mut r: Vec<Payment> = Vec::new();
    let mut i: usize = 0;
    while i < n
        invariant
            n == payments@.len(),
            i <= n,
            r@ == payments@.subrange(0, i as int),
        decreases n - i,
    {
        r.push(payments[i]);
        proof {
            assert(payments@.subrange(0, i as int).push(payments@[i as int]) =~= payments@.subrange(
                0,
                i as int + 1,
            ));
        }
        i += 1;
    }
    proof {
        assert(payments@.subrange(0, n as int) =~= payments@);
    }
    r
}

impl NftStaking {
    /// Whether the participant's holdings cover the whole request list,
    /// duplicates accumulated.
    pub open spec fn can_withdraw(self, user: u64, requests: Seq<Payment>) -> bool {
        forall|t: u64, n: u64|
            #[trigger] amounts_for(requests, t, n) <= self.quantity(user, t, n)
    }

    /// Whether the participant's recorded score covers the request list's
    /// resolved score. Holding enough of every instance does not imply
    /// this: an override raised since the deposit weighs the withdrawal
    /// more heavily than the deposit was credited.
    pub open spec fn can_cover_score(self, user: u64, requests: Seq<Payment>) -> bool {
        self.payments_score(requests) <= self.user_score(user)
    }

    /// Check the participant's recorded score against the whole request
    /// list without touching anything.
    fn has_enough_staked_score(&self, user: u64, requests: &Vec<Payment>) -> (r: bool)
        ensures
            r == self.can_cover_score(user, requests@),
    {
        let ghost rs = requests@;
        let n = requests.len();
        let mut total: u128 = 0;
        let mut i: usize = 0;
        proof {
            assert(rs.subrange(0, 0) =~= Seq::<Payment>::empty());
        }
        while i < n
            invariant
                n == rs.len(),
                requests@ == rs,
                i <= n,
                total == self.payments_score(rs.subrange(0, i as int)),
            decreases n - i,
        {
            let p = requests[i];
            let ghost prefix = rs.subrange(0, i as int);
            let weight = self.get_nft_score(p.token_id, p.token_nonce);
            proof {
                assert(prefix.push(p) =~= rs.subrange(0, i as int + 1));
                lemma_payments_score_push(*self, prefix, p);
                lemma_payments_score_nonneg(*self, prefix);
                lemma_payment_score_nonneg(*self, p);
            }
            if weight != 0 && p.amount > u128::MAX / weight {
                proof {
                    vstd::arithmetic::div_mod::lemma_fundamental_div_mod(
                        u128::MAX as int,
                        weight as int,
                    );
                    vstd::arithmetic::div_mod::lemma_mod_bound(u128::MAX as int, weight as int);
                    assert(weight * p.amount > u128::MAX) by (nonlinear_arith)
                        requires
                            weight >= 1,
                            p.amount >= u128::MAX / weight + 1,
                            u128::MAX as int == weight * (u128::MAX / weight) + (u128::MAX as int)
                                % (weight as int),
                            (u128::MAX as int) % (weight as int) < weight,
                    ;
                    assert(self.payment_score(p) > u128::MAX);
                    lemma_payments_score_split(*self, rs, i as int + 1);
                    lemma_payments_score_nonneg(*self, rs.subrange(i as int + 1, n as int));
                    assert(self.payments_score(rs) > u128::MAX);
                    assert(!self.can_cover_score(user, rs));
                }
                return false;
            }
            proof {
                if weight != 0 {
                    vstd::arithmetic::div_mod::lemma_fundamental_div_mod(
                        u128::MAX as int,
                        weight as int,
                    );
                    vstd::arithmetic::div_mod::lemma_mod_bound(u128::MAX as int, weight as int);
                    assert(weight * p.amount <= u128::MAX) by (nonlinear_arith)
                        requires
                            weight >= 1,
                            p.amount <= u128::MAX / weight,
                            u128::MAX as int == weight * (u128::MAX / weight) + (u128::MAX as int)
                                % (weight as int),
                            (u128::MAX as int) % (weight as int) >= 0,
                    ;
                } else {
                    vstd::arithmetic::mul::lemma_mul_basics(p.amount as int);
                }
            }
            let score = weight * p.amount;
            proof {
                assert(score == self.payment_score(p));
            }
            if score > u128::MAX - total {
                proof {
                    lemma_payments_score_split(*self, rs, i as int + 1);
                    lemma_payments_score_nonneg(*self, rs.subrange(i as int + 1, n as int));
                    assert(self.payments_score(rs) > u128::MAX);
                    assert(!self.can_cover_score(user, rs));
                }
                return false;
            }
            total = total + score;
            i += 1;
        }
        proof {
            assert(rs.subrange(0, n as int) =~= rs);
        }
        total <= self.reward_rate.user_staked_score.lookup(user, 0, 0)
    }

    /// Check the participant's holdings against the whole request list
    /// without touching anything.
    fn has_enough_staked_balance(&self, user: u64, requests: &Vec<Payment>) -> (r: bool)
        requires
            self.stake_quantity.wf(),
        ensures
            r == self.can_withdraw(user, requests@),
    {
        let ghost rs = requests@;
        let mut needs = Table::new();
        let n = requests.len();
        let mut i: usize = 0;
        proof {
            assert(rs.subrange(0, 0) =~= Seq::<Payment>::empty());
        }
        while i < n
            invariant
                n == rs.len(),
                requests@ == rs,
                i <= n,
                self.stake_quantity.wf(),
                needs.wf(),
                needs.keys_shaped3(0),
                forall|t: u64, n2: u64| #[trigger] needs.get(t, n2, 0) == amounts_for(
                    rs.subrange(0, i as int),
                    t,
                    n2,
                ),
            decreases n - i,
        {
            let p = requests[i];
            let ghost prefix = rs.subrange(0, i as int);
            let ghost needs0 = needs;
            proof {
                assert(prefix.push(p) =~= rs.subrange(0, i as int + 1));
                assert forall|t: u64, n2: u64| #[trigger] amounts_for(
                    rs.subrange(0, i as int + 1),
                    t,
                    n2,
                ) == amounts_for(prefix, t, n2) + (if p.token_id == t && p.token_nonce == n2 {
                    p.amount as int
                } else {
                    0
                }) by {
                    lemma_amounts_push(prefix, p, t, n2);
                }
            }
            let cur = needs.lookup(p.token_id, p.token_nonce, 0);
            if p.amount > u128::MAX - cur {
                proof {
                    lemma_amounts_split(rs, i as int + 1, p.token_id, p.token_nonce);
                    lemma_amounts_nonneg(
                        rs.subrange(i as int + 1, n as int),
                        p.token_id,
                        p.token_nonce,
                    );
                    assert(amounts_for(rs, p.token_id, p.token_nonce) > u128::MAX);
                    assert(!self.can_withdraw(user, rs));
                }
                return false;
            }
            needs.add_to(p.token_id, p.token_nonce, 0, p.amount);
            proof {
                assert forall|t: u64, n2: u64| #[trigger] needs.get(t, n2, 0) == amounts_for(
                    rs.subrange(0, i as int + 1),
                    t,
                    n2,
                ) by {
                    assert(needs0.get(t, n2, 0) == amounts_for(prefix, t, n2));
                    if !(t == p.token_id && n2 == p.token_nonce) {
                        assert(needs.opt(t, n2, 0) == needs0.opt(t, n2, 0));
                    } else {
                        assert(needs.opt(t, n2, 0) == Some(
                            (needs0.get(t, n2, 0) + p.amount) as u128,
                        ));
                    }
                }
            }
            i += 1;
        }
        proof {
            assert(rs.subrange(0, n as int) =~= rs);
        }
        let m = needs.len();
        let mut j: usize = 0;
        while j < m
            invariant
                m == needs.records@.len(),
                j <= m,
                self.stake_quantity.wf(),
                needs.wf(),
                needs.keys_shaped3(0),
                requests@ == rs,
                forall|t: u64, n2: u64| #[trigger] needs.get(t, n2, 0) == amounts_for(rs, t, n2),
                forall|k: int|
                    0 <= k < j ==> (#[trigger] needs.records@[k]).value <= self.quantity(
                        user,
                        needs.records@[k].k1,
                        needs.records@[k].k2,
                    ),
            decreases m - j,
        {
            let rec = needs.record_at(j);
            let held = self.stake_quantity.lookup(user, rec.k1, rec.k2);
            if rec.value > held {
                proof {
                    lemma_find_at_index(needs.records@, j as int);
                    assert(rec.k3 == 0);
                    assert(needs.get(rec.k1, rec.k2, 0) == rec.value);
                    assert(amounts_for(rs, rec.k1, rec.k2) > self.quantity(user, rec.k1, rec.k2));
                }
                return false;
            }
            j += 1;
        }
        proof {
            assert forall|t: u64, n2: u64| #[trigger] amounts_for(rs, t, n2) <= self.quantity(
                user,
                t,
                n2,
            ) by {
                if needs.contains(t, n2, 0) {
                    lemma_find_none_iff_no_match(needs.records@, t, n2, 0);
                    let k = choose|k: int|
                        0 <= k < needs.records@.len() && key_matches(
                            #[trigger] needs.records@[k],
                            t,
                            n2,
                            0,
                        );
                    lemma_find_at_index(needs.records@, k);
                    assert(needs.get(t, n2, 0) == needs.records@[k].value);
                    assert(needs.records@[k].value <= self.quantity(
                        user,
                        needs.records@[k].k1,
                        needs.records@[k].k2,
                    ));
                } else {
                    assert(needs.get(t, n2, 0) == 0);
                    assert(amounts_for(rs, t, n2) == 0);
                }
            }
        }
        true
    }
}


impl NftStaking {
    /// Withdraw a batch of assets: fail atomically when any request
    /// exceeds the holding it names, or when the batch's resolved score
    /// exceeds the participant's recorded score (possible only after an
    /// override was raised since the deposit; the host aborts that
    /// withdrawal too). Otherwise realize and settle first, shrink each
    /// holding and both scores by the batch's resolved score, and push
    /// the withdrawn assets into the time-locked queue with the unlock
    /// time computed from the penalty now in effect. Returns the score
    /// removed.
    pub fn handle_unstake(
        &mut self,
        user: u64,
        requests: &Vec<Payment>,
        current_round: u64,
        current_timestamp: u64,
    ) -> (r: Result<u128, StakingError>)
        requires
            old(self).well_formed(),
            old(self).state_change_fits(user, current_round),
            current_timestamp + old(self).unstaking_penalty <= u64::MAX,
        ensures
            final(self).well_formed(),
            r is Err <==> !(old(self).can_withdraw(user, requests@) && old(self).can_cover_score(
                user,
                requests@,
            )),
            r is Err ==> *final(self) == *old(self) && r == Result::<u128, StakingError>::Err(
                StakingError::InsufficientStake,
            ),
            r is Ok ==> {
                &&& r == Result::<u128, StakingError>::Ok(
                    old(self).payments_score(requests@) as u128,
                )
                &&& forall|t: u64, n: u64| #[trigger] final(self).quantity(user, t, n) == old(
                    self,
                ).quantity(user, t, n) - amounts_for(requests@, t, n)
                &&& forall|u2: u64, t: u64, n: u64|
                    u2 != user ==> #[trigger] final(self).quantity(u2, t, n) == old(self).quantity(
                        u2,
                        t,
                        n,
                    )
                &&& final(self).user_score(user) == old(self).user_score(user) - old(
                    self,
                ).payments_score(requests@)
                &&& forall|u2: u64|
                    u2 != user ==> #[trigger] final(self).user_score(u2) == old(self).user_score(
                        u2,
                    )
                &&& final(self).aggregated_score() == old(self).aggregated_score() - old(
                    self,
                ).payments_score(requests@)
                &&& final(self).unstaking_items@.len() == old(self).unstaking_items@.len() + 1
                &&& final(self).unstaking_items@.subrange(
                    0,
                    old(self).unstaking_items@.len() as int,
                ) == old(self).unstaking_items@
                &&& final(self).unstaking_items@.last().user == user
                &&& final(self).unstaking_items@.last().unlock_timestamp == current_timestamp
                    + old(self).unstaking_penalty
                &&& final(self).unstaking_items@.last().payments@ == requests@
                &&& forall|t: u64| #[trigger] final(self).rate(t) == old(self).rate_after_realize(
                    t,
                    current_round,
                )
                &&& forall|t: u64| #[trigger] final(self).is_reward_token_spec(t) == old(
                    self,
                ).is_reward_token_spec(t)
                &&& forall|t: u64|
                    #[trigger] old(self).is_reward_token_spec(t) ==> final(self).stored(user, t)
                        == old(self).pending_after_realize(user, t, current_round)
                        && final(self).checkpoint(user, t) == old(self).rate_after_realize(
                        t,
                        current_round,
                    )
                &&& forall|t: u64|
                    !#[trigger] old(self).is_reward_token_spec(t) ==> final(self).stored(user, t)
                        == old(self).stored(user, t) && final(self).checkpoint(user, t) == old(
                        self,
                    ).checkpoint(user, t)
                &&& forall|u2: u64, t: u64|
                    u2 != user ==> #[trigger] final(self).stored(u2, t) == old(self).stored(u2, t)
                &&& forall|u2: u64, t: u64|
                    u2 != user ==> #[trigger] final(self).checkpoint(u2, t) == old(
                        self,
                    ).checkpoint(u2, t)
                &&& final(self).planned_distribution.distribution_plans@ == realize_plans_seq(
                    old(self).planned_distribution.distribution_plans@,
                    current_round,
                )
                &&& final(self).planned_distribution.last_distribution_round == (if any_active(
                    old(self).planned_distribution.distribution_plans@,
                    current_round,
                ) {
                    current_round as int
                } else {
                    old(self).planned_distribution.last_distribution_round as int
                })
                &&& final(self).staking_disabled == old(self).staking_disabled
                &&& final(self).allowed_nft_collections == old(self).allowed_nft_collections
                &&& final(self).nft_collection_score == old(self).nft_collection_score
                &&& final(self).nft_collection_nonce_score == old(self).nft_collection_nonce_score
                &&& final(self).unstaking_penalty == old(self).unstaking_penalty
            },
    {
        if !self.has_enough_staked_balance(user, requests) {
            return Err(StakingError::InsufficientStake);
        }
        if !self.has_enough_staked_score(user, requests) {
            return Err(StakingError::InsufficientStake);
        }
        self.handle_state_change(user, current_round);
        let ghost s1 = *self;
        proof {
            lemma_payments_score_agree(s1, *old(self), requests@);
            lemma_payments_score_nonneg(*old(self), requests@);
            assert(requests@.subrange(0, 0) =~= Seq::<Payment>::empty());
        }
        let ghost ps = requests@;
        let mut total: u128 = 0;
        let n = requests.len();
        let mut i: usize = 0;
        while i < n
            invariant
                n == ps.len(),
                requests@ == ps,
                i <= n,
                old(self).well_formed(),
                old(self).can_withdraw(user, ps),
                old(self).payments_score(ps) <= old(self).user_score(user),
                s1.well_formed(),
                s1.nft_collection_score == old(self).nft_collection_score,
                s1.nft_collection_nonce_score == old(self).nft_collection_nonce_score,
                s1.stake_quantity == old(self).stake_quantity,
                s1.user_score(user) == old(self).user_score(user),
                self.reward_rate == s1.reward_rate,
                self.planned_distribution == s1.planned_distribution,
                self.staking_disabled == s1.staking_disabled,
                self.allowed_nft_collections == s1.allowed_nft_collections,
                self.nft_collection_score == s1.nft_collection_score,
                self.nft_collection_nonce_score == s1.nft_collection_nonce_score,
                self.unstaking_items@ == s1.unstaking_items@,
                self.unstaking_penalty == s1.unstaking_penalty,
                self.stake_quantity.wf(),
                total == old(self).payments_score(ps.subrange(0, i as int)),
                forall|t: u64, n2: u64| #[trigger] self.quantity(user, t, n2) == old(
                    self,
                ).quantity(user, t, n2) - amounts_for(ps.subrange(0, i as int), t, n2),
                forall|u2: u64, t: u64, n2: u64|
                    u2 != user ==> #[trigger] self.quantity(u2, t, n2) == old(self).quantity(
                        u2,
                        t,
                        n2,
                    ),
            decreases n - i,
        {
            let p = requests[i];
            let ghost before = *self;
            let ghost prefix = ps.subrange(0, i as int);
            proof {
                assert(prefix.push(p) =~= ps.subrange(0, i as int + 1));
                lemma_payments_score_push(*old(self), prefix, p);
                lemma_payments_score_split(*old(self), ps, i as int + 1);
                lemma_payments_score_nonneg(*old(self), ps.subrange(i as int + 1, n as int));
                lemma_payments_score_nonneg(*old(self), prefix);
                lemma_payment_score_nonneg(*old(self), p);
                assert(self.payment_score(p) == old(self).payment_score(p));
                assert(old(self).payment_score(p) <= old(self).payments_score(ps));
                assert forall|t: u64, n2: u64| #[trigger] amounts_for(
                    ps.subrange(0, i as int + 1),
                    t,
                    n2,
                ) == amounts_for(prefix, t, n2) + (if p.token_id == t && p.token_nonce == n2 {
                    p.amount as int
                } else {
                    0
                }) by {
                    lemma_amounts_push(prefix, p, t, n2);
                }
                lemma_amounts_split(ps, i as int + 1, p.token_id, p.token_nonce);
                lemma_amounts_nonneg(ps.subrange(i as int + 1, n as int), p.token_id, p.token_nonce);
                lemma_amounts_nonneg(prefix, p.token_id, p.token_nonce);
                assert(amounts_for(ps, p.token_id, p.token_nonce) <= old(self).quantity(
                    user,
                    p.token_id,
                    p.token_nonce,
                ));
                assert(p.amount <= self.quantity(user, p.token_id, p.token_nonce));
            }
            let score = self.get_payment_score(&p);
            total = total + score;
            self.stake_quantity.sub_from(user, p.token_id, p.token_nonce, p.amount);
            proof {
                assert forall|t: u64, n2: u64| #[trigger] self.quantity(user, t, n2) == old(
                    self,
                ).quantity(user, t, n2) - amounts_for(ps.subrange(0, i as int + 1), t, n2) by {
                    assert(before.quantity(user, t, n2) == old(self).quantity(user, t, n2)
                        - amounts_for(prefix, t, n2));
                    if !(t == p.token_id && n2 == p.token_nonce) {
                        assert(self.stake_quantity.opt(user, t, n2) == before.stake_quantity.opt(
                            user,
                            t,
                            n2,
                        ));
                    } else {
                        assert(self.stake_quantity.get(user, t, n2) == before.stake_quantity.get(
                            user,
                            t,
                            n2,
                        ) - p.amount);
                    }
                }
                assert forall|u2: u64, t: u64, n2: u64|
                    u2 != user implies #[trigger] self.quantity(u2, t, n2) == old(self).quantity(
                    u2,
                    t,
                    n2,
                ) by {
                    assert(before.quantity(u2, t, n2) == old(self).quantity(u2, t, n2));
                    assert(self.stake_quantity.opt(u2, t, n2) == before.stake_quantity.opt(
                        u2,
                        t,
                        n2,
                    ));
                }
            }
            i += 1;
        }
        let ghost s2 = *self;
        proof {
            assert(ps.subrange(0, n as int) =~= ps);
            assert(total == old(self).payments_score(ps));
            assert(total <= self.reward_rate.user_score(user));
        }
        self.reward_rate.handle_decrease_staked_score(user, total);
        let unlock_timestamp = current_timestamp + self.unstaking_penalty;
        let batch = PendingUnstake { user, unlock_timestamp, payments: clone_payments(requests) };
        self.unstaking_items.push(batch);
        proof {
            assert forall|t: u64, n2: u64| #[trigger] self.quantity(user, t, n2) == old(
                self,
            ).quantity(user, t, n2) - amounts_for(ps, t, n2) by {
                assert(s2.quantity(user, t, n2) == old(self).quantity(user, t, n2) - amounts_for(
                    ps.subrange(0, n as int),
                    t,
                    n2,
                ));
            }
            assert forall|u2: u64, t: u64, n2: u64|
                u2 != user implies #[trigger] self.quantity(u2, t, n2) == old(self).quantity(
                u2,
                t,
                n2,
            ) by {
                assert(s2.quantity(u2, t, n2) == old(self).quantity(u2, t, n2));
            }
            assert(self.unstaking_items@.subrange(0, old(self).unstaking_items@.len() as int)
                =~= old(self).unstaking_items@);
            assert(self.well_formed()) by {
                assert forall|k: int|
                    0 <= k < self.planned_distribution.distribution_plans@.len() implies
                    self.reward_rate.is_reward_token(
                    (#[trigger] self.planned_distribution.distribution_plans@[k]).token_id,
                ) by {
                    assert(s1.reward_rate.is_reward_token(
                        s1.planned_distribution.distribution_plans@[k].token_id,
                    ));
                }
            }
            assert forall|t: u64| true implies #[trigger] self.rate(t) == old(
                self,
            ).rate_after_realize(t, current_round) by {
                assert(self.reward_rate.rate(t) == s1.reward_rate.rate(t));
                assert(s1.rate(t) == old(self).rate_after_realize(t, current_round));
            }
            assert forall|t: u64| true implies #[trigger] self.is_reward_token_spec(t) == old(
                self,
            ).is_reward_token_spec(t) by {
                assert(self.reward_rate.is_reward_token(t) == s1.reward_rate.is_reward_token(t));
                assert(s1.is_reward_token_spec(t) == old(self).is_reward_token_spec(t));
            }
            assert forall|t: u64| #[trigger] old(self).is_reward_token_spec(t) implies self.stored(
                user,
                t,
            ) == old(self).pending_after_realize(user, t, current_round) && self.checkpoint(
                user,
                t,
            ) == old(self).rate_after_realize(t, current_round) by {
                assert(self.reward_rate.stored(user, t) == s1.reward_rate.stored(user, t));
                assert(self.reward_rate.checkpoint(user, t) == s1.reward_rate.checkpoint(user, t));
                assert(s1.stored(user, t) == old(self).pending_after_realize(
                    user,
                    t,
                    current_round,
                ));
                assert(s1.checkpoint(user, t) == old(self).rate_after_realize(t, current_round));
            }
            assert forall|t: u64| !#[trigger] old(self).is_reward_token_spec(t) implies
                self.stored(user, t) == old(self).stored(user, t) && self.checkpoint(user, t)
                    == old(self).checkpoint(user, t) by {
                assert(self.reward_rate.stored(user, t) == s1.reward_rate.stored(user, t));
                assert(self.reward_rate.checkpoint(user, t) == s1.reward_rate.checkpoint(user, t));
                assert(s1.stored(user, t) == old(self).stored(user, t));
                assert(s1.checkpoint(user, t) == old(self).checkpoint(user, t));
            }
            assert forall|u2: u64, t: u64| u2 != user implies #[trigger] self.stored(u2, t) == old(
                self,
            ).stored(u2, t) by {
                assert(self.reward_rate.stored(u2, t) == s1.reward_rate.stored(u2, t));
                assert(s1.stored(u2, t) == old(self).stored(u2, t));
            }
            assert forall|u2: u64, t: u64|
                u2 != user implies #[trigger] self.checkpoint(u2, t) == old(self).checkpoint(
                u2,
                t,
            ) by {
                assert(self.reward_rate.checkpoint(u2, t) == s1.reward_rate.checkpoint(u2, t));
                assert(s1.checkpoint(u2, t) == old(self).checkpoint(u2, t));
            }
            assert forall|u2: u64| u2 != user implies #[trigger] self.user_score(u2) == old(
                self,
            ).user_score(u2) by {
                assert(s1.user_score(u2) == old(self).user_score(u2));
            }
        }
        Ok(total)
    }
}


/// The assets a claim at `now` releases to the participant: the payments
/// of every batch of theirs whose unlock time has passed, in queue order.
pub open spec fn released_payments(q: Seq<PendingUnstake>, user: u64, now: u64) -> Seq<Payment>
    decreases q.len(),
{
    if q.len() == 0 {
        Seq::empty()
    } else {
        (if q[0].user == user && q[0].unlock_timestamp <= now {
            q[0].payments@
        } else {
            Seq::empty()
        }) + released_payments(q.drop_first(), user, now)
    }
}

/// The batches a claim at `now` leaves in the queue, in order.
pub open spec fn kept_batches(q: Seq<PendingUnstake>, user: u64, now: u64) -> Seq<PendingUnstake>
    decreases q.len(),
{
    if q.len() == 0 {
        Seq::empty()
    } else {
        let rest = kept_batches(q.drop_first(), user, now);
        if q[0].user == user && q[0].unlock_timestamp <= now {
            rest
        } else {
            seq![q[0]] + rest
        }
    }
}

/// Whether the participant has any batch past its unlock time.
pub open spec fn any_released(q: Seq<PendingUnstake>, user: u64, now: u64) -> bool {
    exists|i: int|
        0 <= i < q.len() && (#[trigger] q[i]).user == user && q[i].unlock_timestamp <= now
}

/// Appending one batch appends its released payments, if it qualifies.
proof fn lemma_released_push(q: Seq<PendingUnstake>, b: PendingUnstake, user: u64, now: u64)
    ensures
        released_payments(q.push(b), user, now) == if b.user == user && b.unlock_timestamp
            <= now {
            released_payments(q, user, now) + b.payments@
        } else {
            released_payments(q, user, now)
        },
    decreases q.len(),
{
    if q.len() == 0 {
        assert(q.push(b)[0] == b);
        assert(q.push(b).drop_first() =~= Seq::<PendingUnstake>::empty());
        assert(released_payments(q.push(b).drop_first(), user, now) =~= Seq::<Payment>::empty());
        if b.user == user && b.unlock_timestamp <= now {
            assert(b.payments@ + Seq::<Payment>::empty() =~= released_payments(q, user, now)
                + b.payments@);
        } else {
            assert(Seq::<Payment>::empty() + Seq::<Payment>::empty() =~= released_payments(
                q,
                user,
                now,
            ));
        }
    } else {
        assert(q.push(b)[0] == q[0]);
        assert(q.push(b).drop_first() =~= q.drop_first().push(b));
        lemma_released_push(q.drop_first(), b, user, now);
        if b.user == user && b.unlock_timestamp <= now {
            if q[0].user == user && q[0].unlock_timestamp <= now {
                assert(q[0].payments@ + (released_payments(q.drop_first(), user, now)
                    + b.payments@) =~= (q[0].payments@ + released_payments(
                    q.drop_first(),
                    user,
                    now,
                )) + b.payments@);
            } else {
                assert(Seq::<Payment>::empty() + (released_payments(q.drop_first(), user, now)
                    + b.payments@) =~= (Seq::<Payment>::empty() + released_payments(
                    q.drop_first(),
                    user,
                    now,
                )) + b.payments@);
            }
        }
    }
}

/// Appending one batch appends it to the kept queue, if it stays.
proof fn lemma_kept_push(q: Seq<PendingUnstake>, b: PendingUnstake, user: u64, now: u64)
    ensures
        kept_batches(q.push(b), user, now) == if b.user == user && b.unlock_timestamp <= now {
            kept_batches(q, user, now)
        } else {
            kept_batches(q, user, now).push(b)
        },
    decreases q.len(),
{
    if q.len() == 0 {
        assert(q.push(b)[0] == b);
        assert(q.push(b).drop_first() =~= Seq::<PendingUnstake>::empty());
        assert(kept_batches(q.push(b).drop_first(), user, now) =~= Seq::<PendingUnstake>::empty());
        if !(b.user == user && b.unlock_timestamp <= now) {
            assert(seq![b] + Seq::<PendingUnstake>::empty() =~= kept_batches(q, user, now).push(
                b,
            ));
        }
    } else {
        assert(q.push(b)[0] == q[0]);
        assert(q.push(b).drop_first() =~= q.drop_first().push(b));
        lemma_kept_push(q.drop_first(), b, user, now);
        if !(b.user == user && b.unlock_timestamp <= now) && !(q[0].user == user
            && q[0].unlock_timestamp <= now) {
            assert(seq![q[0]] + kept_batches(q.drop_first(), user, now).push(b) =~= (seq![q[0]]
                + kept_batches(q.drop_first(), user, now)).push(b));
        }
    }
}

/// A queue releasing nothing is kept whole.
proof fn lemma_kept_all(q: Seq<PendingUnstake>, user: u64, now: u64)
    requires
        !any_released(q, user, now),
    ensures
        kept_batches(q, user, now) == q,
    decreases q.len(),
{
    if q.len() > 0 {
        assert(!(q[0].user == user && q[0].unlock_timestamp <= now));
        assert(!any_released(q.drop_first(), user, now)) by {
            if any_released(q.drop_first(), user, now) {
                let i = choose|i: int|
                    0 <= i < q.drop_first().len() && (#[trigger] q.drop_first()[i]).user == user
                        && q.drop_first()[i].unlock_timestamp <= now;
                assert(q[i + 1] == q.drop_first()[i]);
            }
        }
        lemma_kept_all(q.drop_first(), user, now);
        assert(seq![q[0]] + q.drop_first() =~= q);
    }
}

impl NftStaking {
    /// Release every batch of the participant's whose time lock has
    /// elapsed and hand back the assets they held; fail when no batch
    /// qualifies, so a caller can tell "too early" from "nothing there".
    pub fn handle_claim_unstaked(&mut self, user: u64, current_timestamp: u64) -> (r: Result<
        Vec<Payment>,
        StakingError,
    >)
        requires
            old(self).well_formed(),
        ensures
            final(self).well_formed(),
            r is Err <==> !any_released(old(self).unstaking_items@, user, current_timestamp),
            r is Err ==> final(self).unstaking_items@ == old(self).unstaking_items@ && r
                == Result::<Vec<Payment>, StakingError>::Err(StakingError::NothingUnlocked),
            r is Ok ==> r->Ok_0@ == released_payments(
                old(self).unstaking_items@,
                user,
                current_timestamp,
            ) && final(self).unstaking_items@ == kept_batches(
                old(self).unstaking_items@,
                user,
                current_timestamp,
            ),
            final(self).staking_disabled == old(self).staking_disabled,
            final(self).allowed_nft_collections == old(self).allowed_nft_collections,
            final(self).nft_collection_score == old(self).nft_collection_score,
            final(self).nft_collection_nonce_score == old(self).nft_collection_nonce_score,
            final(self).stake_quantity == old(self).stake_quantity,
            final(self).reward_rate == old(self).reward_rate,
            final(self).planned_distribution == old(self).planned_distribution,
            final(self).unstaking_penalty == old(self).unstaking_penalty,
    {
        let ghost q0 = self.unstaking_items@;
        let mut items: Vec<PendingUnstake> = Vec::new();
        core::mem::swap(&mut items, &mut self.unstaking_items);
        let n = items.len();
        let mut kept: Vec<PendingUnstake> = Vec::new();
        let mut released: Vec<Payment> = Vec::new();
        let mut found = false;
        let mut i: usize = 0;
        proof {
            assert(q0.subrange(0, 0) =~= Seq::<PendingUnstake>::empty());
            assert(released_payments(q0.subrange(0, 0), user, current_timestamp) =~= Seq::<
                Payment,
            >::empty());
            assert(kept_batches(q0.subrange(0, 0), user, current_timestamp) =~= Seq::<
                PendingUnstake,
            >::empty());
        }
        while i < n
            invariant
                n == q0.len(),
                i <= n,
                items@ == q0.subrange(i as int, n as int),
                released@ == released_payments(q0.subrange(0, i as int), user, current_timestamp),
                kept@ == kept_batches(q0.subrange(0, i as int), user, current_timestamp),
                found == any_released(q0.subrange(0, i as int), user, current_timestamp),
            decreases n - i,
        {
            let batch = items.remove(0);
            let ghost prefix = q0.subrange(0, i as int);
            proof {
                assert(q0.subrange(i as int, n as int)[0] == q0[i as int]);
                assert(batch == q0[i as int]);
                assert(q0.subrange(i as int, n as int).remove(0) =~= q0.subrange(
                    i as int + 1,
                    n as int,
                ));
                assert(prefix.push(batch) =~= q0.subrange(0, i as int + 1));
                lemma_released_push(prefix, batch, user, current_timestamp);
                lemma_kept_push(prefix, batch, user, current_timestamp);
                if batch.user == user && batch.unlock_timestamp <= current_timestamp {
                    assert(any_released(q0.subrange(0, i as int + 1), user, current_timestamp)) by {
                        assert((q0.subrange(0, i as int + 1))[i as int] == batch);
                    }
                } else {
                    assert(any_released(q0.subrange(0, i as int + 1), user, current_timestamp)
                        == any_released(prefix, user, current_timestamp)) by {
                        if any_released(q0.subrange(0, i as int + 1), user, current_timestamp) {
                            let j = choose|j: int|
                                0 <= j < i + 1 && (#[trigger] q0.subrange(0, i as int + 1)[j]).user
                                    == user && q0.subrange(0, i as int + 1)[j].unlock_timestamp
                                    <= current_timestamp;
                            if j < i {
                                assert(prefix[j] == q0.subrange(0, i as int + 1)[j]);
                            }
                        } else {
                            if any_released(prefix, user, current_timestamp) {
                                let j = choose|j: int|
                                    0 <= j < i && (#[trigger] prefix[j]).user == user
                                        && prefix[j].unlock_timestamp <= current_timestamp;
                                assert(q0.subrange(0, i as int + 1)[j] == prefix[j]);
                            }
                        }
                    }
                }
            }
            if batch.user == user && batch.unlock_timestamp <= current_timestamp {
                let mut payments = batch.payments;
                released.append(&mut payments);
                found = true;
            } else {
                kept.push(batch);
            }
            i += 1;
        }
        proof {
            assert(q0.subrange(0, n as int) =~= q0);
        }
        self.unstaking_items = kept;
        if !found {
            proof {
                lemma_kept_all(q0, user, current_timestamp);
            }
            return Err(StakingError::NothingUnlocked);
        }
        Ok(released)
    }
}


/// The payouts a reward claim at this round produces, walking the reward
/// register in order: one payment per currency with a positive claimable
/// balance, for exactly that balance.
pub open spec fn claims_from(s: NftStaking, regs: Seq<Record>, user: u64, round: u64) -> Seq<
    Payment,
>
    decreases regs.len(),
{
    if regs.len() == 0 {
        Seq::empty()
    } else {
        let t = regs[0].k1;
        (if s.pending_after_realize(user, t, round) > 0 {
            seq![
                (Payment {
                    token_id: t,
                    token_nonce: 0,
                    amount: s.pending_after_realize(user, t, round) as u128,
                }),
            ]
        } else {
            Seq::empty()
        }) + claims_from(s, regs.drop_first(), user, round)
    }
}

/// Appending one register record appends its payout, if any.
proof fn lemma_claims_push(s: NftStaking, regs: Seq<Record>, rec: Record, user: u64, round: u64)
    ensures
        claims_from(s, regs.push(rec), user, round) == if s.pending_after_realize(
            user,
            rec.k1,
            round,
        ) > 0 {
            claims_from(s, regs, user, round).push(
                (Payment {
                    token_id: rec.k1,
                    token_nonce: 0,
                    amount: s.pending_after_realize(user, rec.k1, round) as u128,
                }),
            )
        } else {
            claims_from(s, regs, user, round)
        },
    decreases regs.len(),
{
    if regs.len() == 0 {
        assert(regs.push(rec)[0] == rec);
        assert(regs.push(rec).drop_first() =~= Seq::<Record>::empty());
        assert(claims_from(s, regs.push(rec).drop_first(), user, round) =~= Seq::<
            Payment,
        >::empty());
        if s.pending_after_realize(user, rec.k1, round) > 0 {
            assert(seq![
                (Payment {
                    token_id: rec.k1,
                    token_nonce: 0,
                    amount: s.pending_after_realize(user, rec.k1, round) as u128,
                }),
            ] + Seq::<Payment>::empty() =~= claims_from(s, regs, user, round).push(
                (Payment {
                    token_id: rec.k1,
                    token_nonce: 0,
                    amount: s.pending_after_realize(user, rec.k1, round) as u128,
                }),
            ));
        } else {
            assert(Seq::<Payment>::empty() + Seq::<Payment>::empty() =~= claims_from(
                s,
                regs,
                user,
                round,
            ));
        }
    } else {
        assert(regs.push(rec)[0] == regs[0]);
        assert(regs.push(rec).drop_first() =~= regs.drop_first().push(rec));
        lemma_claims_push(s, regs.drop_first(), rec, user, round);
        if s.pending_after_realize(user, rec.k1, round) > 0 {
            let p = Payment {
                token_id: rec.k1,
                token_nonce: 0,
                amount: s.pending_after_realize(user, rec.k1, round) as u128,
            };
            if s.pending_after_realize(user, regs[0].k1, round) > 0 {
                let h = Payment {
                    token_id: regs[0].k1,
                    token_nonce: 0,
                    amount: s.pending_after_realize(user, regs[0].k1, round) as u128,
                };
                assert(seq![h] + claims_from(s, regs.drop_first(), user, round).push(p) =~= (
                seq![h] + claims_from(s, regs.drop_first(), user, round)).push(p));
            } else {
                assert(Seq::<Payment>::empty() + claims_from(s, regs.drop_first(), user, round).push(
                    p,
                ) =~= (Seq::<Payment>::empty() + claims_from(s, regs.drop_first(), user, round)).push(
                    p,
                ));
            }
        }
    }
}

/// An element-for-element copy of a plan list.
fn clone_plans(
    plans: &Vec<crate::planned_distribution::DistributionPlan>,
) -> (r: Vec<crate::planned_distribution::DistributionPlan>)
    ensures
        r@ == plans@,
{
    let n = plans.len();
    let mut r: Vec<crate::planned_distribution::DistributionPlan> = Vec::new();
    let mut i: usize = 0;
    while i < n
        invariant
            n == plans@.len(),
            i <= n,
            r@ == plans@.subrange(0, i as int),
        decreases n - i,
    {
        r.push(plans[i]);
        proof {
            assert(plans@.subrange(0, i as int).push(plans@[i as int]) =~= plans@.subrange(
                0,
                i as int + 1,
            ));
        }
        i += 1;
    }
    proof {
        assert(plans@.subrange(0, n as int) =~= plans@);
    }
    r
}

impl NftStaking {
    /// The payouts a reward claim at this round would produce.
    pub open spec fn claimable_rewards(self, user: u64, round: u64) -> Seq<Payment> {
        claims_from(self, self.reward_rate.current_reward_rate.records@, user, round)
    }

    /// Claim every reward owed to the participant: realize and settle,
    /// then pay out and clear each currency's balance. When nothing at
    /// all is owed the claim is refused and the ledger is left untouched,
    /// so a caller can tell an empty claim from a paid one.
    pub fn handle_claim_rewards(&mut self, user: u64, current_round: u64) -> (r: Result<
        Vec<Payment>,
        StakingError,
    >)
        requires
            old(self).well_formed(),
            old(self).state_change_fits(user, current_round),
        ensures
            final(self).well_formed(),
            r is Err <==> old(self).claimable_rewards(user, current_round).len() == 0,
            r is Err ==> r == Result::<Vec<Payment>, StakingError>::Err(
                StakingError::NoRewardsToClaim,
            ),
            r is Err ==> {
                &&& forall|u2: u64, t: u64, n: u64| #[trigger] final(self).quantity(u2, t, n)
                    == old(self).quantity(u2, t, n)
                &&& forall|u2: u64| #[trigger] final(self).user_score(u2) == old(self).user_score(
                    u2,
                )
                &&& final(self).aggregated_score() == old(self).aggregated_score()
                &&& forall|t: u64| #[trigger] final(self).rate(t) == old(self).rate(t)
                &&& forall|t: u64| #[trigger] final(self).is_reward_token_spec(t) == old(
                    self,
                ).is_reward_token_spec(t)
                &&& forall|u2: u64, t: u64| #[trigger] final(self).stored(u2, t) == old(
                    self,
                ).stored(u2, t)
                &&& forall|u2: u64, t: u64| #[trigger] final(self).checkpoint(u2, t) == old(
                    self,
                ).checkpoint(u2, t)
                &&& final(self).planned_distribution.distribution_plans@ == old(
                    self,
                ).planned_distribution.distribution_plans@
                &&& final(self).planned_distribution.last_distribution_round == old(
                    self,
                ).planned_distribution.last_distribution_round
                &&& final(self).unstaking_items@ == old(self).unstaking_items@
                &&& final(self).staking_disabled == old(self).staking_disabled
                &&& final(self).allowed_nft_collections == old(self).allowed_nft_collections
                &&& final(self).nft_collection_score == old(self).nft_collection_score
                &&& final(self).nft_collection_nonce_score == old(self).nft_collection_nonce_score
                &&& final(self).unstaking_penalty == old(self).unstaking_penalty
            },
            r is Ok ==> {
                &&& r->Ok_0@ == old(self).claimable_rewards(user, current_round)
                &&& forall|t: u64|
                    #[trigger] old(self).is_reward_token_spec(t) ==> final(self).stored(user, t)
                        == 0 && final(self).checkpoint(user, t) == old(self).rate_after_realize(
                        t,
                        current_round,
                    )
                &&& forall|t: u64|
                    !#[trigger] old(self).is_reward_token_spec(t) ==> final(self).stored(user, t)
                        == old(self).stored(user, t) && final(self).checkpoint(user, t) == old(
                        self,
                    ).checkpoint(user, t)
                &&& forall|u2: u64, t: u64|
                    u2 != user ==> #[trigger] final(self).stored(u2, t) == old(self).stored(u2, t)
                &&& forall|u2: u64, t: u64|
                    u2 != user ==> #[trigger] final(self).checkpoint(u2, t) == old(
                        self,
                    ).checkpoint(u2, t)
                &&& forall|t: u64| #[trigger] final(self).rate(t) == old(self).rate_after_realize(
                    t,
                    current_round,
                )
                &&& forall|t: u64| #[trigger] final(self).is_reward_token_spec(t) == old(
                    self,
                ).is_reward_token_spec(t)
                &&& final(self).planned_distribution.distribution_plans@ == realize_plans_seq(
                    old(self).planned_distribution.distribution_plans@,
                    current_round,
                )
                &&& final(self).planned_distribution.last_distribution_round == (if any_active(
                    old(self).planned_distribution.distribution_plans@,
                    current_round,
                ) {
                    current_round as int
                } else {
                    old(self).planned_distribution.last_distribution_round as int
                })
                &&& forall|u2: u64, t: u64|
                    u2 != user ==> #[trigger] final(self).checkpoint(u2, t) == old(
                        self,
                    ).checkpoint(u2, t)
                &&& forall|t: u64|
                    !#[trigger] old(self).is_reward_token_spec(t) ==> final(self).stored(user, t)
                        == old(self).stored(user, t) && final(self).checkpoint(user, t) == old(
                        self,
                    ).checkpoint(user, t)
                &&& forall|u2: u64, t: u64, n: u64| #[trigger] final(self).quantity(u2, t, n)
                    == old(self).quantity(u2, t, n)
                &&& forall|u2: u64| #[trigger] final(self).user_score(u2) == old(self).user_score(
                    u2,
                )
                &&& final(self).aggregated_score() == old(self).aggregated_score()
                &&& final(self).unstaking_items@ == old(self).unstaking_items@
                &&& final(self).staking_disabled == old(self).staking_disabled
                &&& final(self).allowed_nft_collections == old(self).allowed_nft_collections
                &&& final(self).nft_collection_score == old(self).nft_collection_score
                &&& final(self).nft_collection_nonce_score == old(self).nft_collection_nonce_score
                &&& final(self).unstaking_penalty == old(self).unstaking_penalty
            },
    {
        let rates_backup = self.reward_rate.current_reward_rate.duplicate();
        let checkpoints_backup = self.reward_rate.user_reward_rate.duplicate();
        let stored_backup = self.reward_rate.user_stored_rewards.duplicate();
        let plans_backup = clone_plans(&self.planned_distribution.distribution_plans);
        let last_round_backup = self.planned_distribution.last_distribution_round;
        let ghost regs0 = self.reward_rate.current_reward_rate.records@;
        self.handle_state_change(user, current_round);
        let ghost s1 = *self;
        proof {
            assert forall|t: u64| #[trigger] s1.reward_rate.is_reward_token(t) implies
                s1.reward_rate.checkpoint(user, t) == s1.reward_rate.rate(t) by {
                assert(s1.is_reward_token_spec(t) == old(self).is_reward_token_spec(t));
                assert(old(self).is_reward_token_spec(t));
                assert(s1.checkpoint(user, t) == old(self).rate_after_realize(t, current_round));
                assert(s1.rate(t) == old(self).rate_after_realize(t, current_round));
            }
            assert forall|t: u64| true implies #[trigger] s1.stored(user, t) as int == (if
                s1.is_reward_token_spec(t) {
                old(self).pending_after_realize(user, t, current_round)
            } else {
                old(self).stored(user, t) as int
            }) by {
                assert(s1.is_reward_token_spec(t) == old(self).is_reward_token_spec(t));
                if old(self).is_reward_token_spec(t) {
                    assert(s1.stored(user, t) == old(self).pending_after_realize(
                        user,
                        t,
                        current_round,
                    ));
                } else {
                    assert(s1.stored(user, t) == old(self).stored(user, t));
                }
            }
        }
        let mut payments: Vec<Payment> = Vec::new();
        let n = self.reward_rate.current_reward_rate.len();
        let mut i: usize = 0;
        proof {
            assert(regs0.subrange(0, 0) =~= Seq::<Record>::empty());
            assert(claims_from(*old(self), regs0.subrange(0, 0), user, current_round) =~= Seq::<
                Payment,
            >::empty());
            assert(payments@ =~= Seq::<Payment>::empty());
            assert(n == regs0.len());
        }
        while i < n
            invariant
                n == regs0.len(),
                i <= n,
                old(self).well_formed(),
                s1.well_formed(),
                n == s1.reward_rate.current_reward_rate.records@.len(),
                self.reward_rate.current_reward_rate == s1.reward_rate.current_reward_rate,
                forall|k: int|
                    0 <= k < n ==> (#[trigger] s1.reward_rate.current_reward_rate.records@[k]).k1
                        == regs0[k].k1,
                forall|t: u64|
                    #[trigger] s1.reward_rate.is_reward_token(t) ==> s1.reward_rate.checkpoint(
                        user,
                        t,
                    ) == s1.reward_rate.rate(t),
                forall|t: u64| #[trigger] s1.stored(user, t) as int == (if s1.is_reward_token_spec(
                    t,
                ) {
                    old(self).pending_after_realize(user, t, current_round)
                } else {
                    old(self).stored(user, t) as int
                }),
                self.reward_rate.wf(),
                self.reward_rate.user_staked_score == s1.reward_rate.user_staked_score,
                self.reward_rate.aggregated_staked_score == s1.reward_rate.aggregated_staked_score,
                self.planned_distribution == s1.planned_distribution,
                self.staking_disabled == s1.staking_disabled,
                self.allowed_nft_collections == s1.allowed_nft_collections,
                self.nft_collection_score == s1.nft_collection_score,
                self.nft_collection_nonce_score == s1.nft_collection_nonce_score,
                self.stake_quantity == s1.stake_quantity,
                self.unstaking_items@ == s1.unstaking_items@,
                self.unstaking_penalty == s1.unstaking_penalty,
                payments@ == claims_from(*old(self), regs0.subrange(0, i as int), user, current_round),
                forall|t: u64|
                    #[trigger] settled_upto(regs0, i as int, t) ==> self.stored(user, t) == 0
                        && self.checkpoint(user, t) == s1.checkpoint(user, t),
                forall|t: u64|
                    !#[trigger] settled_upto(regs0, i as int, t) ==> self.stored(user, t)
                        == s1.stored(user, t) && self.checkpoint(user, t) == s1.checkpoint(user, t),
                forall|u2: u64, t: u64|
                    u2 != user ==> #[trigger] self.stored(u2, t) == s1.stored(u2, t),
                forall|u2: u64, t: u64|
                    u2 != user ==> #[trigger] self.checkpoint(u2, t) == s1.checkpoint(u2, t),
            decreases n - i,
        {
            let rec = self.reward_rate.current_reward_rate.record_at(i);
            let token = rec.k1;
            let ghost before = *self;
            proof {
                assert(s1.reward_rate.current_reward_rate.records@[i as int].k2 == 0
                    && s1.reward_rate.current_reward_rate.records@[i as int].k3 == 0);
                assert(key_matches(
                    s1.reward_rate.current_reward_rate.records@[i as int],
                    token,
                    0,
                    0,
                ));
                lemma_find_none_iff_no_match(
                    s1.reward_rate.current_reward_rate.records@,
                    token,
                    0,
                    0,
                );
                assert(s1.reward_rate.is_reward_token(token));
                assert(!settled_upto(regs0, i as int, token)) by {
                    if settled_upto(regs0, i as int, token) {
                        let j = choose|j: int| 0 <= j < i && (#[trigger] regs0[j]).k1 == token;
                        assert(s1.reward_rate.current_reward_rate.records@[j].k1 == token);
                        assert(s1.reward_rate.current_reward_rate.records@[j].k2 == 0
                            && s1.reward_rate.current_reward_rate.records@[j].k3 == 0);
                        assert(false);
                    }
                }
                assert(self.stored(user, token) == s1.stored(user, token));
                assert(self.checkpoint(user, token) == s1.checkpoint(user, token));
                assert(self.reward_rate.rate(token) == s1.reward_rate.rate(token));
                assert(self.reward_rate.checkpoint(user, token) == self.reward_rate.rate(token));
                vstd::arithmetic::mul::lemma_mul_basics(
                    self.reward_rate.user_score(user) as int,
                );
                assert((self.reward_rate.rate(token) - self.reward_rate.checkpoint(user, token))
                    * self.reward_rate.user_score(user) == 0);
                assert(0int / (REWARD_RATE_DENOMINATION as int) == 0);
                assert(self.reward_rate.unstored(user, token) == 0);
                assert(self.reward_rate.settle_one_fits(user, token));
            }
            let payout = self.reward_rate.handle_claim_pending_rewards(user, token);
            proof {
                let ghost prefix = regs0.subrange(0, i as int);
                assert(prefix.push(regs0[i as int]) =~= regs0.subrange(0, i as int + 1));
                lemma_claims_push(*old(self), prefix, regs0[i as int], user, current_round);
                assert(before.reward_rate.pending(user, token) == before.stored(user, token));
                assert(before.stored(user, token) as int == old(self).pending_after_realize(
                    user,
                    token,
                    current_round,
                ));
                assert forall|t: u64| #[trigger] settled_upto(regs0, i as int + 1, t) implies
                    self.stored(user, t) == 0 && self.checkpoint(user, t) == s1.checkpoint(
                    user,
                    t,
                ) by {
                    let j = choose|j: int| 0 <= j < i + 1 && (#[trigger] regs0[j]).k1 == t;
                    if j < i {
                        assert(settled_upto(regs0, i as int, t));
                        assert(t != token);
                        assert(self.stored(user, t) == before.stored(user, t));
                        assert(self.checkpoint(user, t) == before.checkpoint(user, t));
                    } else {
                        assert(t == token);
                        assert(self.checkpoint(user, t) == before.reward_rate.rate(t));
                        assert(before.reward_rate.rate(t) == s1.reward_rate.rate(t));
                        assert(s1.reward_rate.checkpoint(user, t) == s1.reward_rate.rate(t));
                    }
                }
                assert forall|t: u64| !#[trigger] settled_upto(regs0, i as int + 1, t) implies
                    self.stored(user, t) == s1.stored(user, t) && self.checkpoint(user, t)
                        == s1.checkpoint(user, t) by {
                    assert(!settled_upto(regs0, i as int, t));
                    assert(t != token) by {
                        if t == token {
                            assert(regs0[i as int].k1 == t);
                            assert(settled_upto(regs0, i as int + 1, t));
                        }
                    }
                    assert(self.stored(user, t) == before.stored(user, t));
                    assert(self.checkpoint(user, t) == before.checkpoint(user, t));
                }
                assert forall|u2: u64, t: u64| u2 != user implies #[trigger] self.stored(u2, t)
                    == s1.stored(u2, t) by {
                    assert(self.stored(u2, t) == before.stored(u2, t));
                    assert(before.stored(u2, t) == s1.stored(u2, t));
                }
                assert forall|u2: u64, t: u64| u2 != user implies #[trigger] self.checkpoint(
                    u2,
                    t,
                ) == s1.checkpoint(u2, t) by {
                    assert(self.checkpoint(u2, t) == before.checkpoint(u2, t));
                    assert(before.checkpoint(u2, t) == s1.checkpoint(u2, t));
                }
            }
            match payout {
                Some(payment) => {
                    payments.push(payment);
                },
                None => {},
            }
            i += 1;
        }
        proof {
            assert(regs0.subrange(0, n as int) =~= regs0);
        }
        if payments.len() == 0 {
            self.reward_rate.current_reward_rate = rates_backup;
            self.reward_rate.user_reward_rate = checkpoints_backup;
            self.reward_rate.user_stored_rewards = stored_backup;
            self.planned_distribution.distribution_plans = plans_backup;
            self.planned_distribution.last_distribution_round = last_round_backup;
            proof {
                assert(self.reward_rate.current_reward_rate.records@ == old(
                    self,
                ).reward_rate.current_reward_rate.records@);
                assert(self.reward_rate.user_reward_rate.records@ == old(
                    self,
                ).reward_rate.user_reward_rate.records@);
                assert(self.reward_rate.user_stored_rewards.records@ == old(
                    self,
                ).reward_rate.user_stored_rewards.records@);
                assert forall|t: u64| true implies #[trigger] self.rate(t) == old(self).rate(t) by {
                    assert(self.reward_rate.current_reward_rate.opt(t, 0, 0) == old(
                        self,
                    ).reward_rate.current_reward_rate.opt(t, 0, 0));
                }
                assert forall|u2: u64, t: u64| true implies #[trigger] self.stored(u2, t) == old(
                    self,
                ).stored(u2, t) && #[trigger] self.checkpoint(u2, t) == old(self).checkpoint(
                    u2,
                    t,
                ) by {
                    assert(self.reward_rate.user_stored_rewards.opt(u2, t, 0) == old(
                        self,
                    ).reward_rate.user_stored_rewards.opt(u2, t, 0));
                    assert(self.reward_rate.user_reward_rate.opt(u2, t, 0) == old(
                        self,
                    ).reward_rate.user_reward_rate.opt(u2, t, 0));
                }
                assert(self.well_formed()) by {
                    assert(self.reward_rate.wf()) by {
                        assert(old(self).reward_rate.wf());
                        assert forall|u2: u64, t: u64| #[trigger] self.reward_rate.checkpoint(
                            u2,
                            t,
                        ) <= self.reward_rate.rate(t) by {
                            assert(old(self).reward_rate.checkpoint(u2, t) <= old(
                                self,
                            ).reward_rate.rate(t));
                            assert(self.reward_rate.checkpoint(u2, t) == old(
                                self,
                            ).reward_rate.checkpoint(u2, t));
                            assert(self.rate(t) == old(self).rate(t));
                        }
                    }
                    assert forall|k: int|
                        0 <= k < self.planned_distribution.distribution_plans@.len() implies (
                    #[trigger] self.planned_distribution.distribution_plans@[k]).wf()
                        && self.reward_rate.is_reward_token(
                        self.planned_distribution.distribution_plans@[k].token_id,
                    ) by {
                        assert(self.planned_distribution.distribution_plans@[k] == old(
                            self,
                        ).planned_distribution.distribution_plans@[k]);
                        assert(old(self).reward_rate.is_reward_token(
                            old(self).planned_distribution.distribution_plans@[k].token_id,
                        ));
                        assert(self.reward_rate.current_reward_rate.opt(
                            self.planned_distribution.distribution_plans@[k].token_id,
                            0,
                            0,
                        ) == old(self).reward_rate.current_reward_rate.opt(
                            self.planned_distribution.distribution_plans@[k].token_id,
                            0,
                            0,
                        ));
                    }
                }
                assert forall|t: u64| true implies #[trigger] self.is_reward_token_spec(t) == old(
                    self,
                ).is_reward_token_spec(t) by {
                    assert(self.reward_rate.current_reward_rate.opt(t, 0, 0) == old(
                        self,
                    ).reward_rate.current_reward_rate.opt(t, 0, 0));
                }
            }
            return Err(StakingError::NoRewardsToClaim);
        }
        proof {
            assert forall|t: u64| #[trigger] old(self).is_reward_token_spec(t) implies self.stored(
                user,
                t,
            ) == 0 && self.checkpoint(user, t) == old(self).rate_after_realize(
                t,
                current_round,
            ) by {
                assert(s1.reward_rate.is_reward_token(t));
                lemma_find_none_iff_no_match(
                    s1.reward_rate.current_reward_rate.records@,
                    t,
                    0,
                    0,
                );
                let j = choose|j: int|
                    0 <= j < s1.reward_rate.current_reward_rate.records@.len() && key_matches(
                        #[trigger] s1.reward_rate.current_reward_rate.records@[j],
                        t,
                        0,
                        0,
                    );
                assert(regs0[j].k1 == t);
                assert(settled_upto(regs0, n as int, t));
                assert(s1.reward_rate.checkpoint(user, t) == s1.reward_rate.rate(t));
                assert(s1.rate(t) == old(self).rate_after_realize(t, current_round));
            }
            assert forall|t: u64| !#[trigger] old(self).is_reward_token_spec(t) implies
                self.stored(user, t) == old(self).stored(user, t) && self.checkpoint(user, t)
                    == old(self).checkpoint(user, t) by {
                assert(!s1.reward_rate.is_reward_token(t));
                assert(!settled_upto(regs0, n as int, t)) by {
                    if settled_upto(regs0, n as int, t) {
                        let j = choose|j: int| 0 <= j < n && (#[trigger] regs0[j]).k1 == t;
                        assert(s1.reward_rate.current_reward_rate.records@[j].k1 == t);
                        assert(s1.reward_rate.current_reward_rate.records@[j].k2 == 0
                            && s1.reward_rate.current_reward_rate.records@[j].k3 == 0);
                        lemma_find_none_iff_no_match(
                            s1.reward_rate.current_reward_rate.records@,
                            t,
                            0,
                            0,
                        );
                        assert(false);
                    }
                }
                assert(self.stored(user, t) == s1.stored(user, t));
                assert(self.checkpoint(user, t) == s1.checkpoint(user, t));
                assert(s1.stored(user, t) == old(self).stored(user, t));
                assert(s1.checkpoint(user, t) == old(self).checkpoint(user, t));
            }
            assert forall|u2: u64, t: u64| u2 != user implies #[trigger] self.stored(u2, t) == old(
                self,
            ).stored(u2, t) && #[trigger] self.checkpoint(u2, t) == old(self).checkpoint(
                u2,
                t,
            ) by {
                assert(self.stored(u2, t) == s1.stored(u2, t));
                assert(self.checkpoint(u2, t) == s1.checkpoint(u2, t));
                assert(s1.stored(u2, t) == old(self).stored(u2, t));
                assert(s1.checkpoint(u2, t) == old(self).checkpoint(u2, t));
            }
            assert forall|t: u64| true implies #[trigger] self.rate(t) == old(
                self,
            ).rate_after_realize(t, current_round) by {
                assert(self.reward_rate.rate(t) == s1.reward_rate.rate(t));
                assert(s1.rate(t) == old(self).rate_after_realize(t, current_round));
            }
            assert forall|t: u64| true implies #[trigger] self.is_reward_token_spec(t) == old(
                self,
            ).is_reward_token_spec(t) by {
                assert(self.reward_rate.is_reward_token(t) == s1.reward_rate.is_reward_token(t));
                assert(s1.is_reward_token_spec(t) == old(self).is_reward_token_spec(t));
            }
            assert forall|u2: u64, t: u64, n2: u64| true implies #[trigger] self.quantity(
                u2,
                t,
                n2,
            ) == old(self).quantity(u2, t, n2) by {
                assert(self.stake_quantity == old(self).stake_quantity);
            }
            assert forall|u2: u64| true implies #[trigger] self.user_score(u2) == old(
                self,
            ).user_score(u2) by {
                assert(self.reward_rate.user_score(u2) == s1.reward_rate.user_score(u2));
                assert(s1.user_score(u2) == old(self).user_score(u2));
            }
            assert(self.well_formed()) by {
                assert forall|k: int|
                    0 <= k < self.planned_distribution.distribution_plans@.len() implies
                    self.reward_rate.is_reward_token(
                    (#[trigger] self.planned_distribution.distribution_plans@[k]).token_id,
                ) by {
                    assert(s1.reward_rate.is_reward_token(
                        s1.planned_distribution.distribution_plans@[k].token_id,
                    ));
                }
            }
        }
        Ok(payments)
    }
}

} // verus!
