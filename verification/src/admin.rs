//! The control surface: owner-gated configuration of the pool.
//!
//! The host platform authenticates the owner before any of these run;
//! the ledger itself only applies the change. Disallowing a collection
//! never evicts holdings already staked, and changing a score override
//! never reweighs them: both act on future deposits and withdrawals
//! only.

use vstd::prelude::*;

use crate::constants::REWARD_RATE_DENOMINATION;
use crate::errors::StakingError;
use crate::planned_distribution::has_plan;
use crate::planned_distribution::plan_increment;
use crate::planned_distribution::increments_sum;
use crate::storage::NftStaking;
use crate::Payment;

verus! {

/// One plan's realization increment never exceeds the whole list's, for
/// its own currency.
proof fn lemma_increment_le_sum(
    plans: Seq<crate::planned_distribution::DistributionPlan>,
    i: int,
    round: u64,
    aggregated: u128,
)
    requires
        forall|j: int| 0 <= j < plans.len() ==> (#[trigger] plans[j]).wf(),
        0 <= i < plans.len(),
    ensures
        plan_increment(plans[i], round, aggregated) <= increments_sum(
            plans,
            plans[i].token_id,
            round,
            aggregated,
        ),
    decreases plans.len(),
{
    if i == 0 {
        assert(forall|j: int|
            0 <= j < plans.drop_first().len() ==> (#[trigger] plans.drop_first()[j]).wf());
        crate::planned_distribution::lemma_increments_nonneg(
            plans.drop_first(),
            plans[0].token_id,
            round,
            aggregated,
        );
    } else {
        assert(plans.drop_first()[i - 1] == plans[i]);
        assert(forall|j: int|
            0 <= j < plans.drop_first().len() ==> (#[trigger] plans.drop_first()[j]).wf());
        lemma_increment_le_sum(plans.drop_first(), i - 1, round, aggregated);
        crate::planned_distribution::lemma_increment_nonneg(plans[0], round, aggregated);
    }
}

impl NftStaking {
    /// Switch the pool off: every mutating participant call is refused
    /// until it is enabled again.
    pub fn disable_staking(&mut self)
        requires
            old(self).well_formed(),
        ensures
            final(self).well_formed(),
            final(self).staking_disabled,
            *final(self) == (NftStaking { staking_disabled: true, ..*old(self) }),
    {
        self.staking_disabled = true;
    }

    /// Switch the pool back on.
    pub fn enable_staking(&mut self)
        requires
            old(self).well_formed(),
        ensures
            final(self).well_formed(),
            !final(self).staking_disabled,
            *final(self) == (NftStaking { staking_disabled: false, ..*old(self) }),
    {
        self.staking_disabled = false;
    }

    /// Put each collection on the allow-list.
    pub fn allow_collections(&mut self, collections: &Vec<u64>)
        requires
            old(self).well_formed(),
        ensures
            final(self).well_formed(),
            forall|t: u64| #[trigger] final(self).is_allowed(t) == (old(self).is_allowed(t)
                || collections@.contains(t)),
            final(self).nft_collection_score == old(self).nft_collection_score,
            final(self).nft_collection_nonce_score == old(self).nft_collection_nonce_score,
            final(self).stake_quantity == old(self).stake_quantity,
            final(self).reward_rate == old(self).reward_rate,
            final(self).planned_distribution == old(self).planned_distribution,
            final(self).unstaking_items@ == old(self).unstaking_items@,
            final(self).unstaking_penalty == old(self).unstaking_penalty,
            final(self).staking_disabled == old(self).staking_disabled,
    {
        let n = collections.len();
        let mut i: usize = 0;
        while i < n
            invariant
                n == collections@.len(),
                i <= n,
                old(self).well_formed(),
                self.allowed_nft_collections.wf(),
                forall|t: u64| #[trigger] self.is_allowed(t) == (old(self).is_allowed(t)
                    || collections@.subrange(0, i as int).contains(t)),
                self.nft_collection_score == old(self).nft_collection_score,
                self.nft_collection_nonce_score == old(self).nft_collection_nonce_score,
                self.stake_quantity == old(self).stake_quantity,
                self.reward_rate == old(self).reward_rate,
                self.planned_distribution == old(self).planned_distribution,
                self.unstaking_items@ == old(self).unstaking_items@,
                self.unstaking_penalty == old(self).unstaking_penalty,
                self.staking_disabled == old(self).staking_disabled,
            decreases n - i,
        {
            let c = collections[i];
            let ghost before = *self;
            self.allowed_nft_collections.set(c, 0, 0, 1);
            proof {
                assert forall|t: u64| true implies #[trigger] self.is_allowed(t) == (old(
                    self,
                ).is_allowed(t) || collections@.subrange(0, i as int + 1).contains(t)) by {
                    assert(before.is_allowed(t) == (old(self).is_allowed(t)
                        || collections@.subrange(0, i as int).contains(t)));
                    if t != c {
                        assert(self.allowed_nft_collections.opt(t, 0, 0)
                            == before.allowed_nft_collections.opt(t, 0, 0));
                    }
                    if collections@.subrange(0, i as int + 1).contains(t) {
                        let j = choose|j: int|
                            0 <= j < i + 1 && #[trigger] collections@.subrange(
                                0,
                                i as int + 1,
                            )[j] == t;
                        if j < i {
                            assert(collections@.subrange(0, i as int)[j] == t);
                            assert(collections@.subrange(0, i as int).contains(t));
                        } else {
                            assert(t == c);
                        }
                    } else {
                        assert(!collections@.subrange(0, i as int).contains(t)) by {
                            if collections@.subrange(0, i as int).contains(t) {
                                let j = choose|j: int|
                                    0 <= j < i && #[trigger] collections@.subrange(
                                        0,
                                        i as int,
                                    )[j] == t;
                                assert(collections@.subrange(0, i as int + 1)[j] == t);
                            }
                        }
                        assert(t != c) by {
                            if t == c {
                                assert(collections@.subrange(0, i as int + 1)[i as int] == t);
                            }
                        }
                    }
                }
            }
            i += 1;
        }
        proof {
            assert(collections@.subrange(0, n as int) =~= collections@);
        }
    }

    /// Take each collection off the allow-list. Holdings already staked
    /// stay where they are and can still be withdrawn; only new deposits
    /// of the collection are refused.
    pub fn disallow_collections(&mut self, collections: &Vec<u64>)
        requires
            old(self).well_formed(),
        ensures
            final(self).well_formed(),
            forall|t: u64| #[trigger] final(self).is_allowed(t) == (old(self).is_allowed(t)
                && !collections@.contains(t)),
            final(self).nft_collection_score == old(self).nft_collection_score,
            final(self).nft_collection_nonce_score == old(self).nft_collection_nonce_score,
            final(self).stake_quantity == old(self).stake_quantity,
            final(self).reward_rate == old(self).reward_rate,
            final(self).planned_distribution == old(self).planned_distribution,
            final(self).unstaking_items@ == old(self).unstaking_items@,
            final(self).unstaking_penalty == old(self).unstaking_penalty,
            final(self).staking_disabled == old(self).staking_disabled,
    {
        let n = collections.len();
        let mut i: usize = 0;
        while i < n
            invariant
                n == collections@.len(),
                i <= n,
                old(self).well_formed(),
                self.allowed_nft_collections.wf(),
                forall|t: u64| #[trigger] self.is_allowed(t) == (old(self).is_allowed(t)
                    && !collections@.subrange(0, i as int).contains(t)),
                self.nft_collection_score == old(self).nft_collection_score,
                self.nft_collection_nonce_score == old(self).nft_collection_nonce_score,
                self.stake_quantity == old(self).stake_quantity,
                self.reward_rate == old(self).reward_rate,
                self.planned_distribution == old(self).planned_distribution,
                self.unstaking_items@ == old(self).unstaking_items@,
                self.unstaking_penalty == old(self).unstaking_penalty,
                self.staking_disabled == old(self).staking_disabled,
            decreases n - i,
        {
            let c = collections[i];
            let ghost before = *self;
            self.allowed_nft_collections.unset(c, 0, 0);
            proof {
                assert forall|t: u64| true implies #[trigger] self.is_allowed(t) == (old(
                    self,
                ).is_allowed(t) && !collections@.subrange(0, i as int + 1).contains(t)) by {
                    assert(before.is_allowed(t) == (old(self).is_allowed(t)
                        && !collections@.subrange(0, i as int).contains(t)));
                    if t != c {
                        assert(self.allowed_nft_collections.opt(t, 0, 0)
                            == before.allowed_nft_collections.opt(t, 0, 0));
                    }
                    if collections@.subrange(0, i as int + 1).contains(t) {
                        let j = choose|j: int|
                            0 <= j < i + 1 && #[trigger] collections@.subrange(
                                0,
                                i as int + 1,
                            )[j] == t;
                        if j < i {
                            assert(collections@.subrange(0, i as int)[j] == t);
                            assert(collections@.subrange(0, i as int).contains(t));
                        } else {
                            assert(t == c);
                        }
                    } else {
                        assert(!collections@.subrange(0, i as int).contains(t)) by {
                            if collections@.subrange(0, i as int).contains(t) {
                                let j = choose|j: int|
                                    0 <= j < i && #[trigger] collections@.subrange(
                                        0,
                                        i as int,
                                    )[j] == t;
                                assert(collections@.subrange(0, i as int + 1)[j] == t);
                            }
                        }
                        assert(t != c) by {
                            if t == c {
                                assert(collections@.subrange(0, i as int + 1)[i as int] == t);
                            }
                        }
                    }
                }
            }
            i += 1;
        }
        proof {
            assert(collections@.subrange(0, n as int) =~= collections@);
        }
    }

    /// Set the unstaking penalty: the seconds every future withdrawal
    /// waits before it can be claimed. Batches already in the queue keep
    /// the unlock time computed when they were created.
    pub fn set_unstaking_penalty(&mut self, penalty: u64)
        requires
            old(self).well_formed(),
        ensures
            final(self).well_formed(),
            *final(self) == (NftStaking { unstaking_penalty: penalty, ..*old(self) }),
    {
        self.unstaking_penalty = penalty;
    }

    /// Override the score of every instance of the collection, and allow
    /// the collection. Holdings already staked keep the weight they were
    /// deposited at.
    pub fn set_collection_score(&mut self, collection: u64, score: u64)
        requires
            old(self).well_formed(),
        ensures
            final(self).well_formed(),
            final(self).nft_collection_score.opt(collection, 0, 0) == Some(score as u128),
            forall|t: u64|
                t != collection ==> #[trigger] final(self).nft_collection_score.opt(t, 0, 0)
                    == old(self).nft_collection_score.opt(t, 0, 0),
            final(self).is_allowed(collection),
            forall|t: u64| t != collection ==> #[trigger] final(self).is_allowed(t) == old(
                self,
            ).is_allowed(t),
            final(self).nft_collection_nonce_score == old(self).nft_collection_nonce_score,
            final(self).stake_quantity == old(self).stake_quantity,
            final(self).reward_rate == old(self).reward_rate,
            final(self).planned_distribution == old(self).planned_distribution,
            final(self).unstaking_items@ == old(self).unstaking_items@,
            final(self).unstaking_penalty == old(self).unstaking_penalty,
            final(self).staking_disabled == old(self).staking_disabled,
    {
        self.nft_collection_score.set(collection, 0, 0, score as u128);
        self.allowed_nft_collections.set(collection, 0, 0, 1);
    }

    /// Override the score of one instance of the collection, and allow
    /// the collection. The instance level wins over the collection level.
    pub fn set_collection_nonce_score(&mut self, collection: u64, nonce: u64, score: u64)
        requires
            old(self).well_formed(),
        ensures
            final(self).well_formed(),
            final(self).nft_collection_nonce_score.opt(collection, nonce, 0) == Some(
                score as u128,
            ),
            forall|t: u64, n: u64|
                !(t == collection && n == nonce)
                    ==> #[trigger] final(self).nft_collection_nonce_score.opt(t, n, 0) == old(
                    self,
                ).nft_collection_nonce_score.opt(t, n, 0),
            final(self).is_allowed(collection),
            forall|t: u64| t != collection ==> #[trigger] final(self).is_allowed(t) == old(
                self,
            ).is_allowed(t),
            final(self).nft_collection_score == old(self).nft_collection_score,
            final(self).stake_quantity == old(self).stake_quantity,
            final(self).reward_rate == old(self).reward_rate,
            final(self).planned_distribution == old(self).planned_distribution,
            final(self).unstaking_items@ == old(self).unstaking_items@,
            final(self).unstaking_penalty == old(self).unstaking_penalty,
            final(self).staking_disabled == old(self).staking_disabled,
    {
        self.nft_collection_nonce_score.set(collection, nonce, 0, score as u128);
        self.allowed_nft_collections.set(collection, 0, 0, 1);
    }

    /// Deposit rewards to distribute over everyone staked right now.
    /// Refused while staking is disabled; a deposit with nothing staked
    /// is absorbed without effect.
    pub fn distribute_rewards(&mut self, rewards: &Vec<Payment>) -> (r: Result<
        (),
        StakingError,
    >)
        requires
            old(self).well_formed(),
            forall|i: int|
                0 <= i < rewards@.len() ==> (#[trigger] rewards@[i]).amount
                    * REWARD_RATE_DENOMINATION <= u128::MAX,
            forall|t: u64|
                #[trigger] old(self).rate(t) + crate::core_logic::deposit_increments(
                    rewards@,
                    t,
                    old(self).aggregated_score(),
                ) <= u128::MAX,
        ensures
            final(self).well_formed(),
            r is Err <==> old(self).staking_disabled,
            r is Err ==> *final(self) == *old(self) && r == Result::<(), StakingError>::Err(
                StakingError::StakingDisabled,
            ),
            r is Ok ==> {
                &&& forall|t: u64| #[trigger] final(self).rate(t) == old(self).rate(t)
                    + crate::core_logic::deposit_increments(
                    rewards@,
                    t,
                    old(self).aggregated_score(),
                )
                &&& forall|i: int|
                    0 <= i < rewards@.len() ==> final(self).is_reward_token_spec(
                        (#[trigger] rewards@[i]).token_id,
                    )
                &&& forall|u: u64, t: u64| #[trigger] final(self).stored(u, t) == old(
                    self,
                ).stored(u, t)
                &&& forall|u: u64, t: u64| #[trigger] final(self).checkpoint(u, t) == old(
                    self,
                ).checkpoint(u, t)
                &&& forall|u: u64| #[trigger] final(self).user_score(u) == old(self).user_score(u)
                &&& final(self).aggregated_score() == old(self).aggregated_score()
                &&& final(self).planned_distribution == old(self).planned_distribution
                &&& final(self).stake_quantity == old(self).stake_quantity
                &&& final(self).unstaking_items@ == old(self).unstaking_items@
                &&& final(self).staking_disabled == old(self).staking_disabled
                &&& final(self).allowed_nft_collections == old(self).allowed_nft_collections
                &&& final(self).nft_collection_score == old(self).nft_collection_score
                &&& final(self).nft_collection_nonce_score == old(self).nft_collection_nonce_score
                &&& final(self).unstaking_penalty == old(self).unstaking_penalty
            },
    {
        if self.staking_disabled {
            return Err(StakingError::StakingDisabled);
        }
        self.handle_distribute_rewards(rewards);
        Ok(())
    }

    /// Store a distribution plan vesting the deposited amount linearly
    /// over the round range, and register its currency. The plan refuses
    /// a range that does not end after it starts.
    pub fn create_distribution_plan(
        &mut self,
        payment: &Payment,
        start_round: u64,
        end_round: u64,
    ) -> (r: Result<(), StakingError>)
        requires
            old(self).well_formed(),
            payment.amount * REWARD_RATE_DENOMINATION <= u128::MAX,
        ensures
            final(self).well_formed(),
            r is Err <==> end_round <= start_round,
            r is Err ==> *final(self) == *old(self) && r == Result::<(), StakingError>::Err(
                StakingError::InvalidPlanRange,
            ),
            r is Ok ==> {
                let amount_per_round = (payment.amount * REWARD_RATE_DENOMINATION / ((end_round
                    - start_round) as int)) as u128;
                &&& final(self).is_reward_token_spec(payment.token_id)
                &&& forall|t: u64|
                    t != payment.token_id ==> #[trigger] final(self).is_reward_token_spec(t)
                        == old(self).is_reward_token_spec(t)
                &&& forall|t: u64| #[trigger] final(self).rate(t) == old(self).rate(t)
                &&& final(self).planned_distribution.distribution_plans@ == if has_plan(
                    old(self).planned_distribution.distribution_plans@,
                    payment.token_id,
                    start_round,
                    end_round,
                    amount_per_round,
                ) {
                    old(self).planned_distribution.distribution_plans@
                } else {
                    old(self).planned_distribution.distribution_plans@.push(
                        (crate::planned_distribution::DistributionPlan {
                            token_id: payment.token_id,
                            start_round,
                            end_round,
                            amount_per_round,
                            realized_round: start_round,
                        }),
                    )
                }
                &&& final(self).planned_distribution.last_distribution_round == old(
                    self,
                ).planned_distribution.last_distribution_round
                &&& final(self).reward_rate.user_staked_score == old(
                    self,
                ).reward_rate.user_staked_score
                &&& final(self).aggregated_score() == old(self).aggregated_score()
                &&& final(self).reward_rate.user_reward_rate == old(self).reward_rate.user_reward_rate
                &&& final(self).reward_rate.user_stored_rewards == old(
                    self,
                ).reward_rate.user_stored_rewards
                &&& final(self).stake_quantity == old(self).stake_quantity
                &&& final(self).unstaking_items@ == old(self).unstaking_items@
                &&& final(self).staking_disabled == old(self).staking_disabled
                &&& final(self).allowed_nft_collections == old(self).allowed_nft_collections
                &&& final(self).nft_collection_score == old(self).nft_collection_score
                &&& final(self).nft_collection_nonce_score == old(self).nft_collection_nonce_score
                &&& final(self).unstaking_penalty == old(self).unstaking_penalty
            },
    {
        let r = self.planned_distribution.create_plan(
            &mut self.reward_rate,
            payment.token_id,
            start_round,
            end_round,
            payment.amount,
        );
        proof {
            if end_round > start_round {
                assert(self.well_formed()) by {
                    assert forall|k: int|
                        0 <= k < self.planned_distribution.distribution_plans@.len() implies
                        self.reward_rate.is_reward_token(
                        (#[trigger] self.planned_distribution.distribution_plans@[k]).token_id,
                    ) by {
                        if k < old(self).planned_distribution.distribution_plans@.len() {
                            assert(self.planned_distribution.distribution_plans@[k] == old(
                                self,
                            ).planned_distribution.distribution_plans@[k]);
                            assert(old(self).reward_rate.is_reward_token(
                                old(self).planned_distribution.distribution_plans@[k].token_id,
                            ));
                        } else {
                            assert(self.planned_distribution.distribution_plans@[k].token_id
                                == payment.token_id);
                        }
                    }
                }
            }
        }
        r
    }

    /// Remove the distribution plan with exactly these parameters, after
    /// folding what it has vested but not yet realized into the
    /// accumulator. Refused when no stored plan matches.
    pub fn remove_distribution_plan(
        &mut self,
        reward_token_id: u64,
        start_round: u64,
        end_round: u64,
        amount_per_round: u128,
        current_round: u64,
    ) -> (r: Result<(), StakingError>)
        requires
            old(self).well_formed(),
            old(self).realize_fits(current_round),
        ensures
            final(self).well_formed(),
            r is Err <==> !has_plan(
                old(self).planned_distribution.distribution_plans@,
                reward_token_id,
                start_round,
                end_round,
                amount_per_round,
            ),
            r is Err ==> *final(self) == *old(self) && r == Result::<(), StakingError>::Err(
                StakingError::PlanNotFound,
            ),
            r is Ok ==> exists|i: int|
                0 <= i < old(self).planned_distribution.distribution_plans@.len() && (
                #[trigger] old(self).planned_distribution.distribution_plans@[i]).matches(
                    reward_token_id,
                    start_round,
                    end_round,
                    amount_per_round,
                ) && final(self).planned_distribution.distribution_plans@ == old(
                    self,
                ).planned_distribution.distribution_plans@.remove(i) && final(self).rate(
                    reward_token_id,
                ) == old(self).rate(reward_token_id) + plan_increment(
                    old(self).planned_distribution.distribution_plans@[i],
                    current_round,
                    old(self).aggregated_score(),
                ),
            r is Ok ==> forall|t: u64|
                t != reward_token_id ==> #[trigger] final(self).rate(t) == old(self).rate(t),
            forall|t: u64| #[trigger] final(self).is_reward_token_spec(t) == old(
                self,
            ).is_reward_token_spec(t),
            final(self).reward_rate.user_staked_score == old(self).reward_rate.user_staked_score,
            final(self).aggregated_score() == old(self).aggregated_score(),
            final(self).reward_rate.user_reward_rate == old(self).reward_rate.user_reward_rate,
            final(self).reward_rate.user_stored_rewards == old(self).reward_rate.user_stored_rewards,
            final(self).planned_distribution.last_distribution_round == old(
                self,
            ).planned_distribution.last_distribution_round,
            final(self).stake_quantity == old(self).stake_quantity,
            final(self).unstaking_items@ == old(self).unstaking_items@,
            final(self).staking_disabled == old(self).staking_disabled,
            final(self).allowed_nft_collections == old(self).allowed_nft_collections,
            final(self).nft_collection_score == old(self).nft_collection_score,
            final(self).nft_collection_nonce_score == old(self).nft_collection_nonce_score,
            final(self).unstaking_penalty == old(self).unstaking_penalty,
    {
        proof {
            assert forall|i: int|
                0 <= i < old(self).planned_distribution.distribution_plans@.len() implies old(
                self,
            ).reward_rate.rate((#[trigger] old(self).planned_distribution.distribution_plans@[i]).token_id)
                + plan_increment(
                old(self).planned_distribution.distribution_plans@[i],
                current_round,
                old(self).reward_rate.aggregated_staked_score,
            ) <= u128::MAX by {
                let plans = old(self).planned_distribution.distribution_plans@;
                lemma_increment_le_sum(
                    plans,
                    i,
                    current_round,
                    old(self).reward_rate.aggregated_staked_score,
                );
                assert(old(self).rate(plans[i].token_id) + increments_sum(
                    plans,
                    plans[i].token_id,
                    current_round,
                    old(self).aggregated_score(),
                ) <= u128::MAX);
            }
        }
        let r = self.planned_distribution.remove_plan(
            &mut self.reward_rate,
            reward_token_id,
            start_round,
            end_round,
            amount_per_round,
            current_round,
        );
        proof {
            if r is Ok {
                assert(self.well_formed());
            }
        }
        r
    }
}

} // verus!
