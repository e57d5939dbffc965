//! An asset-staking and reward-accrual ledger.
//!
//! Participants deposit uniquely identified assets (collection + nonce +
//! quantity) into a shared pool. The pool keeps a weighted score per
//! participant and distributes reward currencies proportionally to each
//! participant's share of the aggregated score, either through manual
//! deposits or through linearly vesting distribution plans. Withdrawn
//! assets wait in a time-locked queue before they can be claimed.
//!
//! The ledger itself is an explicit value, [`NftStaking`]; the host
//! environment supplies participant identities, the round counter, the
//! clock, and moves the actual asset values. Every state-changing
//! operation is atomic: it either completes or returns an error and
//! leaves the ledger exactly as it was.

use vstd::prelude::*;

pub use crate::errors::StakingError;
pub use crate::storage::NftStaking;
pub use crate::storage::PendingUnstake;
pub use crate::views::PlannedDistributionModule;
pub use crate::views::RewardRateModule;

pub mod admin;
pub mod constants;
pub mod core_logic;
pub mod errors;
pub mod laws;
pub mod planned_distribution;
pub mod reward_rate;
pub mod storage;
pub mod table;
pub mod utils;
pub mod views;

verus! {

/// A batch of assets attached to a call or owed to a participant:
/// an asset collection, a nonce distinguishing the instance inside the
/// collection, and a quantity of that instance.
#[derive(Clone, Copy, PartialEq, Eq, Structural, Debug)]
pub struct Payment {
    pub token_id: u64,
    pub token_nonce: u64,
    pub amount: u128,
}


impl crate::storage::NftStaking {
    /// Deposit the attached assets for the caller. Refused while staking
    /// is disabled, and refused whole if any asset's collection is not on
    /// the allow-list; otherwise returns the score added, with the pool
    /// realized and the caller settled first.
    pub fn stake(&mut self, caller: u64, payments: &Vec<Payment>, current_round: u64) -> (r:
        Result<u128, crate::errors::StakingError>)
        requires
            old(self).well_formed(),
            old(self).state_change_fits(caller, current_round),
            old(self).deposits_fit(caller, payments@),
        ensures
            final(self).well_formed(),
            r is Err <==> (old(self).staking_disabled || !old(self).all_allowed(payments@)),
            r is Err ==> *final(self) == *old(self),
            old(self).staking_disabled ==> r == Result::<u128, crate::errors::StakingError>::Err(
                crate::errors::StakingError::StakingDisabled,
            ),
            !old(self).staking_disabled && !old(self).all_allowed(payments@) ==> r == Result::<
                u128,
                crate::errors::StakingError,
            >::Err(crate::errors::StakingError::AssetNotAllowed),
            r is Ok ==> {
                &&& r == Result::<u128, crate::errors::StakingError>::Ok(
                    old(self).payments_score(payments@) as u128,
                )

                &&& forall|t: u64, n: u64| #[trigger] final(self).quantity(caller, t, n) == old(
                    self,
                ).quantity(caller, t, n) + crate::core_logic::amounts_for(payments@, t, n)
                &&& forall|u2: u64, t: u64, n: u64|
                    u2 != caller ==> #[trigger] final(self).quantity(u2, t, n) == old(
                        self,
                    ).quantity(u2, t, n)
                &&& final(self).user_score(caller) == old(self).user_score(caller) + old(
                    self,
                ).payments_score(payments@)
                &&& forall|u2: u64|
                    u2 != caller ==> #[trigger] final(self).user_score(u2) == old(self).user_score(
                        u2,
                    )
                &&& final(self).aggregated_score() == old(self).aggregated_score() + old(
                    self,
                ).payments_score(payments@)
                &&& forall|t: u64| #[trigger] final(self).rate(t) == old(self).rate_after_realize(
                    t,
                    current_round,
                )
                &&& forall|t: u64| #[trigger] final(self).is_reward_token_spec(t) == old(
                    self,
                ).is_reward_token_spec(t)
                &&& forall|t: u64|
                    #[trigger] old(self).is_reward_token_spec(t) ==> final(self).stored(caller, t)
                        == old(self).pending_after_realize(caller, t, current_round)
                        && final(self).checkpoint(caller, t) == old(self).rate_after_realize(
                        t,
                        current_round,
                    )
                &&& forall|t: u64|
                    !#[trigger] old(self).is_reward_token_spec(t) ==> final(self).stored(
                        caller,
                        t,
                    ) == old(self).stored(caller, t) && final(self).checkpoint(caller, t) == old(
                        self,
                    ).checkpoint(caller, t)
                &&& forall|u2: u64, t: u64|
                    u2 != caller ==> #[trigger] final(self).stored(u2, t) == old(self).stored(
                        u2,
                        t,
                    )
                &&& forall|u2: u64, t: u64|
                    u2 != caller ==> #[trigger] final(self).checkpoint(u2, t) == old(
                        self,
                    ).checkpoint(u2, t)
                &&& final(self).planned_distribution.distribution_plans@
                    == crate::planned_distribution::realize_plans_seq(
                    old(self).planned_distribution.distribution_plans@,
                    current_round,
                )
                &&& final(self).planned_distribution.last_distribution_round == (
                if crate::planned_distribution::any_active(
                    old(self).planned_distribution.distribution_plans@,
                    current_round,
                ) {
                    current_round as int
                } else {
                    old(self).planned_distribution.last_distribution_round as int
                })
                &&& final(self).staking_disabled == old(self).staking_disabled
                &&& final(self).allowed_nft_collections == old(self).allowed_nft_collections
                &&& final(self).nft_collection_score == old(self).nft_collection_score
                &&& final(self).nft_collection_nonce_score == old(self).nft_collection_nonce_score
                &&& final(self).unstaking_items@ == old(self).unstaking_items@
                &&& final(self).unstaking_penalty == old(self).unstaking_penalty
            },
    {
        if self.staking_disabled {
            return Err(crate::errors::StakingError::StakingDisabled);
        }
        let n = payments.len();
        let mut i: usize = 0;
        while i < n
            invariant
                n == payments@.len(),
                i <= n,
                *self == *old(self),
                old(self).well_formed(),
                old(self).state_change_fits(caller, current_round),
                old(self).deposits_fit(caller, payments@),
                !old(self).staking_disabled,
                forall|j: int| 0 <= j < i ==> self.is_allowed((#[trigger] payments@[j]).token_id),
            decreases n - i,
        {
            if !self.can_stake(payments[i].token_id) {
                return Err(crate::errors::StakingError::AssetNotAllowed);
            }
            i += 1;
        }
        let total = self.handle_stake(caller, payments, current_round);
        Ok(total)
    }

    /// Withdraw staked assets. Refused while staking is disabled, and
    /// refused whole if any request exceeds the holding it names or the
    /// batch's resolved score exceeds the caller's recorded score (which
    /// only a raised override can cause); the withdrawn assets wait in
    /// the time-locked queue. Returns the score removed.
    pub fn unstake(
        &mut self,
        caller: u64,
        requests: &Vec<Payment>,
        current_round: u64,
        current_timestamp: u64,
    ) -> (r: Result<u128, crate::errors::StakingError>)
        requires
            old(self).well_formed(),
            old(self).state_change_fits(caller, current_round),
            current_timestamp + old(self).unstaking_penalty <= u64::MAX,
        ensures
            final(self).well_formed(),
            r is Err <==> (old(self).staking_disabled || !(old(self).can_withdraw(
                caller,
                requests@,
            ) && old(self).can_cover_score(caller, requests@))),
            r is Err ==> *final(self) == *old(self),
            old(self).staking_disabled ==> r == Result::<u128, crate::errors::StakingError>::Err(
                crate::errors::StakingError::StakingDisabled,
            ),
            !old(self).staking_disabled && !(old(self).can_withdraw(caller, requests@) && old(
                self,
            ).can_cover_score(caller, requests@)) ==> r == Result::<
                u128,
                crate::errors::StakingError,
            >::Err(crate::errors::StakingError::InsufficientStake),
            r is Ok ==> {
                &&& r == Result::<u128, crate::errors::StakingError>::Ok(
                    old(self).payments_score(requests@) as u128,
                )
                &&& forall|t: u64, n: u64| #[trigger] final(self).quantity(caller, t, n) == old(
                    self,
                ).quantity(caller, t, n) - crate::core_logic::amounts_for(requests@, t, n)
                &&& forall|u2: u64, t: u64, n: u64|
                    u2 != caller ==> #[trigger] final(self).quantity(u2, t, n) == old(
                        self,
                    ).quantity(u2, t, n)
                &&& final(self).user_score(caller) == old(self).user_score(caller) - old(
                    self,
                ).payments_score(requests@)
                &&& forall|u2: u64|
                    u2 != caller ==> #[trigger] final(self).user_score(u2) == old(self).user_score(
                        u2,
                    )
                &&& final(self).aggregated_score() == old(self).aggregated_score() - old(
                    self,
                ).payments_score(requests@)
                &&& final(self).unstaking_items@.len() == old(self).unstaking_items@.len() + 1
                &&& final(self).unstaking_items@.subrange(
                    0,
                    old(self).unstaking_items@.len() as int,
                ) == old(self).unstaking_items@
                &&& final(self).unstaking_items@.last().user == caller
                &&& final(self).unstaking_items@.last().unlock_timestamp == current_timestamp
                    + old(self).unstaking_penalty
                &&& final(self).unstaking_items@.last().payments@ == requests@
                &&& forall|t: u64| #[trigger] final(self).rate(t) == old(self).rate_after_realize(
                    t,
                    current_round,
                )
                &&& forall|t: u64| #[trigger] final(self).is_reward_token_spec(t) == old(
                    self,
                ).is_reward_token_spec(t)
                &&& forall|t: u64|
                    #[trigger] old(self).is_reward_token_spec(t) ==> final(self).stored(caller, t)
                        == old(self).pending_after_realize(caller, t, current_round)
                        && final(self).checkpoint(caller, t) == old(self).rate_after_realize(
                        t,
                        current_round,
                    )
                &&& forall|u2: u64, t: u64|
                    u2 != caller ==> #[trigger] final(self).stored(u2, t) == old(self).stored(
                        u2,
                        t,
                    )
                &&& forall|u2: u64, t: u64|
                    u2 != caller ==> #[trigger] final(self).checkpoint(u2, t) == old(
                        self,
                    ).checkpoint(u2, t)
                &&& forall|t: u64|
                    !#[trigger] old(self).is_reward_token_spec(t) ==> final(self).stored(
                        caller,
                        t,
                    ) == old(self).stored(caller, t) && final(self).checkpoint(caller, t) == old(
                        self,
                    ).checkpoint(caller, t)
                &&& final(self).planned_distribution.distribution_plans@
                    == crate::planned_distribution::realize_plans_seq(
                    old(self).planned_distribution.distribution_plans@,
                    current_round,
                )
                &&& final(self).planned_distribution.last_distribution_round == (
                if crate::planned_distribution::any_active(
                    old(self).planned_distribution.distribution_plans@,
                    current_round,
                ) {
                    current_round as int
                } else {
                    old(self).planned_distribution.last_distribution_round as int
                })
                &&& final(self).staking_disabled == old(self).staking_disabled
                &&& final(self).allowed_nft_collections == old(self).allowed_nft_collections
                &&& final(self).nft_collection_score == old(self).nft_collection_score
                &&& final(self).nft_collection_nonce_score == old(self).nft_collection_nonce_score
                &&& final(self).unstaking_penalty == old(self).unstaking_penalty
            },
    {
        if self.staking_disabled {
            return Err(crate::errors::StakingError::StakingDisabled);
        }
        self.handle_unstake(caller, requests, current_round, current_timestamp)
    }

    /// Release the caller's time-locked withdrawals whose lock has
    /// elapsed and return the assets to hand back. Refused while staking
    /// is disabled or when no batch qualifies.
    pub fn claim_unstaked(&mut self, caller: u64, current_timestamp: u64) -> (r: Result<
        Vec<Payment>,
        crate::errors::StakingError,
    >)
        requires
            old(self).well_formed(),
        ensures
            final(self).well_formed(),
            r is Err <==> (old(self).staking_disabled || !crate::core_logic::any_released(
                old(self).unstaking_items@,
                caller,
                current_timestamp,
            )),
            r is Err ==> {
                &&& final(self).unstaking_items@ == old(self).unstaking_items@
                &&& final(self).staking_disabled == old(self).staking_disabled
                &&& final(self).allowed_nft_collections == old(self).allowed_nft_collections
                &&& final(self).nft_collection_score == old(self).nft_collection_score
                &&& final(self).nft_collection_nonce_score == old(self).nft_collection_nonce_score
                &&& final(self).stake_quantity == old(self).stake_quantity
                &&& final(self).reward_rate == old(self).reward_rate
                &&& final(self).planned_distribution == old(self).planned_distribution
                &&& final(self).unstaking_penalty == old(self).unstaking_penalty
            },
            old(self).staking_disabled ==> r == Result::<
                Vec<Payment>,
                crate::errors::StakingError,
            >::Err(crate::errors::StakingError::StakingDisabled),
            !old(self).staking_disabled && !crate::core_logic::any_released(
                old(self).unstaking_items@,
                caller,
                current_timestamp,
            ) ==> r == Result::<Vec<Payment>, crate::errors::StakingError>::Err(
                crate::errors::StakingError::NothingUnlocked,
            ),
            r is Ok ==> {
                &&& r->Ok_0@ == crate::core_logic::released_payments(
                    old(self).unstaking_items@,
                    caller,
                    current_timestamp,
                )
                &&& final(self).unstaking_items@ == crate::core_logic::kept_batches(
                    old(self).unstaking_items@,
                    caller,
                    current_timestamp,
                )
                &&& final(self).staking_disabled == old(self).staking_disabled
                &&& final(self).allowed_nft_collections == old(self).allowed_nft_collections
                &&& final(self).nft_collection_score == old(self).nft_collection_score
                &&& final(self).nft_collection_nonce_score == old(self).nft_collection_nonce_score
                &&& final(self).stake_quantity == old(self).stake_quantity
                &&& final(self).reward_rate == old(self).reward_rate
                &&& final(self).planned_distribution == old(self).planned_distribution
                &&& final(self).unstaking_penalty == old(self).unstaking_penalty
            },
    {
        if self.staking_disabled {
            return Err(crate::errors::StakingError::StakingDisabled);
        }
        self.handle_claim_unstaked(caller, current_timestamp)
    }

    /// Claim every reward owed to the caller. Refused while staking is
    /// disabled and refused, leaving the ledger untouched, when nothing
    /// at all is owed.
    pub fn claim_rewards(&mut self, caller: u64, current_round: u64) -> (r: Result<
        Vec<Payment>,
        crate::errors::StakingError,
    >)
        requires
            old(self).well_formed(),
            old(self).state_change_fits(caller, current_round),
        ensures
            final(self).well_formed(),
            r is Err <==> (old(self).staking_disabled || old(self).claimable_rewards(
                caller,
                current_round,
            ).len() == 0),
            old(self).staking_disabled ==> r == Result::<
                Vec<Payment>,
                crate::errors::StakingError,
            >::Err(crate::errors::StakingError::StakingDisabled) && *final(self) == *old(self),
            !old(self).staking_disabled && old(self).claimable_rewards(
                caller,
                current_round,
            ).len() == 0 ==> r == Result::<Vec<Payment>, crate::errors::StakingError>::Err(
                crate::errors::StakingError::NoRewardsToClaim,
            ),
            r is Err ==> {
                &&& forall|u2: u64, t: u64, n: u64| #[trigger] final(self).quantity(u2, t, n)
                    == old(self).quantity(u2, t, n)
                &&& forall|u2: u64| #[trigger] final(self).user_score(u2) == old(self).user_score(
                    u2,
                )
                &&& final(self).aggregated_score() == old(self).aggregated_score()
                &&& forall|t: u64| #[trigger] final(self).rate(t) == old(self).rate(t)
                &&& forall|u2: u64, t: u64| #[trigger] final(self).stored(u2, t) == old(
                    self,
                ).stored(u2, t)
                &&& forall|u2: u64, t: u64| #[trigger] final(self).checkpoint(u2, t) == old(
                    self,
                ).checkpoint(u2, t)
                &&& final(self).planned_distribution.distribution_plans@ == old(
                    self,
                ).planned_distribution.distribution_plans@
                &&& final(self).unstaking_items@ == old(self).unstaking_items@
            },
            r is Ok ==> {
                &&& r->Ok_0@ == old(self).claimable_rewards(caller, current_round)
                &&& forall|t: u64|
                    #[trigger] old(self).is_reward_token_spec(t) ==> final(self).stored(caller, t)
                        == 0 && final(self).checkpoint(caller, t) == old(self).rate_after_realize(
                        t,
                        current_round,
                    )
                &&& forall|u2: u64, t: u64|
                    u2 != caller ==> #[trigger] final(self).stored(u2, t) == old(self).stored(
                        u2,
                        t,
                    )
                &&& forall|t: u64| #[trigger] final(self).rate(t) == old(self).rate_after_realize(
                    t,
                    current_round,
                )
                &&& forall|t: u64|
                    !#[trigger] old(self).is_reward_token_spec(t) ==> final(self).stored(
                        caller,
                        t,
                    ) == old(self).stored(caller, t) && final(self).checkpoint(caller, t) == old(
                        self,
                    ).checkpoint(caller, t)
                &&& forall|u2: u64, t: u64|
                    u2 != caller ==> #[trigger] final(self).checkpoint(u2, t) == old(
                        self,
                    ).checkpoint(u2, t)
                &&& final(self).planned_distribution.distribution_plans@
                    == crate::planned_distribution::realize_plans_seq(
                    old(self).planned_distribution.distribution_plans@,
                    current_round,
                )
                &&& final(self).planned_distribution.last_distribution_round == (
                if crate::planned_distribution::any_active(
                    old(self).planned_distribution.distribution_plans@,
                    current_round,
                ) {
                    current_round as int
                } else {
                    old(self).planned_distribution.last_distribution_round as int
                })
                &&& forall|u2: u64, t: u64, n: u64| #[trigger] final(self).quantity(u2, t, n)
                    == old(self).quantity(u2, t, n)
                &&& forall|u2: u64| #[trigger] final(self).user_score(u2) == old(self).user_score(
                    u2,
                )
                &&& final(self).aggregated_score() == old(self).aggregated_score()
                &&& final(self).unstaking_items@ == old(self).unstaking_items@
            },
    {
        if self.staking_disabled {
            return Err(crate::errors::StakingError::StakingDisabled);
        }
        self.handle_claim_rewards(caller, current_round)
    }
}

} // verus!
