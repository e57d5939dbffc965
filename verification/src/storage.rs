//! The ledger's durable state.
//!
//! Everything the pool persists lives in one explicit value, passed by
//! reference into every operation: the control surface (enable switch,
//! allow-list, score overrides), each participant's holdings, the reward
//! accumulators, the distribution plans and the time-locked withdrawal
//! queue. A fresh value, as the host constructs it at deployment, starts
//! enabled, empty, and with the default unstaking penalty.

use vstd::prelude::*;

use crate::constants::UNSTAKE_PENALTY;
use crate::planned_distribution::PlannedDistributionModule;
use crate::reward_rate::RewardRateModule;
use crate::table::Table;
use crate::Payment;

verus! {

/// One time-locked withdrawal: the participant it belongs to, the moment
/// it unlocks, and the withdrawn assets it holds.
pub struct PendingUnstake {
    pub user: u64,
    pub unlock_timestamp: u64,
    pub payments: Vec<Payment>,
}

/// The staking pool's whole ledger.
pub struct NftStaking {
    /// The enable switch: while set, every mutating participant call is
    /// refused.
    pub staking_disabled: bool,
    /// The allow-list of stakeable asset collections. Keyed
    /// `(collection, 0, 0)`; presence is membership.
    pub allowed_nft_collections: Table,
    /// Collection-level score overrides. Keyed `(collection, 0, 0)`.
    pub nft_collection_score: Table,
    /// Instance-level score overrides; they take precedence over the
    /// collection level. Keyed `(collection, nonce, 0)`.
    pub nft_collection_nonce_score: Table,
    /// Holdings: how much of each asset instance each participant has
    /// staked. Keyed `(participant, collection, nonce)`; a holding that
    /// reaches zero is removed.
    pub stake_quantity: Table,
    /// Scores and reward accumulators.
    pub reward_rate: RewardRateModule,
    /// The scheduled distribution engine.
    pub planned_distribution: PlannedDistributionModule,
    /// The withdrawal queue, in order of withdrawal.
    pub unstaking_items: Vec<PendingUnstake>,
    /// Seconds a withdrawn batch stays locked, fixed when the batch is
    /// created.
    pub unstaking_penalty: u64,
}

impl NftStaking {
    /// Whether the collection may be staked.
    pub open spec fn is_allowed(self, token_id: u64) -> bool {
        self.allowed_nft_collections.contains(token_id, 0, 0)
    }

    /// How much of the asset instance the participant has staked.
    pub open spec fn quantity(self, user: u64, token_id: u64, nonce: u64) -> u128 {
        self.stake_quantity.get(user, token_id, nonce)
    }

    /// A participant's current weighted score.
    pub open spec fn user_score(self, user: u64) -> u128 {
        self.reward_rate.user_score(user)
    }

    /// The sum of every participant's score.
    pub open spec fn aggregated_score(self) -> u128 {
        self.reward_rate.aggregated_staked_score
    }

    /// A reward currency's accumulator rate.
    pub open spec fn rate(self, token_id: u64) -> u128 {
        self.reward_rate.rate(token_id)
    }

    /// Whether the currency is registered as a reward currency.
    pub open spec fn is_reward_token_spec(self, token_id: u64) -> bool {
        self.reward_rate.is_reward_token(token_id)
    }

    /// A participant's checkpoint for a reward currency.
    pub open spec fn checkpoint(self, user: u64, token_id: u64) -> u128 {
        self.reward_rate.checkpoint(user, token_id)
    }

    /// A participant's realized but unclaimed reward in a currency.
    pub open spec fn stored(self, user: u64, token_id: u64) -> u128 {
        self.reward_rate.stored(user, token_id)
    }

    /// Internal consistency of the whole ledger: every table binds each
    /// key once, the aggregated score is the sum of the participant
    /// scores, no checkpoint is ahead of its accumulator, plans are
    /// well-formed and distinct, and every plan's currency is registered.
    pub open spec fn well_formed(self) -> bool {
        &&& self.allowed_nft_collections.wf()
        &&& self.nft_collection_score.wf()
        &&& self.nft_collection_nonce_score.wf()
        &&& self.stake_quantity.wf()
        &&& self.reward_rate.wf()
        &&& self.planned_distribution.wf()
        &&& forall|i: int|
            0 <= i < self.planned_distribution.distribution_plans@.len()
                ==> self.reward_rate.is_reward_token(
                (#[trigger] self.planned_distribution.distribution_plans@[i]).token_id,
            )
    }

    /// A fresh pool: staking enabled, nothing allowed, nothing staked, no
    /// rewards, no plans, no pending withdrawals, and the default
    /// unstaking penalty.
    pub fn new() -> (r: NftStaking)
        ensures
            r.well_formed(),
            !r.staking_disabled,
            forall|t: u64| !#[trigger] r.is_allowed(t),
            forall|u: u64, t: u64, n: u64| #[trigger] r.quantity(u, t, n) == 0,
            forall|u: u64| #[trigger] r.user_score(u) == 0,
            r.aggregated_score() == 0,
            forall|t: u64| !#[trigger] r.is_reward_token_spec(t),
            forall|t: u64| #[trigger] r.rate(t) == 0,
            forall|u: u64, t: u64| #[trigger] r.checkpoint(u, t) == 0,
            forall|u: u64, t: u64| #[trigger] r.stored(u, t) == 0,
            forall|t: u64, n: u64| #[trigger] r.resolved_score(t, n)
                == crate::constants::DEFAULT_NFT_SCORE,
            r.planned_distribution.distribution_plans@ == Seq::<
                crate::planned_distribution::DistributionPlan,
            >::empty(),
            r.planned_distribution.last_distribution_round == 0,
            r.unstaking_items@ == Seq::<PendingUnstake>::empty(),
            r.unstaking_penalty == UNSTAKE_PENALTY,
    {
        let r = NftStaking {
            staking_disabled: false,
            allowed_nft_collections: Table::new(),
            nft_collection_score: Table::new(),
            nft_collection_nonce_score: Table::new(),
            stake_quantity: Table::new(),
            reward_rate: RewardRateModule::new(),
            planned_distribution: PlannedDistributionModule::new(),
            unstaking_items: Vec::new(),
            unstaking_penalty: UNSTAKE_PENALTY,
        };
        proof {
            assert(r.unstaking_items@ =~= Seq::<PendingUnstake>::empty());
        }
        r
    }
}

} // verus!
