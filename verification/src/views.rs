//! The read-only query surface.
//!
//! Everything here reports state without mutating it: holdings, scores,
//! rates, pending rewards and the withdrawal queue. Pending rewards are
//! reported against the accumulator as it stands; amounts a distribution
//! plan has vested but not yet realized are reported separately, scaled
//! by the rate denomination.

use vstd::prelude::*;

use crate::planned_distribution::DistributionPlan;
use crate::reward_rate::RewardRateModule as RewardRateState;
use crate::storage::NftStaking;
use crate::storage::PendingUnstake;
use crate::table::Record;
use crate::Payment;

verus! {

/// One time-locked withdrawal as reported to a caller: when it unlocks
/// and what it holds.
pub struct UnstakingBatch {
    pub unlock_timestamp: u64,
    pub unstake_items: Vec<Payment>,
}

impl UnstakingBatch {
    pub fn new(unlock_timestamp: u64, unstake_items: Vec<Payment>) -> (r: UnstakingBatch)
        ensures
            r.unlock_timestamp == unlock_timestamp,
            r.unstake_items == unstake_items,
    {
        UnstakingBatch { unlock_timestamp, unstake_items }
    }
}

/// A participant's complete position, in one value.
pub struct StakingInfo {
    pub staked_items: Vec<Payment>,
    pub staked_score: u128,
    pub aggregated_staked_score: u128,
    pub pending_rewards: Vec<Payment>,
    pub unstaking_items: Vec<UnstakingBatch>,
}

/// The participant's holdings as payments: every record of theirs with a
/// positive quantity, in storage order.
pub open spec fn snapshot_list(records: Seq<Record>, user: u64) -> Seq<Payment>
    decreases records.len(),
{
    if records.len() == 0 {
        Seq::empty()
    } else {
        (if records[0].k1 == user && records[0].value > 0 {
            seq![
                (Payment {
                    token_id: records[0].k2,
                    token_nonce: records[0].k3,
                    amount: records[0].value,
                }),
            ]
        } else {
            Seq::empty()
        }) + snapshot_list(records.drop_first(), user)
    }
}

/// The participant's pending reward payments over a list of currencies:
/// one payment per currency with a positive pending amount.
pub open spec fn pending_list(rr: RewardRateState, tokens: Seq<u64>, user: u64) -> Seq<Payment>
    decreases tokens.len(),
{
    if tokens.len() == 0 {
        Seq::empty()
    } else {
        (if rr.pending(user, tokens[0]) > 0 {
            seq![
                (Payment {
                    token_id: tokens[0],
                    token_nonce: 0,
                    amount: rr.pending(user, tokens[0]) as u128,
                }),
            ]
        } else {
            Seq::empty()
        }) + pending_list(rr, tokens.drop_first(), user)
    }
}

/// The participant's batches in the withdrawal queue, in order.
pub open spec fn user_batches(q: Seq<PendingUnstake>, user: u64) -> Seq<PendingUnstake>
    decreases q.len(),
{
    if q.len() == 0 {
        Seq::empty()
    } else {
        let rest = user_batches(q.drop_first(), user);
        if q[0].user == user {
            seq![q[0]] + rest
        } else {
            rest
        }
    }
}

/// The amounts every plan has vested but not yet realized at this round,
/// scaled by the rate denomination; expired plans report nothing.
pub open spec fn undistributed_list(plans: Seq<DistributionPlan>, round: u64) -> Seq<Payment>
    decreases plans.len(),
{
    if plans.len() == 0 {
        Seq::empty()
    } else {
        let rest = undistributed_list(plans.drop_first(), round);
        if plans[0].expired(round) {
            rest
        } else {
            seq![
                (Payment {
                    token_id: plans[0].token_id,
                    token_nonce: 0,
                    amount: plans[0].due_amount(round) as u128,
                }),
            ] + rest
        }
    }
}

/// The reward rate accumulator's read interface: what a pool reports
/// about its reward currencies.
pub trait RewardRateModule {
    /// The accumulator rate the implementor keeps for the currency.
    spec fn reward_rate_spec(&self, token_id: u64) -> u128;

    /// Whether the implementor has the currency on its reward register.
    spec fn reward_token_spec(&self, token_id: u64) -> bool;

    /// A reward currency's accumulator rate.
    fn get_reward_rate(&self, token_id: u64) -> (r: u128)
        ensures
            r == self.reward_rate_spec(token_id),
    ;

    /// Whether the currency is registered as a reward currency.
    fn is_reward_token(&self, token_id: u64) -> (r: bool)
        ensures
            r == self.reward_token_spec(token_id),
    ;
}

impl RewardRateModule for NftStaking {
    open spec fn reward_rate_spec(&self, token_id: u64) -> u128 {
        self.rate(token_id)
    }

    open spec fn reward_token_spec(&self, token_id: u64) -> bool {
        self.is_reward_token_spec(token_id)
    }

    fn get_reward_rate(&self, token_id: u64) -> (r: u128) {
        self.reward_rate.current_reward_rate.lookup(token_id, 0, 0)
    }

    fn is_reward_token(&self, token_id: u64) -> (r: bool) {
        self.reward_rate.current_reward_rate.has(token_id, 0, 0)
    }
}

/// The scheduled distribution engine's read interface: what a pool
/// reports about its vesting plans.
pub trait PlannedDistributionModule {
    /// The round of the last realization the implementor performed.
    spec fn last_distribution_round_spec(&self) -> u64;

    /// The round of the last realized scheduled distribution.
    fn get_last_distribution_round(&self) -> (r: u64)
        ensures
            r == self.last_distribution_round_spec(),
    ;

    /// The per-round vesting amount a plan over this range would carry,
    /// scaled by the rate denomination.
    fn get_amount_per_round(
        &self,
        start_round: u64,
        end_round: u64,
        total_distribution_amount: u128,
    ) -> (r: u128)
        requires
            start_round < end_round,
            total_distribution_amount * crate::constants::REWARD_RATE_DENOMINATION <= u128::MAX,
        ensures
            r == total_distribution_amount * crate::constants::REWARD_RATE_DENOMINATION / ((
            end_round - start_round) as int),
    ;
}

impl PlannedDistributionModule for NftStaking {
    open spec fn last_distribution_round_spec(&self) -> u64 {
        self.planned_distribution.last_distribution_round
    }

    fn get_last_distribution_round(&self) -> (r: u64) {
        self.planned_distribution.last_distribution_round
    }

    fn get_amount_per_round(
        &self,
        start_round: u64,
        end_round: u64,
        total_distribution_amount: u128,
    ) -> (r: u128) {
        crate::planned_distribution::get_amount_per_round(
            start_round,
            end_round,
            total_distribution_amount,
        )
    }
}

impl NftStaking {
    /// How much of the asset instance the participant has staked.
    pub fn get_stake_quantity(&self, user: u64, token_id: u64, nonce: u64) -> (r: u128)
        ensures
            r == self.quantity(user, token_id, nonce),
    {
        self.stake_quantity.lookup(user, token_id, nonce)
    }

    /// The participant's current weighted score.
    pub fn get_user_staking_score(&self, user: u64) -> (r: u128)
        ensures
            r == self.user_score(user),
    {
        self.reward_rate.user_staked_score.lookup(user, 0, 0)
    }

    /// The sum of every participant's score.
    pub fn get_aggregated_staking_score(&self) -> (r: u128)
        ensures
            r == self.aggregated_score(),
    {
        self.reward_rate.aggregated_staked_score
    }

    /// The reward owed to the participant in one currency beyond the
    /// stored balance.
    pub fn get_unstored_rewards_for_token(&self, user: u64, reward_token_id: u64) -> (r: u128)
        requires
            self.well_formed(),
            self.reward_rate.settle_one_fits(user, reward_token_id),
        ensures
            r == self.reward_rate.unstored(user, reward_token_id),
    {
        let current_rate = self.reward_rate.current_reward_rate.lookup(reward_token_id, 0, 0);
        let user_rate = self.reward_rate.user_reward_rate.lookup(user, reward_token_id, 0);
        proof {
            assert(self.checkpoint(user, reward_token_id) <= self.rate(reward_token_id));
        }
        let rate_diff = current_rate - user_rate;
        if rate_diff == 0 {
            proof {
                vstd::arithmetic::mul::lemma_mul_basics(self.user_score(user) as int);
                assert(0int / (crate::constants::REWARD_RATE_DENOMINATION as int) == 0);
            }
            return 0;
        }
        let score = self.reward_rate.user_staked_score.lookup(user, 0, 0);
        rate_diff * score / (crate::constants::REWARD_RATE_DENOMINATION as u128)
    }

    /// The participant's whole claimable reward in one currency, stored
    /// plus owed, as a payment; nothing when that is zero.
    pub fn get_pending_rewards_for_token(&self, user: u64, reward_token_id: u64) -> (r: Option<
        Payment,
    >)
        requires
            self.well_formed(),
            self.reward_rate.settle_one_fits(user, reward_token_id),
        ensures
            r == (if self.reward_rate.pending(user, reward_token_id) == 0 {
                None::<Payment>
            } else {
                Some(
                    (Payment {
                        token_id: reward_token_id,
                        token_nonce: 0,
                        amount: self.reward_rate.pending(user, reward_token_id) as u128,
                    }),
                )
            }),
    {
        let stored = self.reward_rate.user_stored_rewards.lookup(user, reward_token_id, 0);
        let unstored = self.get_unstored_rewards_for_token(user, reward_token_id);
        let total = stored + unstored;
        if total == 0 {
            None
        } else {
            Some(Payment { token_id: reward_token_id, token_nonce: 0, amount: total })
        }
    }

    /// The participant's whole claimable reward in one currency, zero
    /// when nothing is owed.
    pub fn get_pending_token_reward(&self, user: u64, token_id: u64) -> (r: u128)
        requires
            self.well_formed(),
            self.reward_rate.settle_one_fits(user, token_id),
        ensures
            r == self.reward_rate.pending(user, token_id),
    {
        match self.get_pending_rewards_for_token(user, token_id) {
            Some(payment) => payment.amount,
            None => 0,
        }
    }

    /// The participant's pending reward payments over the given
    /// currencies, skipping those with nothing owed.
    pub fn get_pending_rewards(&self, user: u64, reward_token_ids: &Vec<u64>) -> (r: Vec<Payment>)
        requires
            self.well_formed(),
            forall|j: int|
                0 <= j < reward_token_ids@.len() ==> self.reward_rate.settle_one_fits(
                    user,
                    #[trigger] reward_token_ids@[j],
                ),
        ensures
            r@ == pending_list(self.reward_rate, reward_token_ids@, user),
    {
        let ghost ts = reward_token_ids@;
        let n = reward_token_ids.len();
        let mut r: Vec<Payment> = Vec::new();
        let mut i: usize = 0;
        proof {
            assert(ts.subrange(0, 0) =~= Seq::<u64>::empty());
            assert(pending_list(self.reward_rate, ts.subrange(0, 0), user) =~= Seq::<
                Payment,
            >::empty());
            assert(r@ =~= Seq::<Payment>::empty());
        }
        while i < n
            invariant
                n == ts.len(),
                reward_token_ids@ == ts,
                i <= n,
                self.well_formed(),
                forall|j: int|
                    0 <= j < n ==> self.reward_rate.settle_one_fits(user, #[trigger] ts[j]),
                r@ == pending_list(self.reward_rate, ts.subrange(0, i as int), user),
            decreases n - i,
        {
            let token = reward_token_ids[i];
            proof {
                lemma_pending_list_push(
                    self.reward_rate,
                    ts.subrange(0, i as int),
                    token,
                    user,
                );
                assert(ts.subrange(0, i as int).push(token) =~= ts.subrange(0, i as int + 1));
            }
            match self.get_pending_rewards_for_token(user, token) {
                Some(payment) => {
                    r.push(payment);
                },
                None => {},
            }
            i += 1;
        }
        proof {
            assert(ts.subrange(0, n as int) =~= ts);
        }
        r
    }

    /// The participant's holdings, one payment per staked instance.
    pub fn get_staked_items_snapshot(&self, user: u64) -> (r: Vec<Payment>)
        ensures
            r@ == snapshot_list(self.stake_quantity.records@, user),
    {
        let ghost recs = self.stake_quantity.records@;
        let n = self.stake_quantity.len();
        let mut r: Vec<Payment> = Vec::new();
        let mut i: usize = 0;
        proof {
            assert(recs.subrange(0, 0) =~= Seq::<Record>::empty());
            assert(snapshot_list(recs.subrange(0, 0), user) =~= Seq::<Payment>::empty());
            assert(r@ =~= Seq::<Payment>::empty());
        }
        while i < n
            invariant
                n == recs.len(),
                self.stake_quantity.records@ == recs,
                i <= n,
                r@ == snapshot_list(recs.subrange(0, i as int), user),
            decreases n - i,
        {
            let rec = self.stake_quantity.record_at(i);
            proof {
                lemma_snapshot_list_push(recs.subrange(0, i as int), rec, user);
                assert(recs.subrange(0, i as int).push(rec) =~= recs.subrange(0, i as int + 1));
            }
            if rec.k1 == user && rec.value > 0 {
                r.push(Payment { token_id: rec.k2, token_nonce: rec.k3, amount: rec.value });
            }
            i += 1;
        }
        proof {
            assert(recs.subrange(0, n as int) =~= recs);
        }
        r
    }

    /// The participant's batches waiting in the withdrawal queue.
    pub fn get_unstaking_items(&self, user: u64) -> (r: Vec<UnstakingBatch>)
        ensures
            r@.len() == user_batches(self.unstaking_items@, user).len(),
            forall|k: int|
                0 <= k < r@.len() ==> (#[trigger] r@[k]).unlock_timestamp == user_batches(
                    self.unstaking_items@,
                    user,
                )[k].unlock_timestamp && r@[k].unstake_items@ == user_batches(
                    self.unstaking_items@,
                    user,
                )[k].payments@,
    {
        let ghost q = self.unstaking_items@;
        let n = self.unstaking_items.len();
        let mut r: Vec<UnstakingBatch> = Vec::new();
        let mut i: usize = 0;
        proof {
            assert(q.subrange(0, 0) =~= Seq::<PendingUnstake>::empty());
            assert(user_batches(q.subrange(0, 0), user) =~= Seq::<PendingUnstake>::empty());
        }
        while i < n
            invariant
                n == q.len(),
                self.unstaking_items@ == q,
                i <= n,
                r@.len() == user_batches(q.subrange(0, i as int), user).len(),
                forall|k: int|
                    0 <= k < r@.len() ==> (#[trigger] r@[k]).unlock_timestamp == user_batches(
                        q.subrange(0, i as int),
                        user,
                    )[k].unlock_timestamp && r@[k].unstake_items@ == user_batches(
                        q.subrange(0, i as int),
                        user,
                    )[k].payments@,
            decreases n - i,
        {
            let ghost prefix = q.subrange(0, i as int);
            proof {
                lemma_user_batches_push(prefix, q[i as int], user);
                assert(prefix.push(q[i as int]) =~= q.subrange(0, i as int + 1));
            }
            let batch = &self.unstaking_items[i];
            if batch.user == user {
                let items = crate::core_logic::clone_payments(&batch.payments);
                r.push(UnstakingBatch::new(batch.unlock_timestamp, items));
            }
            i += 1;
        }
        proof {
            assert(q.subrange(0, n as int) =~= q);
        }
        r
    }

    /// The stored distribution plans, with their parameters and cursors.
    pub fn get_distribution_plans(&self) -> (r: Vec<DistributionPlan>)
        ensures
            r@ == self.planned_distribution.distribution_plans@,
    {
        let n = self.planned_distribution.distribution_plans.len();
        let mut r: Vec<DistributionPlan> = Vec::new();
        let mut i: usize = 0;
        while i < n
            invariant
                n == self.planned_distribution.distribution_plans@.len(),
                i <= n,
                r@ == self.planned_distribution.distribution_plans@.subrange(0, i as int),
            decreases n - i,
        {
            r.push(self.planned_distribution.distribution_plans[i]);
            proof {
                assert(self.planned_distribution.distribution_plans@.subrange(0, i as int).push(
                    self.planned_distribution.distribution_plans@[i as int],
                ) =~= self.planned_distribution.distribution_plans@.subrange(0, i as int + 1));
            }
            i += 1;
        }
        proof {
            assert(self.planned_distribution.distribution_plans@.subrange(0, n as int)
                =~= self.planned_distribution.distribution_plans@);
        }
        r
    }

    /// The scaled amounts every plan has vested but not yet realized at
    /// this round.
    pub fn get_all_planned_undistributed_rewards(&self, current_round: u64) -> (r: Vec<Payment>)
        requires
            self.well_formed(),
        ensures
            r@ == undistributed_list(self.planned_distribution.distribution_plans@, current_round),
    {
        let ghost plans = self.planned_distribution.distribution_plans@;
        let n = self.planned_distribution.distribution_plans.len();
        let mut r: Vec<Payment> = Vec::new();
        let mut i: usize = 0;
        proof {
            assert(plans.subrange(0, 0) =~= Seq::<DistributionPlan>::empty());
            assert(undistributed_list(plans.subrange(0, 0), current_round) =~= Seq::<
                Payment,
            >::empty());
            assert(r@ =~= Seq::<Payment>::empty());
        }
        while i < n
            invariant
                n == plans.len(),
                self.planned_distribution.distribution_plans@ == plans,
                i <= n,
                self.well_formed(),
                r@ == undistributed_list(plans.subrange(0, i as int), current_round),
            decreases n - i,
        {
            let plan = self.planned_distribution.distribution_plans[i];
            proof {
                lemma_undistributed_list_push(plans.subrange(0, i as int), plan, current_round);
                assert(plans.subrange(0, i as int).push(plan) =~= plans.subrange(
                    0,
                    i as int + 1,
                ));
            }
            match crate::planned_distribution::get_amount_to_distribute(&plan, current_round) {
                Some(amount) => {
                    r.push(Payment { token_id: plan.token_id, token_nonce: 0, amount });
                },
                None => {},
            }
            i += 1;
        }
        proof {
            assert(plans.subrange(0, n as int) =~= plans);
        }
        r
    }

    /// The participant's complete position: holdings, scores, pending
    /// rewards over every registered currency, and queued withdrawals.
    pub fn get_staking_info(&self, user: u64) -> (r: StakingInfo)
        requires
            self.well_formed(),
            self.reward_rate.settle_all_fits(user),
        ensures
            r.staked_items@ == snapshot_list(self.stake_quantity.records@, user),
            r.staked_score == self.user_score(user),
            r.aggregated_staked_score == self.aggregated_score(),
            r.pending_rewards@ == pending_list(
                self.reward_rate,
                self.reward_rate.current_reward_rate.records@.map_values(|rec: Record| rec.k1),
                user,
            ),
            r.unstaking_items@.len() == user_batches(self.unstaking_items@, user).len(),
            forall|k: int|
                0 <= k < r.unstaking_items@.len() ==> (#[trigger] r.unstaking_items@[k]).unlock_timestamp
                    == user_batches(self.unstaking_items@, user)[k].unlock_timestamp
                    && r.unstaking_items@[k].unstake_items@ == user_batches(
                    self.unstaking_items@,
                    user,
                )[k].payments@,
    {
        let pending_rewards = self.get_pending_rewards_view(user);
        StakingInfo {
            staked_items: self.get_staked_items_snapshot(user),
            staked_score: self.get_user_staking_score(user),
            aggregated_staked_score: self.get_aggregated_staking_score(),
            pending_rewards,
            unstaking_items: self.get_unstaking_items(user),
        }
    }

    /// The participant's pending reward payments over every registered
    /// currency.
    pub fn get_pending_rewards_view(&self, user: u64) -> (r: Vec<Payment>)
        requires
            self.well_formed(),
            self.reward_rate.settle_all_fits(user),
        ensures
            r@ == pending_list(
                self.reward_rate,
                self.reward_rate.current_reward_rate.records@.map_values(|rec: Record| rec.k1),
                user,
            ),
    {
        let ghost regs = self.reward_rate.current_reward_rate.records@;
        let n = self.reward_rate.current_reward_rate.len();
        let mut reward_token_ids: Vec<u64> = Vec::new();
        let mut i: usize = 0;
        proof {
            assert(reward_token_ids@ =~= regs.subrange(0, 0).map_values(|rec: Record| rec.k1));
        }
        while i < n
            invariant
                n == regs.len(),
                self.reward_rate.current_reward_rate.records@ == regs,
                i <= n,
                reward_token_ids@ == regs.subrange(0, i as int).map_values(
                    |rec: Record| rec.k1,
                ),
            decreases n - i,
        {
            let rec = self.reward_rate.current_reward_rate.record_at(i);
            reward_token_ids.push(rec.k1);
            proof {
                assert(regs.subrange(0, i as int).map_values(|rec2: Record| rec2.k1).push(
                    rec.k1,
                ) =~= regs.subrange(0, i as int + 1).map_values(|rec2: Record| rec2.k1));
            }
            i += 1;
        }
        proof {
            assert(regs.subrange(0, n as int) =~= regs);
            assert forall|j: int|
                0 <= j < reward_token_ids@.len() implies self.reward_rate.settle_one_fits(
                user,
                #[trigger] reward_token_ids@[j],
            ) by {
                assert(reward_token_ids@ == regs.map_values(|rec: Record| rec.k1));
                assert(regs.map_values(|rec: Record| rec.k1)[j] == regs[j].k1);
                assert(reward_token_ids@[j] == regs[j].k1);
                assert(regs[j].k2 == 0 && regs[j].k3 == 0);
                assert(crate::table::key_matches(regs[j], regs[j].k1, 0, 0));
                crate::table::lemma_find_none_iff_no_match(regs, regs[j].k1, 0, 0);
                assert(self.reward_rate.is_reward_token(regs[j].k1));
            }
        }
        self.get_pending_rewards(user, &reward_token_ids)
    }
}

impl NftStaking {
    /// The share of the not-yet-realized planned rewards that would fall
    /// to the participant if every plan were realized at this round and
    /// the participant settled: one payment per active plan with a
    /// positive share.
    pub fn get_user_undistributed_rewards_share(&self, user: u64, current_round: u64) -> (r: Vec<
        Payment,
    >)
        requires
            self.well_formed(),
            forall|i: int|
                0 <= i < self.planned_distribution.distribution_plans@.len()
                    ==> crate::planned_distribution::plan_increment(
                    #[trigger] self.planned_distribution.distribution_plans@[i],
                    current_round,
                    self.aggregated_score(),
                ) * self.user_score(user) <= u128::MAX,
        ensures
            r@ == user_share_list(
                self.planned_distribution.distribution_plans@,
                user,
                current_round,
                self.aggregated_score(),
                self.user_score(user),
            ),
    {
        let ghost plans = self.planned_distribution.distribution_plans@;
        let ghost agg = self.aggregated_score();
        let score = self.get_user_staking_score(user);
        let aggregated = self.get_aggregated_staking_score();
        let n = self.planned_distribution.distribution_plans.len();
        let mut r: Vec<Payment> = Vec::new();
        let mut i: usize = 0;
        proof {
            assert(plans.subrange(0, 0) =~= Seq::<DistributionPlan>::empty());
            assert(user_share_list(plans.subrange(0, 0), user, current_round, agg, score) =~= Seq::<
                Payment,
            >::empty());
            assert(r@ =~= Seq::<Payment>::empty());
        }
        while i < n
            invariant
                n == plans.len(),
                self.planned_distribution.distribution_plans@ == plans,
                i <= n,
                self.well_formed(),
                agg == self.aggregated_score(),
                aggregated == agg,
                score == self.user_score(user),
                forall|j: int|
                    0 <= j < n ==> crate::planned_distribution::plan_increment(
                        #[trigger] plans[j],
                        current_round,
                        agg,
                    ) * score <= u128::MAX,
                r@ == user_share_list(plans.subrange(0, i as int), user, current_round, agg, score),
            decreases n - i,
        {
            let plan = self.planned_distribution.distribution_plans[i];
            proof {
                lemma_user_share_list_push(
                    plans.subrange(0, i as int),
                    plan,
                    user,
                    current_round,
                    agg,
                    score,
                );
                assert(plans.subrange(0, i as int).push(plan) =~= plans.subrange(
                    0,
                    i as int + 1,
                ));
            }
            match crate::planned_distribution::get_amount_to_distribute(&plan, current_round) {
                Some(amount) => {
                    if aggregated > 0 {
                        let increment = amount / aggregated;
                        proof {
                            assert(plan == plans[i as int]);
                            assert(plan.wf());
                            crate::planned_distribution::lemma_due_le_range(plan, current_round);
                            assert(amount as int == plan.due_amount(current_round));
                            assert(crate::planned_distribution::plan_increment(
                                plans[i as int],
                                current_round,
                                agg,
                            ) * score <= u128::MAX);
                            assert(increment as int == crate::planned_distribution::plan_increment(
                                plan,
                                current_round,
                                agg,
                            ));
                        }
                        let share = increment * score
                            / (crate::constants::REWARD_RATE_DENOMINATION as u128);
                        if share > 0 {
                            r.push(Payment { token_id: plan.token_id, token_nonce: 0, amount: share });
                        }
                    } else {
                        proof {
                            assert(crate::planned_distribution::plan_increment(
                                plan,
                                current_round,
                                agg,
                            ) == 0);
                            vstd::arithmetic::mul::lemma_mul_basics(score as int);
                            assert(0int / (crate::constants::REWARD_RATE_DENOMINATION as int)
                                == 0);
                        }
                    }
                },
                None => {},
            }
            i += 1;
        }
        proof {
            assert(plans.subrange(0, n as int) =~= plans);
        }
        r
    }
}

/// The participant's share of each active plan's not-yet-realized vested
/// amount: the plan's rate increment, weighted by the participant's
/// score, skipping zero shares and expired plans.
pub open spec fn user_share_list(
    plans: Seq<DistributionPlan>,
    user: u64,
    round: u64,
    aggregated: u128,
    score: u128,
) -> Seq<Payment>
    decreases plans.len(),
{
    if plans.len() == 0 {
        Seq::empty()
    } else {
        let rest = user_share_list(plans.drop_first(), user, round, aggregated, score);
        let share = crate::planned_distribution::plan_increment(plans[0], round, aggregated)
            * score / (crate::constants::REWARD_RATE_DENOMINATION as int);
        if !plans[0].expired(round) && share > 0 {
            seq![(Payment { token_id: plans[0].token_id, token_nonce: 0, amount: share as u128 })]
                + rest
        } else {
            rest
        }
    }
}

/// Appending one plan appends its share payment, if it has one.
proof fn lemma_user_share_list_push(
    plans: Seq<DistributionPlan>,
    p: DistributionPlan,
    user: u64,
    round: u64,
    aggregated: u128,
    score: u128,
)
    ensures
        user_share_list(plans.push(p), user, round, aggregated, score) == ({
            let share = crate::planned_distribution::plan_increment(p, round, aggregated) * score
                / (crate::constants::REWARD_RATE_DENOMINATION as int);
            if !p.expired(round) && share > 0 {
                user_share_list(plans, user, round, aggregated, score).push(
                    (Payment { token_id: p.token_id, token_nonce: 0, amount: share as u128 }),
                )
            } else {
                user_share_list(plans, user, round, aggregated, score)
            }
        }),
    decreases plans.len(),
{
    let share = crate::planned_distribution::plan_increment(p, round, aggregated) * score / (
    crate::constants::REWARD_RATE_DENOMINATION as int);
    if plans.len() == 0 {
        assert(plans.push(p)[0] == p);
        assert(plans.push(p).drop_first() =~= Seq::<DistributionPlan>::empty());
        assert(user_share_list(plans.push(p).drop_first(), user, round, aggregated, score) =~= Seq::<
            Payment,
        >::empty());
        if !p.expired(round) && share > 0 {
            assert(seq![
                (Payment { token_id: p.token_id, token_nonce: 0, amount: share as u128 }),
            ] + Seq::<Payment>::empty() =~= user_share_list(plans, user, round, aggregated, score).push(
                (Payment { token_id: p.token_id, token_nonce: 0, amount: share as u128 }),
            ));
        }
    } else {
        assert(plans.push(p)[0] == plans[0]);
        assert(plans.push(p).drop_first() =~= plans.drop_first().push(p));
        lemma_user_share_list_push(plans.drop_first(), p, user, round, aggregated, score);
        let head_share = crate::planned_distribution::plan_increment(plans[0], round, aggregated)
            * score / (crate::constants::REWARD_RATE_DENOMINATION as int);
        if !p.expired(round) && share > 0 && !plans[0].expired(round) && head_share > 0 {
            let pay = Payment { token_id: p.token_id, token_nonce: 0, amount: share as u128 };
            let h = Payment {
                token_id: plans[0].token_id,
                token_nonce: 0,
                amount: head_share as u128,
            };
            assert(seq![h] + user_share_list(plans.drop_first(), user, round, aggregated, score).push(
                pay,
            ) =~= (seq![h] + user_share_list(plans.drop_first(), user, round, aggregated, score)).push(
                pay,
            ));
        }
    }
}

/// Appending one currency appends its pending payment, if any.
proof fn lemma_pending_list_push(rr: RewardRateState, tokens: Seq<u64>, t: u64, user: u64)
    ensures
        pending_list(rr, tokens.push(t), user) == if rr.pending(user, t) > 0 {
            pending_list(rr, tokens, user).push(
                (Payment { token_id: t, token_nonce: 0, amount: rr.pending(user, t) as u128 }),
            )
        } else {
            pending_list(rr, tokens, user)
        },
    decreases tokens.len(),
{
    if tokens.len() == 0 {
        assert(tokens.push(t)[0] == t);
        assert(tokens.push(t).drop_first() =~= Seq::<u64>::empty());
        assert(pending_list(rr, tokens.push(t).drop_first(), user) =~= Seq::<Payment>::empty());
        if rr.pending(user, t) > 0 {
            assert(seq![
                (Payment { token_id: t, token_nonce: 0, amount: rr.pending(user, t) as u128 }),
            ] + Seq::<Payment>::empty() =~= pending_list(rr, tokens, user).push(
                (Payment { token_id: t, token_nonce: 0, amount: rr.pending(user, t) as u128 }),
            ));
        } else {
            assert(Seq::<Payment>::empty() + Seq::<Payment>::empty() =~= pending_list(
                rr,
                tokens,
                user,
            ));
        }
    } else {
        assert(tokens.push(t)[0] == tokens[0]);
        assert(tokens.push(t).drop_first() =~= tokens.drop_first().push(t));
        lemma_pending_list_push(rr, tokens.drop_first(), t, user);
        if rr.pending(user, t) > 0 {
            let p = Payment { token_id: t, token_nonce: 0, amount: rr.pending(user, t) as u128 };
            if rr.pending(user, tokens[0]) > 0 {
                let h = Payment {
                    token_id: tokens[0],
                    token_nonce: 0,
                    amount: rr.pending(user, tokens[0]) as u128,
                };
                assert(seq![h] + pending_list(rr, tokens.drop_first(), user).push(p) =~= (seq![h]
                    + pending_list(rr, tokens.drop_first(), user)).push(p));
            } else {
                assert(Seq::<Payment>::empty() + pending_list(rr, tokens.drop_first(), user).push(
                    p,
                ) =~= (Seq::<Payment>::empty() + pending_list(rr, tokens.drop_first(), user)).push(
                    p,
                ));
            }
        }
    }
}

/// Appending one record appends its snapshot payment, if it belongs to
/// the participant and holds anything.
proof fn lemma_snapshot_list_push(records: Seq<Record>, rec: Record, user: u64)
    ensures
        snapshot_list(records.push(rec), user) == if rec.k1 == user && rec.value > 0 {
            snapshot_list(records, user).push(
                (Payment { token_id: rec.k2, token_nonce: rec.k3, amount: rec.value }),
            )
        } else {
            snapshot_list(records, user)
        },
    decreases records.len(),
{
    if records.len() == 0 {
        assert(records.push(rec)[0] == rec);
        assert(records.push(rec).drop_first() =~= Seq::<Record>::empty());
        assert(snapshot_list(records.push(rec).drop_first(), user) =~= Seq::<Payment>::empty());
        if rec.k1 == user && rec.value > 0 {
            assert(seq![
                (Payment { token_id: rec.k2, token_nonce: rec.k3, amount: rec.value }),
            ] + Seq::<Payment>::empty() =~= snapshot_list(records, user).push(
                (Payment { token_id: rec.k2, token_nonce: rec.k3, amount: rec.value }),
            ));
        } else {
            assert(Seq::<Payment>::empty() + Seq::<Payment>::empty() =~= snapshot_list(
                records,
                user,
            ));
        }
    } else {
        assert(records.push(rec)[0] == records[0]);
        assert(records.push(rec).drop_first() =~= records.drop_first().push(rec));
        lemma_snapshot_list_push(records.drop_first(), rec, user);
        if rec.k1 == user && rec.value > 0 {
            let p = Payment { token_id: rec.k2, token_nonce: rec.k3, amount: rec.value };
            if records[0].k1 == user && records[0].value > 0 {
                let h = Payment {
                    token_id: records[0].k2,
                    token_nonce: records[0].k3,
                    amount: records[0].value,
                };
                assert(seq![h] + snapshot_list(records.drop_first(), user).push(p) =~= (seq![h]
                    + snapshot_list(records.drop_first(), user)).push(p));
            } else {
                assert(Seq::<Payment>::empty() + snapshot_list(records.drop_first(), user).push(
                    p,
                ) =~= (Seq::<Payment>::empty() + snapshot_list(records.drop_first(), user)).push(
                    p,
                ));
            }
        }
    }
}

/// Appending one batch appends it to the participant's batches, if it is
/// theirs.
proof fn lemma_user_batches_push(q: Seq<PendingUnstake>, b: PendingUnstake, user: u64)
    ensures
        user_batches(q.push(b), user) == if b.user == user {
            user_batches(q, user).push(b)
        } else {
            user_batches(q, user)
        },
    decreases q.len(),
{
    if q.len() == 0 {
        assert(q.push(b)[0] == b);
        assert(q.push(b).drop_first() =~= Seq::<PendingUnstake>::empty());
        assert(user_batches(q.push(b).drop_first(), user) =~= Seq::<PendingUnstake>::empty());
        if b.user == user {
            assert(seq![b] + Seq::<PendingUnstake>::empty() =~= user_batches(q, user).push(b));
        }
    } else {
        assert(q.push(b)[0] == q[0]);
        assert(q.push(b).drop_first() =~= q.drop_first().push(b));
        lemma_user_batches_push(q.drop_first(), b, user);
        if b.user == user && q[0].user == user {
            assert(seq![q[0]] + user_batches(q.drop_first(), user).push(b) =~= (seq![q[0]]
                + user_batches(q.drop_first(), user)).push(b));
        }
    }
}

/// Appending one plan appends its undistributed payment, if it is not
/// expired.
proof fn lemma_undistributed_list_push(plans: Seq<DistributionPlan>, p: DistributionPlan, round: u64)
    ensures
        undistributed_list(plans.push(p), round) == if p.expired(round) {
            undistributed_list(plans, round)
        } else {
            undistributed_list(plans, round).push(
                (Payment { token_id: p.token_id, token_nonce: 0, amount: p.due_amount(round) as u128 }),
            )
        },
    decreases plans.len(),
{
    if plans.len() == 0 {
        assert(plans.push(p)[0] == p);
        assert(plans.push(p).drop_first() =~= Seq::<DistributionPlan>::empty());
        assert(undistributed_list(plans.push(p).drop_first(), round) =~= Seq::<Payment>::empty());
        if !p.expired(round) {
            assert(seq![
                (Payment { token_id: p.token_id, token_nonce: 0, amount: p.due_amount(round) as u128 }),
            ] + Seq::<Payment>::empty() =~= undistributed_list(plans, round).push(
                (Payment { token_id: p.token_id, token_nonce: 0, amount: p.due_amount(round) as u128 }),
            ));
        }
    } else {
        assert(plans.push(p)[0] == plans[0]);
        assert(plans.push(p).drop_first() =~= plans.drop_first().push(p));
        lemma_undistributed_list_push(plans.drop_first(), p, round);
        if !p.expired(round) && !plans[0].expired(round) {
            let pay = Payment {
                token_id: p.token_id,
                token_nonce: 0,
                amount: p.due_amount(round) as u128,
            };
            let h = Payment {
                token_id: plans[0].token_id,
                token_nonce: 0,
                amount: plans[0].due_amount(round) as u128,
            };
            assert(seq![h] + undistributed_list(plans.drop_first(), round).push(pay) =~= (seq![h]
                + undistributed_list(plans.drop_first(), round)).push(pay));
        }
    }
}

} // verus!
