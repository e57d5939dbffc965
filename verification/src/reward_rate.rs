//! The pull-based reward distribution primitive.
//!
//! Per reward currency the pool keeps a monotonic fixed-point rate: the
//! cumulative reward ever distributed per unit of staked score, scaled by
//! [`REWARD_RATE_DENOMINATION`]. Per participant and currency it keeps a
//! checkpoint (the rate last observed) and a stored balance (realized but
//! unclaimed reward). Settling a participant moves the reward owed since
//! their checkpoint into the stored balance and advances the checkpoint;
//! a participant's score is zero until their first deposit, so a new
//! entrant is owed nothing from before they joined.

use vstd::prelude::*;

use crate::constants::REWARD_RATE_DENOMINATION;
use crate::table::lemma_find_le_total;
use crate::table::lemma_find_none_iff_no_match;
use crate::table::key_matches;
use crate::table::Record;
use crate::table::Table;
use crate::Payment;

verus! {

/// Score bookkeeping and reward-rate accumulators.
pub struct RewardRateModule {
    /// Participant -> current weighted score. Keyed `(user, 0, 0)`.
    pub user_staked_score: Table,
    /// Sum of every participant's score, maintained incrementally.
    pub aggregated_staked_score: u128,
    /// Reward currency -> accumulator rate. Keyed `(token, 0, 0)`; a key
    /// present here is a registered reward currency.
    pub current_reward_rate: Table,
    /// (participant, currency) -> checkpoint: the accumulator value the
    /// participant last settled against. Keyed `(user, token, 0)`; an
    /// absent key reads as a checkpoint of zero.
    pub user_reward_rate: Table,
    /// (participant, currency) -> realized but unclaimed reward.
    /// Keyed `(user, token, 0)`.
    pub user_stored_rewards: Table,
}

impl RewardRateModule {
    /// A participant's current weighted score.
    pub open spec fn user_score(self, user: u64) -> u128 {
        self.user_staked_score.get(user, 0, 0)
    }

    /// The accumulator rate of a reward currency.
    pub open spec fn rate(self, token: u64) -> u128 {
        self.current_reward_rate.get(token, 0, 0)
    }

    /// Whether the currency is registered as a reward currency.
    pub open spec fn is_reward_token(self, token: u64) -> bool {
        self.current_reward_rate.contains(token, 0, 0)
    }

    /// The accumulator value a participant last settled against.
    pub open spec fn checkpoint(self, user: u64, token: u64) -> u128 {
        self.user_reward_rate.get(user, token, 0)
    }

    /// A participant's realized but unclaimed reward in a currency.
    pub open spec fn stored(self, user: u64, token: u64) -> u128 {
        self.user_stored_rewards.get(user, token, 0)
    }

    /// Reward owed since the participant's checkpoint, not yet realized.
    pub open spec fn unstored(self, user: u64, token: u64) -> int {
        (self.rate(token) - self.checkpoint(user, token)) * self.user_score(user)
            / (REWARD_RATE_DENOMINATION as int)
    }

    /// Realized plus owed-but-unrealized reward.
    pub open spec fn pending(self, user: u64, token: u64) -> int {
        self.stored(user, token) + self.unstored(user, token)
    }

    /// Internal consistency:
    /// - each table binds a key at most once;
    /// - score keys and currency keys use only their own components;
    /// - the aggregated score is exactly the sum of all participant scores;
    /// - no checkpoint is ahead of its currency's accumulator.
    pub open spec fn wf(self) -> bool {
        &&& self.user_staked_score.wf()
        &&& self.current_reward_rate.wf()
        &&& self.user_reward_rate.wf()
        &&& self.user_stored_rewards.wf()
        &&& self.user_staked_score.keys_shaped(0, 0)
        &&& self.current_reward_rate.keys_shaped(0, 0)
        &&& self.aggregated_staked_score == self.user_staked_score.total()
        &&& forall|u: u64, t: u64| #[trigger] self.checkpoint(u, t) <= self.rate(t)
    }

    /// The bounds under which settling one currency stays inside machine
    /// integers: the owed product and the grown stored balance both fit.
    pub open spec fn settle_one_fits(self, user: u64, token: u64) -> bool {
        &&& (self.rate(token) - self.checkpoint(user, token)) * self.user_score(user)
            <= u128::MAX
        &&& self.stored(user, token) + self.unstored(user, token) <= u128::MAX
    }

    /// The same bounds for every registered reward currency.
    pub open spec fn settle_all_fits(self, user: u64) -> bool {
        forall|t: u64| #[trigger] self.is_reward_token(t) ==> self.settle_one_fits(user, t)
    }

    /// An empty accumulator: no scores, no currencies, no balances.
    pub fn new() -> (r: RewardRateModule)
        ensures
            r.wf(),
            r.aggregated_staked_score == 0,
            forall|u: u64| #[trigger] r.user_score(u) == 0,
            forall|t: u64| !#[trigger] r.is_reward_token(t),
            forall|t: u64| #[trigger] r.rate(t) == 0,
            forall|u: u64, t: u64| #[trigger] r.checkpoint(u, t) == 0,
            forall|u: u64, t: u64| #[trigger] r.stored(u, t) == 0,
    {
        RewardRateModule {
            user_staked_score: Table::new(),
            aggregated_staked_score: 0,
            current_reward_rate: Table::new(),
            user_reward_rate: Table::new(),
            user_stored_rewards: Table::new(),
        }
    }

    /// Raise a participant's score and the aggregated score together.
    pub fn handle_increase_staked_score(&mut self, user: u64, amount: u128)
        requires
            old(self).wf(),
            old(self).aggregated_staked_score + amount <= u128::MAX,
        ensures
            final(self).wf(),
            final(self).user_score(user) == old(self).user_score(user) + amount,
            forall|u: u64| u != user ==> #[trigger] final(self).user_score(u) == old(
                self,
            ).user_score(u),
            final(self).aggregated_staked_score == old(self).aggregated_staked_score + amount,
            final(self).current_reward_rate == old(self).current_reward_rate,
            final(self).user_reward_rate == old(self).user_reward_rate,
            final(self).user_stored_rewards == old(self).user_stored_rewards,
    {
        proof {
            if old(self).user_staked_score.contains(user, 0, 0) {
                lemma_find_le_total(old(self).user_staked_score.records@, user, 0, 0);
            }
        }
        self.user_staked_score.add_to(user, 0, 0, amount);
        self.aggregated_staked_score = self.aggregated_staked_score + amount;
        proof {
            assert forall|u: u64, t: u64| #[trigger] self.checkpoint(u, t) <= self.rate(t) by {
                assert(old(self).checkpoint(u, t) <= old(self).rate(t));
                assert(self.checkpoint(u, t) == old(self).checkpoint(u, t));
                assert(self.rate(t) == old(self).rate(t));
            }
        }
    }

    /// Lower a participant's score and the aggregated score together.
    pub fn handle_decrease_staked_score(&mut self, user: u64, amount: u128)
        requires
            old(self).wf(),
            amount <= old(self).user_score(user),
        ensures
            final(self).wf(),
            final(self).user_score(user) == old(self).user_score(user) - amount,
            forall|u: u64| u != user ==> #[trigger] final(self).user_score(u) == old(
                self,
            ).user_score(u),
            final(self).aggregated_staked_score == old(self).aggregated_staked_score - amount,
            final(self).current_reward_rate == old(self).current_reward_rate,
            final(self).user_reward_rate == old(self).user_reward_rate,
            final(self).user_stored_rewards == old(self).user_stored_rewards,
    {
        proof {
            if old(self).user_staked_score.contains(user, 0, 0) {
                lemma_find_le_total(old(self).user_staked_score.records@, user, 0, 0);
            }
        }
        self.user_staked_score.sub_from(user, 0, 0, amount);
        self.aggregated_staked_score = self.aggregated_staked_score - amount;
        proof {
            assert forall|u: u64, t: u64| #[trigger] self.checkpoint(u, t) <= self.rate(t) by {
                assert(old(self).checkpoint(u, t) <= old(self).rate(t));
                assert(self.checkpoint(u, t) == old(self).checkpoint(u, t));
                assert(self.rate(t) == old(self).rate(t));
            }
        }
    }

    /// Put a currency on the reward register, leaving its rate (zero for a
    /// new currency) as it is.
    pub fn register_reward_token(&mut self, token: u64)
        requires
            old(self).wf(),
        ensures
            final(self).wf(),
            final(self).is_reward_token(token),
            forall|t: u64| t != token ==> #[trigger] final(self).is_reward_token(t) == old(
                self,
            ).is_reward_token(t),
            forall|t: u64| #[trigger] final(self).rate(t) == old(self).rate(t),
            final(self).user_staked_score == old(self).user_staked_score,
            final(self).aggregated_staked_score == old(self).aggregated_staked_score,
            final(self).user_reward_rate == old(self).user_reward_rate,
            final(self).user_stored_rewards == old(self).user_stored_rewards,
    {
        if !self.current_reward_rate.has(token, 0, 0) {
            self.current_reward_rate.set(token, 0, 0, 0);
            proof {
                assert forall|u: u64, t: u64| #[trigger] self.checkpoint(u, t) <= self.rate(t) by {
                    assert(old(self).checkpoint(u, t) <= old(self).rate(t));
                    assert(self.checkpoint(u, t) == old(self).checkpoint(u, t));
                    if t != token {
                        assert(self.rate(t) == old(self).rate(t));
                    }
                }
            }
        }
    }

    /// Spread an already-scaled reward amount over the aggregated score by
    /// raising the currency's accumulator rate. With nothing staked the
    /// deposit is absorbed as a no-op: the rate must never divide by zero.
    pub fn handle_increase_reward_rate_raw(&mut self, token: u64, amount: u128)
        requires
            old(self).wf(),
            old(self).is_reward_token(token),
            old(self).aggregated_staked_score > 0 ==> old(self).rate(token) + amount / old(
                self,
            ).aggregated_staked_score <= u128::MAX,
        ensures
            final(self).wf(),
            final(self).rate(token) == if old(self).aggregated_staked_score == 0 {
                old(self).rate(token) as int
            } else {
                old(self).rate(token) + amount / old(self).aggregated_staked_score
            },
            forall|t: u64| t != token ==> #[trigger] final(self).rate(t) == old(self).rate(t),
            forall|t: u64| #[trigger] final(self).is_reward_token(t) == old(self).is_reward_token(
                t,
            ),
            final(self).current_reward_rate.records@.len() == old(
                self,
            ).current_reward_rate.records@.len(),
            forall|i: int|
                0 <= i < old(self).current_reward_rate.records@.len()
                    ==> (#[trigger] final(self).current_reward_rate.records@[i]).k1 == old(
                    self,
                ).current_reward_rate.records@[i].k1,
            final(self).user_staked_score == old(self).user_staked_score,
            final(self).aggregated_staked_score == old(self).aggregated_staked_score,
            final(self).user_reward_rate == old(self).user_reward_rate,
            final(self).user_stored_rewards == old(self).user_stored_rewards,
    {
        let aggregated = self.aggregated_staked_score;
        if aggregated == 0 {
            return ;
        }
        let increase = amount / aggregated;
        self.current_reward_rate.add_to(token, 0, 0, increase);
        proof {
            assert forall|u: u64, t: u64| #[trigger] self.checkpoint(u, t) <= self.rate(t) by {
                assert(old(self).checkpoint(u, t) <= old(self).rate(t));
                assert(self.checkpoint(u, t) == old(self).checkpoint(u, t));
                if t != token {
                    assert(self.rate(t) == old(self).rate(t));
                } else {
                    assert(self.rate(t) == old(self).rate(t) + increase);
                }
            }
        }
    }

    /// Register the payment's currency and spread its amount, scaled up by
    /// the rate denomination, over the aggregated score.
    pub fn handle_increase_reward_rate(&mut self, payment: &Payment)
        requires
            old(self).wf(),
            payment.amount * REWARD_RATE_DENOMINATION <= u128::MAX,
            old(self).aggregated_staked_score > 0 ==> old(self).rate(payment.token_id) + (
            payment.amount * REWARD_RATE_DENOMINATION) / (old(self).aggregated_staked_score
                as int) <= u128::MAX,
        ensures
            final(self).wf(),
            final(self).rate(payment.token_id) == if old(self).aggregated_staked_score == 0 {
                old(self).rate(payment.token_id) as int
            } else {
                old(self).rate(payment.token_id) + (payment.amount * REWARD_RATE_DENOMINATION)
                    / (old(self).aggregated_staked_score as int)
            },
            forall|t: u64| t != payment.token_id ==> #[trigger] final(self).rate(t) == old(
                self,
            ).rate(t),
            final(self).is_reward_token(payment.token_id),
            forall|t: u64| t != payment.token_id ==> #[trigger] final(self).is_reward_token(t)
                == old(self).is_reward_token(t),
            final(self).user_staked_score == old(self).user_staked_score,
            final(self).aggregated_staked_score == old(self).aggregated_staked_score,
            final(self).user_reward_rate == old(self).user_reward_rate,
            final(self).user_stored_rewards == old(self).user_stored_rewards,
    {
        self.register_reward_token(payment.token_id);
        let scaled = payment.amount * REWARD_RATE_DENOMINATION;
        self.handle_increase_reward_rate_raw(payment.token_id, scaled);
    }

    /// Settle one currency for one participant: realize the reward owed
    /// since their checkpoint into the stored balance and advance the
    /// checkpoint to the current rate.
    pub fn handle_store_pending_rewards(&mut self, user: u64, token: u64)
        requires
            old(self).wf(),
            old(self).settle_one_fits(user, token),
        ensures
            final(self).wf(),
            final(self).stored(user, token) == old(self).stored(user, token) + old(self).unstored(
                user,
                token,
            ),
            final(self).checkpoint(user, token) == old(self).rate(token),
            forall|u: u64, t: u64|
                !(u == user && t == token) ==> #[trigger] final(self).stored(u, t) == old(
                    self,
                ).stored(u, t),
            forall|u: u64, t: u64|
                !(u == user && t == token) ==> #[trigger] final(self).checkpoint(u, t) == old(
                    self,
                ).checkpoint(u, t),
            final(self).user_staked_score == old(self).user_staked_score,
            final(self).aggregated_staked_score == old(self).aggregated_staked_score,
            final(self).current_reward_rate == old(self).current_reward_rate,
    {
        let current_rate = self.current_reward_rate.lookup(token, 0, 0);
        let user_rate = self.user_reward_rate.lookup(user, token, 0);
        proof {
            assert(old(self).checkpoint(user, token) <= old(self).rate(token));
        }
        let rate_diff = current_rate - user_rate;
        if rate_diff == 0 {
            proof {
                assert(old(self).unstored(user, token) == 0) by {
                    assert(old(self).rate(token) - old(self).checkpoint(user, token) == 0);
                    vstd::arithmetic::mul::lemma_mul_basics(old(self).user_score(user) as int);
                    assert((old(self).rate(token) - old(self).checkpoint(user, token)) * old(
                        self,
                    ).user_score(user) == 0);
                    assert(0int / (REWARD_RATE_DENOMINATION as int) == 0);
                }
                assert forall|u: u64, t: u64| #[trigger] self.checkpoint(u, t) <= self.rate(t) by {
                    assert(old(self).checkpoint(u, t) <= old(self).rate(t));
                }
            }
            return ;
        }
        let score = self.user_staked_score.lookup(user, 0, 0);
        let rewards = rate_diff * score / (REWARD_RATE_DENOMINATION as u128);
        proof {
            assert(rewards == old(self).unstored(user, token));
            assert(old(self).stored(user, token) + rewards <= u128::MAX);
        }
        if rewards > 0 {
            self.user_stored_rewards.add_to(user, token, 0, rewards);
        }
        self.user_reward_rate.set(user, token, 0, current_rate);
        proof {
            assert forall|u: u64, t: u64| #[trigger] self.checkpoint(u, t) <= self.rate(t) by {
                assert(old(self).checkpoint(u, t) <= old(self).rate(t));
                assert(self.rate(t) == old(self).rate(t));
                if !(u == user && t == token) {
                    assert(self.checkpoint(u, t) == old(self).checkpoint(u, t));
                }
            }
        }
    }
}


/// Whether one of the first `upto` registry records names this currency.
pub open spec fn settled_upto(regs: Seq<Record>, upto: int, token: u64) -> bool {
    exists|j: int| 0 <= j < upto && (#[trigger] regs[j]).k1 == token
}

impl RewardRateModule {
    /// Settle the participant against one currency and hand out the whole
    /// stored balance, clearing it. Nothing owed yields nothing.
    pub fn handle_claim_pending_rewards(&mut self, user: u64, token: u64) -> (r: Option<Payment>)
        requires
            old(self).wf(),
            old(self).settle_one_fits(user, token),
        ensures
            final(self).wf(),
            r == (if old(self).pending(user, token) == 0 {
                None::<Payment>
            } else {
                Some(
                    (Payment {
                        token_id: token,
                        token_nonce: 0,
                        amount: old(self).pending(user, token) as u128,
                    }),
                )
            }),
            final(self).stored(user, token) == 0,
            final(self).checkpoint(user, token) == old(self).rate(token),
            forall|u: u64, t: u64|
                !(u == user && t == token) ==> #[trigger] final(self).stored(u, t) == old(
                    self,
                ).stored(u, t),
            forall|u: u64, t: u64|
                !(u == user && t == token) ==> #[trigger] final(self).checkpoint(u, t) == old(
                    self,
                ).checkpoint(u, t),
            final(self).user_staked_score == old(self).user_staked_score,
            final(self).aggregated_staked_score == old(self).aggregated_staked_score,
            final(self).current_reward_rate == old(self).current_reward_rate,
    {
        self.handle_store_pending_rewards(user, token);
        let ghost mid = *self;
        let rewards = self.user_stored_rewards.lookup(user, token, 0);
        if rewards == 0 {
            return None;
        }
        self.user_stored_rewards.unset(user, token, 0);
        proof {
            assert(self.user_reward_rate == mid.user_reward_rate);
            assert(self.current_reward_rate == mid.current_reward_rate);
            assert(self.user_staked_score == mid.user_staked_score);
            assert forall|u: u64, t: u64| !(u == user && t == token) implies #[trigger] self.stored(
                u,
                t,
            ) == old(self).stored(u, t) by {
                assert(self.user_stored_rewards.opt(u, t, 0) == mid.user_stored_rewards.opt(
                    u,
                    t,
                    0,
                ));
                assert(mid.stored(u, t) == old(self).stored(u, t));
            }
            assert forall|u: u64, t: u64| !(u == user && t == token) implies #[trigger] self.checkpoint(
                u,
                t,
            ) == old(self).checkpoint(u, t) by {
                assert(self.checkpoint(u, t) == mid.checkpoint(u, t));
                assert(mid.checkpoint(u, t) == old(self).checkpoint(u, t));
            }
            assert forall|u: u64, t: u64| #[trigger] self.checkpoint(u, t) <= self.rate(t) by {
                assert(mid.checkpoint(u, t) <= mid.rate(t));
                assert(self.checkpoint(u, t) == mid.checkpoint(u, t));
                assert(self.rate(t) == mid.rate(t));
            }
        }
        Some(Payment { token_id: token, token_nonce: 0, amount: rewards })
    }

    /// Settle the participant against every registered reward currency.
    pub fn handle_store_all_pending_rewards(&mut self, user: u64)
        requires
            old(self).wf(),
            old(self).settle_all_fits(user),
        ensures
            final(self).wf(),
            forall|t: u64|
                #[trigger] old(self).is_reward_token(t) ==> final(self).stored(user, t) == old(
                    self,
                ).stored(user, t) + old(self).unstored(user, t) && final(self).checkpoint(user, t)
                    == old(self).rate(t),
            forall|t: u64|
                !#[trigger] old(self).is_reward_token(t) ==> final(self).stored(user, t) == old(
                    self,
                ).stored(user, t) && final(self).checkpoint(user, t) == old(self).checkpoint(
                    user,
                    t,
                ),
            forall|u: u64, t: u64|
                u != user ==> #[trigger] final(self).stored(u, t) == old(self).stored(u, t),
            forall|u: u64, t: u64|
                u != user ==> #[trigger] final(self).checkpoint(u, t) == old(self).checkpoint(u, t),
            final(self).user_staked_score == old(self).user_staked_score,
            final(self).aggregated_staked_score == old(self).aggregated_staked_score,
            final(self).current_reward_rate == old(self).current_reward_rate,
    {
        let ghost regs = self.current_reward_rate.records@;
        let n = self.current_reward_rate.len();
        let mut i: usize = 0;
        while i < n
            invariant
                old(self).wf(),
                old(self).settle_all_fits(user),
                regs == old(self).current_reward_rate.records@,
                n == regs.len(),
                i <= n,
                self.wf(),
                self.current_reward_rate == old(self).current_reward_rate,
                self.user_staked_score == old(self).user_staked_score,
                self.aggregated_staked_score == old(self).aggregated_staked_score,
                forall|t: u64|
                    #[trigger] settled_upto(regs, i as int, t) ==> self.stored(user, t) == old(
                        self,
                    ).stored(user, t) + old(self).unstored(user, t) && self.checkpoint(user, t)
                        == old(self).rate(t),
                forall|t: u64|
                    !#[trigger] settled_upto(regs, i as int, t) ==> self.stored(user, t) == old(
                        self,
                    ).stored(user, t) && self.checkpoint(user, t) == old(self).checkpoint(user, t),
                forall|u: u64, t: u64|
                    u != user ==> #[trigger] self.stored(u, t) == old(self).stored(u, t),
                forall|u: u64, t: u64|
                    u != user ==> #[trigger] self.checkpoint(u, t) == old(self).checkpoint(u, t),
            decreases n - i,
        {
            let token = self.current_reward_rate.record_at(i).k1;
            proof {
                assert(regs[i as int].k2 == 0 && regs[i as int].k3 == 0);
                assert(key_matches(regs[i as int], token, 0, 0));
                lemma_find_none_iff_no_match(regs, token, 0, 0);
                assert(old(self).is_reward_token(token));
                assert(!settled_upto(regs, i as int, token)) by {
                    if settled_upto(regs, i as int, token) {
                        let j = choose|j: int| 0 <= j < i && (#[trigger] regs[j]).k1 == token;
                        assert(regs[j].k2 == 0 && regs[j].k3 == 0);
                        assert(false);
                    }
                }
                assert(self.settle_one_fits(user, token)) by {
                    assert(old(self).settle_one_fits(user, token));
                    assert(self.stored(user, token) == old(self).stored(user, token));
                    assert(self.checkpoint(user, token) == old(self).checkpoint(user, token));
                    assert(self.rate(token) == old(self).rate(token));
                    assert(self.user_score(user) == old(self).user_score(user));
                }
                assert(self.unstored(user, token) == old(self).unstored(user, token));
            }
            self.handle_store_pending_rewards(user, token);
            proof {
                assert forall|t: u64| #[trigger] settled_upto(regs, i as int + 1, t) implies
                    self.stored(user, t) == old(self).stored(user, t) + old(self).unstored(
                    user,
                    t,
                ) && self.checkpoint(user, t) == old(self).rate(t) by {
                    let j = choose|j: int| 0 <= j < i + 1 && (#[trigger] regs[j]).k1 == t;
                    if j < i {
                        assert(settled_upto(regs, i as int, t));
                        assert(t != token);
                    } else {
                        assert(t == token);
                    }
                }
                assert forall|t: u64| !#[trigger] settled_upto(regs, i as int + 1, t) implies
                    self.stored(user, t) == old(self).stored(user, t) && self.checkpoint(user, t)
                        == old(self).checkpoint(user, t) by {
                    assert(!settled_upto(regs, i as int, t));
                    assert(t != token) by {
                        if t == token {
                            assert(regs[i as int].k1 == t);
                            assert(settled_upto(regs, i as int + 1, t));
                        }
                    }
                }
            }
            i += 1;
        }
        proof {
            assert forall|t: u64| #[trigger] old(self).is_reward_token(t) implies self.stored(
                user,
                t,
            ) == old(self).stored(user, t) + old(self).unstored(user, t) && self.checkpoint(
                user,
                t,
            ) == old(self).rate(t) by {
                lemma_find_none_iff_no_match(regs, t, 0, 0);
                let j = choose|j: int| 0 <= j < regs.len() && key_matches(#[trigger] regs[j], t, 0, 0);
                assert(regs[j].k1 == t);
                assert(settled_upto(regs, n as int, t));
            }
            assert forall|t: u64| !#[trigger] old(self).is_reward_token(t) implies self.stored(
                user,
                t,
            ) == old(self).stored(user, t) && self.checkpoint(user, t) == old(self).checkpoint(
                user,
                t,
            ) by {
                assert(!settled_upto(regs, n as int, t)) by {
                    if settled_upto(regs, n as int, t) {
                        let j = choose|j: int| 0 <= j < n && (#[trigger] regs[j]).k1 == t;
                        assert(regs[j].k2 == 0 && regs[j].k3 == 0);
                        assert(key_matches(regs[j], t, 0, 0));
                        lemma_find_none_iff_no_match(regs, t, 0, 0);
                        assert(false);
                    }
                }
            }
        }
    }
}

} // verus!
