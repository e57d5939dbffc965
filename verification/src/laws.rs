//! The pool's global guarantees, stated and proved once.
//!
//! Each law here is a fact about every reachable ledger state or about
//! every pair of consecutive operations, proved from the contracts the
//! operations themselves carry.

use vstd::prelude::*;

use crate::constants::REWARD_RATE_DENOMINATION;
use crate::core_logic::claims_from;
use crate::planned_distribution::increments_sum;
use crate::planned_distribution::realize_plans_seq;
use crate::planned_distribution::DistributionPlan;
use crate::storage::NftStaking;
use crate::table::spec_total;
use crate::table::Record;

verus! {

/// Law: score conservation. In every well-formed ledger — and every
/// operation of the pool both requires and re-establishes
/// well-formedness — the aggregated score equals the sum of all
/// participant scores.
pub proof fn lemma_score_conservation(s: NftStaking)
    requires
        s.well_formed(),
    ensures
        s.aggregated_score() == spec_total(s.reward_rate.user_staked_score.records@),
{
}

/// Law: reward proportionality. A rate increase pays two participants in
/// proportion to their scores, up to one indivisible unit each from
/// integer rounding: cross-multiplying the payouts with the scores can
/// differ by less than one payout unit per score. The payouts are what a
/// settlement realizes for a participant whose checkpoint was up to date
/// before the increase, which is the state every staker is left in by
/// their own deposit.
pub proof fn lemma_reward_proportionality(
    delta: int,
    score_a: int,
    score_b: int,
    reward_a: int,
    reward_b: int,
)
    requires
        delta >= 0,
        score_a >= 0,
        score_b >= 0,
        reward_a == delta * score_a / (REWARD_RATE_DENOMINATION as int),
        reward_b == delta * score_b / (REWARD_RATE_DENOMINATION as int),
    ensures
        reward_a * score_b <= reward_b * score_a + score_a,
        reward_b * score_a <= reward_a * score_b + score_b,
{
    let d = REWARD_RATE_DENOMINATION as int;
    vstd::arithmetic::div_mod::lemma_fundamental_div_mod(delta * score_a, d);
    vstd::arithmetic::div_mod::lemma_mod_bound(delta * score_a, d);
    vstd::arithmetic::div_mod::lemma_fundamental_div_mod(delta * score_b, d);
    vstd::arithmetic::div_mod::lemma_mod_bound(delta * score_b, d);
    let ra = delta * score_a % d;
    let rb = delta * score_b % d;
    assert(delta * score_a == d * reward_a + ra);
    assert(delta * score_b == d * reward_b + rb);
    assert(reward_a * score_b <= reward_b * score_a + score_a && reward_b * score_a <= reward_a
        * score_b + score_b) by (nonlinear_arith)
        requires
            delta >= 0,
            score_a >= 0,
            score_b >= 0,
            d == REWARD_RATE_DENOMINATION as int,
            delta * score_a == d * reward_a + ra,
            delta * score_b == d * reward_b + rb,
            0 <= ra < d,
            0 <= rb < d,
    ;
}

/// Law: reward proportionality, on the ledger. Two participants holding
/// the same checkpoint for a currency — as they do when both were settled
/// before a deposit and untouched since — are owed newly accrued reward
/// in proportion to their scores, within one indivisible unit each from
/// integer rounding.
pub proof fn lemma_reward_shares_proportional(s: NftStaking, user_a: u64, user_b: u64, token: u64)
    requires
        s.well_formed(),
        s.checkpoint(user_a, token) == s.checkpoint(user_b, token),
    ensures
        s.reward_rate.unstored(user_a, token) * s.user_score(user_b)
            <= s.reward_rate.unstored(user_b, token) * s.user_score(user_a) + s.user_score(
            user_a,
        ),
        s.reward_rate.unstored(user_b, token) * s.user_score(user_a)
            <= s.reward_rate.unstored(user_a, token) * s.user_score(user_b) + s.user_score(
            user_b,
        ),
{
    let delta = s.rate(token) - s.checkpoint(user_a, token);
    assert(s.checkpoint(user_a, token) <= s.rate(token));
    lemma_reward_proportionality(
        delta,
        s.user_score(user_a) as int,
        s.user_score(user_b) as int,
        s.reward_rate.unstored(user_a, token),
        s.reward_rate.unstored(user_b, token),
    );
}

/// A plan realized at a round vests nothing more at the same round.
proof fn lemma_advanced_due_zero(p: DistributionPlan, round: u64)
    ensures
        p.advanced(round).due_amount(round) == 0,
        p.advanced(round).advanced(round) == p.advanced(round),
        p.advanced(round).expired(round) == p.expired(round),
{
}

/// Realized plans contribute nothing when realized again at the same
/// round.
proof fn lemma_no_due_no_increment(
    plans: Seq<DistributionPlan>,
    token_id: u64,
    round: u64,
    aggregated: u128,
)
    requires
        forall|i: int| 0 <= i < plans.len() ==> (#[trigger] plans[i]).due_amount(round) == 0,
    ensures
        increments_sum(plans, token_id, round, aggregated) == 0,
    decreases plans.len(),
{
    if plans.len() > 0 {
        assert(forall|i: int|
            0 <= i < plans.drop_first().len() ==> (#[trigger] plans.drop_first()[i]).due_amount(
                round,
            ) == 0);
        lemma_no_due_no_increment(plans.drop_first(), token_id, round, aggregated);
        if aggregated != 0 {
            assert(plans[0].due_amount(round) == 0);
            assert(0int / (aggregated as int) == 0);
        }
    }
}

/// Law: realizing the scheduled distributions twice in the same round is
/// idempotent. The survivors of a realization survive a second
/// realization unchanged, and contribute nothing more to any currency's
/// accumulator at that round.
pub proof fn lemma_realize_idempotent(plans: Seq<DistributionPlan>, round: u64)
    ensures
        realize_plans_seq(realize_plans_seq(plans, round), round) == realize_plans_seq(
            plans,
            round,
        ),
        forall|t: u64, aggregated: u128|
            #[trigger] increments_sum(realize_plans_seq(plans, round), t, round, aggregated) == 0,
        forall|i: int|
            0 <= i < realize_plans_seq(plans, round).len() ==> (#[trigger] realize_plans_seq(
                plans,
                round,
            )[i]).due_amount(round) == 0,
    decreases plans.len(),
{
    let r = realize_plans_seq(plans, round);
    if plans.len() == 0 {
        assert(realize_plans_seq(r, round) =~= r);
    } else {
        lemma_realize_idempotent(plans.drop_first(), round);
        let rest = realize_plans_seq(plans.drop_first(), round);
        if plans[0].expired(round) {
            assert(r == rest);
        } else {
            let head = plans[0].advanced(round);
            lemma_advanced_due_zero(plans[0], round);
            assert(r == seq![head] + rest);
            assert(r[0] == head);
            assert(r.drop_first() =~= rest);
            assert(realize_plans_seq(r, round) == seq![head.advanced(round)] + realize_plans_seq(
                rest,
                round,
            ));
            assert(seq![head.advanced(round)] + realize_plans_seq(rest, round) =~= r);
            assert forall|i: int| 0 <= i < r.len() implies (#[trigger] r[i]).due_amount(round)
                == 0 by {
                if i > 0 {
                    assert(r[i] == rest[i - 1]);
                }
            }
        }
    }
    assert forall|t: u64, aggregated: u128| true implies #[trigger] increments_sum(
        realize_plans_seq(plans, round),
        t,
        round,
        aggregated,
    ) == 0 by {
        lemma_no_due_no_increment(realize_plans_seq(plans, round), t, round, aggregated);
    }
}

/// Law: realizing twice within one round leaves the ledger alone, stated
/// on the ledger. In the state a realization at `round` leaves behind —
/// every plan's cursor caught up, no plan expired — a second realization
/// at the same round would change no accumulator rate and no plan.
pub proof fn lemma_second_realization_changes_nothing(s: NftStaking, round: u64)
    requires
        s.well_formed(),
        forall|i: int|
            0 <= i < s.planned_distribution.distribution_plans@.len() ==> (
            #[trigger] s.planned_distribution.distribution_plans@[i]).advanced(round)
                == s.planned_distribution.distribution_plans@[i],
        forall|i: int|
            0 <= i < s.planned_distribution.distribution_plans@.len() ==> !(
            #[trigger] s.planned_distribution.distribution_plans@[i]).expired(round),
    ensures
        forall|t: u64| #[trigger] s.rate_after_realize(t, round) == s.rate(t),
        realize_plans_seq(s.planned_distribution.distribution_plans@, round)
            == s.planned_distribution.distribution_plans@,
{
    let plans = s.planned_distribution.distribution_plans@;
    assert forall|i: int| 0 <= i < plans.len() implies (#[trigger] plans[i]).due_amount(round)
        == 0 by {
        assert(plans[i].advanced(round) == plans[i]);
        let upto: int = if round <= plans[i].end_round {
            round as int
        } else {
            plans[i].end_round as int
        };
        if upto > plans[i].realized_round {
            assert(plans[i].advanced(round).realized_round == upto);
        }
    }
    assert forall|t: u64| true implies #[trigger] s.rate_after_realize(t, round) == s.rate(t) by {
        lemma_no_due_no_increment(plans, t, round, s.aggregated_score());
    }
    lemma_settled_plans_survive(plans, round);
}

/// Plans whose cursors are caught up and whose ranges have not elapsed
/// survive a realization unchanged.
proof fn lemma_settled_plans_survive(plans: Seq<DistributionPlan>, round: u64)
    requires
        forall|i: int| 0 <= i < plans.len() ==> (#[trigger] plans[i]).advanced(round) == plans[i],
        forall|i: int| 0 <= i < plans.len() ==> !(#[trigger] plans[i]).expired(round),
    ensures
        realize_plans_seq(plans, round) == plans,
    decreases plans.len(),
{
    if plans.len() == 0 {
        assert(realize_plans_seq(plans, round) =~= plans);
    } else {
        let tail = plans.drop_first();
        assert(forall|i: int|
            0 <= i < tail.len() ==> (#[trigger] tail[i]).advanced(round) == tail[i]);
        assert(forall|i: int| 0 <= i < tail.len() ==> !(#[trigger] tail[i]).expired(round));
        lemma_settled_plans_survive(tail, round);
        assert(plans[0].advanced(round) == plans[0]);
        assert(seq![plans[0]] + tail =~= plans);
    }
}

/// Law: no double counting. A participant whose balances are what a
/// successful claim leaves behind — every stored balance zero, every
/// checkpoint caught up with its accumulator, every plan realized at the
/// round — can claim nothing more at that round, and the pool reports
/// that with its distinguishable refusal.
pub proof fn lemma_no_double_claim(s: NftStaking, user: u64, round: u64)
    requires
        s.well_formed(),
        forall|t: u64|
            #[trigger] s.is_reward_token_spec(t) ==> s.stored(user, t) == 0 && s.checkpoint(
                user,
                t,
            ) == s.rate(t),
        forall|i: int|
            0 <= i < s.planned_distribution.distribution_plans@.len() ==> (
            #[trigger] s.planned_distribution.distribution_plans@[i]).due_amount(round) == 0,
    ensures
        s.claimable_rewards(user, round).len() == 0,
{
    let regs = s.reward_rate.current_reward_rate.records@;
    assert(s.reward_rate.wf());
    assert(s.reward_rate.current_reward_rate.keys_shaped(0, 0));
    assert forall|i: int| 0 <= i < regs.len() implies s.is_reward_token_spec(
        (#[trigger] regs[i]).k1,
    ) by {
        assert(regs[i].k2 == 0 && regs[i].k3 == 0);
        assert(crate::table::key_matches(regs[i], regs[i].k1, 0, 0));
        crate::table::lemma_find_none_iff_no_match(regs, regs[i].k1, 0, 0);
    }
    lemma_claims_empty(s, regs, user, round);
}

/// Over register records whose currencies are all settled and whose
/// plans vest nothing, the claim list is empty.
proof fn lemma_claims_empty(s: NftStaking, regs: Seq<Record>, user: u64, round: u64)
    requires
        s.well_formed(),
        forall|t: u64|
            #[trigger] s.is_reward_token_spec(t) ==> s.stored(user, t) == 0 && s.checkpoint(
                user,
                t,
            ) == s.rate(t),
        forall|i: int|
            0 <= i < s.planned_distribution.distribution_plans@.len() ==> (
            #[trigger] s.planned_distribution.distribution_plans@[i]).due_amount(round) == 0,
        forall|i: int|
            0 <= i < regs.len() ==> s.is_reward_token_spec((#[trigger] regs[i]).k1),
    ensures
        claims_from(s, regs, user, round).len() == 0,
    decreases regs.len(),
{
    if regs.len() > 0 {
        let t = regs[0].k1;
        assert(s.is_reward_token_spec(t));
        lemma_no_due_no_increment(
            s.planned_distribution.distribution_plans@,
            t,
            round,
            s.aggregated_score(),
        );
        assert(s.rate_after_realize(t, round) == s.rate(t));
        assert(s.pending_after_realize(user, t, round) == 0) by {
            assert(s.rate(t) - s.checkpoint(user, t) == 0);
            vstd::arithmetic::mul::lemma_mul_basics(s.user_score(user) as int);
            assert((s.rate_after_realize(t, round) - s.checkpoint(user, t)) * s.user_score(user)
                == 0);
            assert(0int / (REWARD_RATE_DENOMINATION as int) == 0);
        }
        assert(forall|i: int|
            0 <= i < regs.drop_first().len() ==> s.is_reward_token_spec(
                (#[trigger] regs.drop_first()[i]).k1,
            ));
        lemma_claims_empty(s, regs.drop_first(), user, round);
    }
}

/// Law: time lock enforcement, the blocking half. Right after a
/// withdrawal, with a positive penalty and no older batch of the
/// participant's already unlocked, a claim of the withdrawals finds
/// nothing unlocked and is refused.
pub proof fn lemma_time_lock_blocks(
    q: Seq<crate::storage::PendingUnstake>,
    user: u64,
    now: u64,
    penalty: u64,
)
    requires
        q.len() > 0,
        q.last().user == user,
        q.last().unlock_timestamp == now + penalty,
        penalty > 0,
        now + penalty <= u64::MAX,
        forall|i: int|
            0 <= i < q.len() - 1 && (#[trigger] q[i]).user == user ==> q[i].unlock_timestamp > now,
    ensures
        !crate::core_logic::any_released(q, user, now),
{
    if crate::core_logic::any_released(q, user, now) {
        let i = choose|i: int|
            0 <= i < q.len() && (#[trigger] q[i]).user == user && q[i].unlock_timestamp <= now;
        assert(i < q.len() - 1 || q[i] == q.last());
        assert(false);
    }
}

/// Law: time lock enforcement, the releasing half. Once the clock has
/// advanced past a batch's unlock time, a claim of the withdrawals finds
/// it.
pub proof fn lemma_time_lock_elapsed(
    q: Seq<crate::storage::PendingUnstake>,
    user: u64,
    later: u64,
)
    requires
        q.len() > 0,
        q.last().user == user,
        q.last().unlock_timestamp <= later,
    ensures
        crate::core_logic::any_released(q, user, later),
{
    assert((q[q.len() - 1]).user == user && q[q.len() - 1].unlock_timestamp <= later);
}

} // verus!
