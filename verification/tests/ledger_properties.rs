use nft_staking::constants::DEFAULT_NFT_SCORE;
use nft_staking::constants::REWARD_RATE_DENOMINATION;
use nft_staking::NftStaking;
use nft_staking::PlannedDistributionModule;
use nft_staking::RewardRateModule;
use nft_staking::Payment;
use nft_staking::StakingError;

const NFT: u64 = 1;
const SFT: u64 = 2;
const REWARD_X: u64 = 21;
const USER_A: u64 = 201;
const USER_B: u64 = 202;

fn pay(token_id: u64, token_nonce: u64, amount: u128) -> Payment {
    Payment { token_id, token_nonce, amount }
}

fn pool() -> NftStaking {
    let mut world = NftStaking::new();
    world.allow_collections(&vec![NFT, SFT]);
    world
}

#[test]
fn two_participant_scenario_pays_proportional_rewards() {
    let mut world = pool();
    world.set_collection_nonce_score(NFT, 1, 1000);
    world.set_collection_nonce_score(NFT, 2, 3000);

    world.stake(USER_A, &vec![pay(NFT, 1, 1)], 0).unwrap();
    assert_eq!(world.get_user_staking_score(USER_A), 1000);

    world.distribute_rewards(&vec![pay(REWARD_X, 0, 1000)]).unwrap();
    assert_eq!(world.get_pending_token_reward(USER_A, REWARD_X), 1000);

    world.stake(USER_B, &vec![pay(NFT, 2, 1)], 0).unwrap();
    assert_eq!(world.get_user_staking_score(USER_B), 3000);
    assert_eq!(world.get_aggregated_staking_score(), 4000);

    world.distribute_rewards(&vec![pay(REWARD_X, 0, 4)]).unwrap();
    assert_eq!(world.get_pending_token_reward(USER_A, REWARD_X), 1001);
    assert_eq!(world.get_pending_token_reward(USER_B, REWARD_X), 3);
}

#[test]
fn aggregated_score_stays_the_sum_of_participant_scores() {
    let mut world = pool();
    world.set_collection_score(SFT, 5);

    world.stake(USER_A, &vec![pay(NFT, 1, 1), pay(SFT, 1, 2)], 0).unwrap();
    world.stake(USER_B, &vec![pay(SFT, 2, 4)], 0).unwrap();
    assert_eq!(
        world.get_aggregated_staking_score(),
        world.get_user_staking_score(USER_A) + world.get_user_staking_score(USER_B),
    );

    world.unstake(USER_A, &vec![pay(SFT, 1, 1)], 0, 0).unwrap();
    assert_eq!(
        world.get_aggregated_staking_score(),
        world.get_user_staking_score(USER_A) + world.get_user_staking_score(USER_B),
    );
}

#[test]
fn failed_withdrawal_leaves_every_balance_unchanged() {
    let mut world = pool();
    world.stake(USER_A, &vec![pay(SFT, 1, 3)], 0).unwrap();

    let r = world.unstake(USER_A, &vec![pay(SFT, 1, 2), pay(SFT, 1, 2)], 0, 0);
    assert_eq!(r, Err(StakingError::InsufficientStake));
    assert_eq!(world.get_stake_quantity(USER_A, SFT, 1), 3);
    assert_eq!(world.get_user_staking_score(USER_A), 3 * DEFAULT_NFT_SCORE);
    assert_eq!(world.get_aggregated_staking_score(), 3 * DEFAULT_NFT_SCORE);
}

#[test]
fn a_raised_override_makes_the_withdrawal_under_collateralized() {
    let mut world = pool();
    world.stake(USER_A, &vec![pay(NFT, 1, 1)], 0).unwrap();
    world.set_collection_nonce_score(NFT, 1, (2 * DEFAULT_NFT_SCORE) as u64);

    let r = world.unstake(USER_A, &vec![pay(NFT, 1, 1)], 0, 0);
    assert_eq!(r, Err(StakingError::InsufficientStake));
    assert_eq!(world.get_stake_quantity(USER_A, NFT, 1), 1);
    assert_eq!(world.get_user_staking_score(USER_A), DEFAULT_NFT_SCORE);
    assert_eq!(world.get_aggregated_staking_score(), DEFAULT_NFT_SCORE);
}

#[test]
fn claim_pays_the_pending_amounts_and_only_once() {
    let mut world = pool();
    world.stake(USER_A, &vec![pay(NFT, 1, 1)], 0).unwrap();
    world.distribute_rewards(&vec![pay(REWARD_X, 0, 7)]).unwrap();

    let paid = world.claim_rewards(USER_A, 0).unwrap();
    assert_eq!(paid, vec![pay(REWARD_X, 0, 7)]);
    assert_eq!(world.get_pending_token_reward(USER_A, REWARD_X), 0);
    assert_eq!(world.claim_rewards(USER_A, 0), Err(StakingError::NoRewardsToClaim));
}

#[test]
fn changing_the_penalty_applies_to_future_withdrawals_only() {
    let mut world = pool();
    world.set_unstaking_penalty(100);
    world.stake(USER_A, &vec![pay(NFT, 1, 1), pay(NFT, 2, 1)], 0).unwrap();

    world.unstake(USER_A, &vec![pay(NFT, 1, 1)], 0, 0).unwrap();
    world.set_unstaking_penalty(1000);
    world.unstake(USER_A, &vec![pay(NFT, 2, 1)], 0, 10).unwrap();

    assert_eq!(world.claim_unstaked(USER_A, 99), Err(StakingError::NothingUnlocked));
    let first = world.claim_unstaked(USER_A, 100).unwrap();
    assert_eq!(first, vec![pay(NFT, 1, 1)]);

    assert_eq!(world.claim_unstaked(USER_A, 1009), Err(StakingError::NothingUnlocked));
    let second = world.claim_unstaked(USER_A, 1010).unwrap();
    assert_eq!(second, vec![pay(NFT, 2, 1)]);
}

#[test]
fn claiming_releases_only_the_callers_unlocked_batches() {
    let mut world = pool();
    world.set_unstaking_penalty(50);
    world.stake(USER_A, &vec![pay(NFT, 1, 1)], 0).unwrap();
    world.stake(USER_B, &vec![pay(NFT, 2, 1)], 0).unwrap();

    world.unstake(USER_A, &vec![pay(NFT, 1, 1)], 0, 0).unwrap();
    world.unstake(USER_B, &vec![pay(NFT, 2, 1)], 0, 0).unwrap();

    let released = world.claim_unstaked(USER_A, 60).unwrap();
    assert_eq!(released, vec![pay(NFT, 1, 1)]);
    let batches_b = world.get_unstaking_items(USER_B);
    assert_eq!(batches_b.len(), 1);
    assert_eq!(batches_b[0].unlock_timestamp, 50);
    assert_eq!(batches_b[0].unstake_items, vec![pay(NFT, 2, 1)]);
}

#[test]
fn removing_a_plan_needs_its_exact_parameters() {
    let mut world = pool();
    let r = world.remove_distribution_plan(REWARD_X, 0, 10, 1, 0);
    assert_eq!(r, Err(StakingError::PlanNotFound));

    world.create_distribution_plan(&pay(REWARD_X, 0, 100), 0, 100).unwrap();
    let per_round = REWARD_RATE_DENOMINATION;
    let r = world.remove_distribution_plan(REWARD_X, 0, 100, per_round + 1, 0);
    assert_eq!(r, Err(StakingError::PlanNotFound));
    world.remove_distribution_plan(REWARD_X, 0, 100, per_round, 0).unwrap();
}

#[test]
fn a_plan_needs_a_forward_round_range() {
    let mut world = pool();
    let r = world.create_distribution_plan(&pay(REWARD_X, 0, 100), 5, 5);
    assert_eq!(r, Err(StakingError::InvalidPlanRange));
    let r = world.create_distribution_plan(&pay(REWARD_X, 0, 100), 5, 4);
    assert_eq!(r, Err(StakingError::InvalidPlanRange));
}

#[test]
fn removing_a_plan_flushes_what_it_has_vested() {
    let mut world = pool();
    world.stake(USER_A, &vec![pay(NFT, 1, 1)], 0).unwrap();
    world.create_distribution_plan(&pay(REWARD_X, 0, 100), 0, 10).unwrap();

    let per_round = 10 * REWARD_RATE_DENOMINATION;
    world.remove_distribution_plan(REWARD_X, 0, 10, per_round, 5).unwrap();

    assert_eq!(
        world.get_reward_rate(REWARD_X),
        50 * REWARD_RATE_DENOMINATION / DEFAULT_NFT_SCORE,
    );
    assert_eq!(world.get_pending_token_reward(USER_A, REWARD_X), 50);
}

#[test]
fn realizing_plans_twice_in_one_round_adds_nothing() {
    let mut world = pool();
    world.create_distribution_plan(&pay(REWARD_X, 0, 100), 0, 100).unwrap();
    world.stake(USER_A, &vec![pay(NFT, 1, 1)], 0).unwrap();

    world.stake(USER_A, &vec![pay(NFT, 2, 1)], 3).unwrap();
    let rate_after_first = world.get_reward_rate(REWARD_X);

    world.stake(USER_A, &vec![pay(NFT, 3, 1)], 3).unwrap();
    assert_eq!(world.get_reward_rate(REWARD_X), rate_after_first);
}

#[test]
fn an_expired_plan_folds_its_remainder_and_disappears() {
    let mut world = pool();
    world.stake(USER_A, &vec![pay(NFT, 1, 1)], 0).unwrap();
    world.create_distribution_plan(&pay(REWARD_X, 0, 10), 0, 10).unwrap();

    world.stake(USER_A, &vec![pay(NFT, 2, 1)], 20).unwrap();
    assert_eq!(
        world.get_reward_rate(REWARD_X),
        10 * REWARD_RATE_DENOMINATION / DEFAULT_NFT_SCORE,
    );

    world.stake(USER_A, &vec![pay(NFT, 3, 1)], 30).unwrap();
    assert_eq!(
        world.get_reward_rate(REWARD_X),
        10 * REWARD_RATE_DENOMINATION / DEFAULT_NFT_SCORE,
    );
}

#[test]
fn a_deposit_with_nothing_staked_is_absorbed() {
    let mut world = pool();
    world.distribute_rewards(&vec![pay(REWARD_X, 0, 1000)]).unwrap();
    assert_eq!(world.get_reward_rate(REWARD_X), 0);

    world.stake(USER_A, &vec![pay(NFT, 1, 1)], 0).unwrap();
    assert_eq!(world.get_pending_token_reward(USER_A, REWARD_X), 0);
}

#[test]
fn a_new_staker_earns_nothing_from_before_they_joined() {
    let mut world = pool();
    world.stake(USER_A, &vec![pay(NFT, 1, 1)], 0).unwrap();
    world.distribute_rewards(&vec![pay(REWARD_X, 0, 500)]).unwrap();

    world.stake(USER_B, &vec![pay(NFT, 2, 1)], 0).unwrap();
    assert_eq!(world.get_pending_token_reward(USER_B, REWARD_X), 0);
    assert_eq!(world.get_pending_token_reward(USER_A, REWARD_X), 500);
}

#[test]
fn the_snapshot_lists_only_the_callers_holdings() {
    let mut world = pool();
    world.stake(USER_A, &vec![pay(NFT, 1, 1), pay(SFT, 1, 4)], 0).unwrap();
    world.stake(USER_B, &vec![pay(SFT, 2, 2)], 0).unwrap();

    let items = world.get_staked_items_snapshot(USER_A);
    assert_eq!(items, vec![pay(NFT, 1, 1), pay(SFT, 1, 4)]);

    world.unstake(USER_A, &vec![pay(NFT, 1, 1)], 0, 0).unwrap();
    let items = world.get_staked_items_snapshot(USER_A);
    assert_eq!(items, vec![pay(SFT, 1, 4)]);
}

#[test]
fn the_staking_info_reports_the_whole_position() {
    let mut world = pool();
    world.stake(USER_A, &vec![pay(NFT, 1, 1)], 0).unwrap();
    world.distribute_rewards(&vec![pay(REWARD_X, 0, 9)]).unwrap();
    world.unstake(USER_A, &vec![pay(NFT, 1, 1)], 0, 0).unwrap();

    let info = world.get_staking_info(USER_A);
    assert_eq!(info.staked_items, Vec::<Payment>::new());
    assert_eq!(info.staked_score, 0);
    assert_eq!(info.aggregated_staked_score, 0);
    assert_eq!(info.pending_rewards, vec![pay(REWARD_X, 0, 9)]);
    assert_eq!(info.unstaking_items.len(), 1);
}

#[test]
fn error_kinds_carry_the_host_messages() {
    assert_eq!(StakingError::StakingDisabled.message(), "Staking is disabled");
    assert_eq!(StakingError::AssetNotAllowed.message(), "NFT collection not allowed");
    assert_eq!(
        StakingError::InsufficientStake.message(),
        "User has not enough staked balance",
    );
    assert_eq!(StakingError::NothingUnlocked.message(), "No unstaked items");
    assert_eq!(StakingError::NoRewardsToClaim.message(), "No rewards to claim");
    assert_eq!(StakingError::PlanNotFound.message(), "Plan not found");
}

#[test]
fn the_undistributed_view_reports_unvested_plan_amounts() {
    let mut world = pool();
    world.stake(USER_A, &vec![pay(NFT, 1, 1)], 0).unwrap();
    world.create_distribution_plan(&pay(REWARD_X, 0, 100), 0, 10).unwrap();

    let undistributed = world.get_all_planned_undistributed_rewards(4);
    assert_eq!(undistributed, vec![pay(REWARD_X, 0, 40 * REWARD_RATE_DENOMINATION)]);
}

#[test]
fn the_plan_view_reports_stored_parameters() {
    let mut world = pool();
    world.create_distribution_plan(&pay(REWARD_X, 0, 100), 5, 25).unwrap();

    let plans = world.get_distribution_plans();
    assert_eq!(plans.len(), 1);
    assert_eq!(plans[0].token_id, REWARD_X);
    assert_eq!(plans[0].start_round, 5);
    assert_eq!(plans[0].end_round, 25);
    assert_eq!(plans[0].amount_per_round, 5 * REWARD_RATE_DENOMINATION);
}

#[test]
fn the_share_view_reports_each_participants_portion() {
    let mut world = pool();
    world.stake(USER_A, &vec![pay(NFT, 1, 1)], 0).unwrap();
    world.stake(USER_B, &vec![pay(NFT, 2, 3)], 0).unwrap();
    world.create_distribution_plan(&pay(REWARD_X, 0, 100), 0, 10).unwrap();

    let shares_a = world.get_user_undistributed_rewards_share(USER_A, 4);
    assert_eq!(shares_a, vec![pay(REWARD_X, 0, 10)]);
    let shares_b = world.get_user_undistributed_rewards_share(USER_B, 4);
    assert_eq!(shares_b, vec![pay(REWARD_X, 0, 30)]);
}
