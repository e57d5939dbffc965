use nft_staking::constants::DEFAULT_NFT_SCORE;
use nft_staking::constants::REWARD_RATE_DENOMINATION;
use nft_staking::constants::UNSTAKE_PENALTY;
use nft_staking::NftStaking;
use nft_staking::PlannedDistributionModule;
use nft_staking::RewardRateModule;
use nft_staking::Payment;
use nft_staking::StakingError;

const NFT_TOKEN_ID: u64 = 1;
const SFT_TOKEN_ID: u64 = 2;
const UNSUPPORTED_NFT_TOKEN_ID: u64 = 3;
const REWARD_TOKEN_ID_1: u64 = 11;
const REWARD_TOKEN_ID_2: u64 = 12;
const OWNER_ADDRESS: u64 = 100;
const USER_ADDRESS: u64 = 101;
const INITIAL_SFT_BALANCE: u128 = 10;

fn payment(token_id: u64, token_nonce: u64, amount: u128) -> Payment {
    Payment { token_id, token_nonce, amount }
}

fn setup_world_with_contract() -> NftStaking {
    let mut world = NftStaking::new();
    world.allow_collections(&vec![NFT_TOKEN_ID, SFT_TOKEN_ID]);
    world
}

fn send_stake_tx(world: &mut NftStaking, user: u64, assets: &[(u64, u64, u128)]) {
    send_stake_tx_at(world, user, assets, 0);
}

fn send_stake_tx_at(world: &mut NftStaking, user: u64, assets: &[(u64, u64, u128)], round: u64) {
    let mut payments: Vec<Payment> = Vec::new();
    for &(t, n, a) in assets {
        payments.push(payment(t, n, a));
    }
    world.stake(user, &payments, round).unwrap();
}

fn send_unstake_tx(world: &mut NftStaking, user: u64, assets: &[(u64, u64, u128)]) {
    let mut payments: Vec<Payment> = Vec::new();
    for &(t, n, a) in assets {
        payments.push(payment(t, n, a));
    }
    world.unstake(user, &payments, 0, 0).unwrap();
}

fn send_distribute_rewards_tx(world: &mut NftStaking, token_id: u64, amount: u128) {
    world.distribute_rewards(&vec![payment(token_id, 0, amount)]).unwrap();
}

fn send_set_distribution_plan_tx(
    world: &mut NftStaking,
    token_id: u64,
    start_round: u64,
    end_round: u64,
    total_amount: u128,
) {
    world
        .create_distribution_plan(&payment(token_id, 0, total_amount), start_round, end_round)
        .unwrap();
}

fn check_staked_amount(world: &NftStaking, user: u64, token_id: u64, nonce: u64, expected: u128) {
    assert_eq!(world.get_stake_quantity(user, token_id, nonce), expected);
}

fn check_user_staking_score(world: &NftStaking, user: u64, expected: u128) {
    assert_eq!(world.get_user_staking_score(user), expected);
}

fn check_aggregated_staking_score(world: &NftStaking, expected: u128) {
    assert_eq!(world.get_aggregated_staking_score(), expected);
}

fn check_reward_rate(world: &NftStaking, token_id: u64, expected: u128) {
    assert_eq!(world.get_reward_rate(token_id), expected);
}

fn check_last_distribution_round(world: &NftStaking, expected: u64) {
    assert_eq!(world.get_last_distribution_round(), expected);
}

fn check_if_token_is_reward_token(world: &NftStaking, token_id: u64) {
    assert!(world.is_reward_token(token_id));
}

fn check_pending_reward(world: &NftStaking, user: u64, token_id: u64, expected: u128) {
    assert_eq!(world.get_pending_token_reward(user, token_id), expected);
}

#[test]
fn staking_allowed_nft_should_succeed() {
    let mut world = setup_world_with_contract();

    send_stake_tx(&mut world, USER_ADDRESS, &[(NFT_TOKEN_ID, 1, 1)]);
}

#[test]
fn staking_single_allowed_sft_should_succeed() {
    let mut world = setup_world_with_contract();

    send_stake_tx(&mut world, USER_ADDRESS, &[(SFT_TOKEN_ID, 1, 1)]);
}

#[test]
fn staking_multiple_allowed_assets_should_succeed() {
    let mut world = setup_world_with_contract();

    send_stake_tx(
        &mut world,
        USER_ADDRESS,
        &[(NFT_TOKEN_ID, 1, 1), (SFT_TOKEN_ID, 1, 1), (SFT_TOKEN_ID, 2, 1)],
    );
}

#[test]
fn staking_multiple_allowed_sfts_with_same_token_id_and_nonce_should_succeed() {
    let mut world = setup_world_with_contract();

    send_stake_tx(&mut world, USER_ADDRESS, &[(SFT_TOKEN_ID, 1, 1), (SFT_TOKEN_ID, 1, 1)]);
}

#[test]
fn successful_staking_should_increase_staked_amount() {
    let mut world = setup_world_with_contract();

    send_stake_tx(&mut world, USER_ADDRESS, &[(NFT_TOKEN_ID, 1, 1)]);
    send_stake_tx(&mut world, USER_ADDRESS, &[(SFT_TOKEN_ID, 1, 1)]);

    check_staked_amount(&world, USER_ADDRESS, NFT_TOKEN_ID, 1, 1);
    check_staked_amount(&world, USER_ADDRESS, SFT_TOKEN_ID, 1, 1);
}

#[test]
fn successful_staking_should_increase_staked_amount_even_if_sfts_are_sent_twice_in_same_tx() {
    let mut world = setup_world_with_contract();

    send_stake_tx(&mut world, USER_ADDRESS, &[(SFT_TOKEN_ID, 1, 1), (SFT_TOKEN_ID, 1, 1)]);

    check_staked_amount(&world, USER_ADDRESS, SFT_TOKEN_ID, 1, 2);
}

#[test]
fn staking_unsupported_asset_should_fail() {
    let mut world = setup_world_with_contract();

    let r = world.stake(USER_ADDRESS, &vec![payment(UNSUPPORTED_NFT_TOKEN_ID, 1, 1)], 0);
    assert_eq!(r, Err(StakingError::AssetNotAllowed));
}

#[test]
fn should_not_be_able_to_stake_if_staking_is_disabled() {
    let mut world = setup_world_with_contract();

    world.disable_staking();

    let r = world.stake(USER_ADDRESS, &vec![payment(UNSUPPORTED_NFT_TOKEN_ID, 1, 1)], 0);
    assert_eq!(r, Err(StakingError::StakingDisabled));
}

#[test]
fn stake_should_increase_staking_scores() {
    let mut world = setup_world_with_contract();

    send_stake_tx(&mut world, USER_ADDRESS, &[(NFT_TOKEN_ID, 1, 1)]);

    check_aggregated_staking_score(&world, DEFAULT_NFT_SCORE);
    check_user_staking_score(&world, USER_ADDRESS, DEFAULT_NFT_SCORE);
}

#[test]
fn staking_multiple_assets_should_increase_staking_scores() {
    let mut world = setup_world_with_contract();

    send_stake_tx(
        &mut world,
        USER_ADDRESS,
        &[
            (NFT_TOKEN_ID, 1, 1),
            (SFT_TOKEN_ID, 1, 1),
            (SFT_TOKEN_ID, 1, 1),
            (SFT_TOKEN_ID, 2, INITIAL_SFT_BALANCE),
        ],
    );

    let expected_score = 13 * DEFAULT_NFT_SCORE;
    check_aggregated_staking_score(&world, expected_score);
    check_user_staking_score(&world, USER_ADDRESS, expected_score);
}

#[test]
fn increasing_stake_should_increase_staking_scores() {
    let mut world = setup_world_with_contract();

    send_stake_tx(&mut world, USER_ADDRESS, &[(NFT_TOKEN_ID, 1, 1)]);

    check_aggregated_staking_score(&world, DEFAULT_NFT_SCORE);
    check_user_staking_score(&world, USER_ADDRESS, DEFAULT_NFT_SCORE);

    send_stake_tx(&mut world, USER_ADDRESS, &[(NFT_TOKEN_ID, 2, 1)]);

    check_aggregated_staking_score(&world, DEFAULT_NFT_SCORE * 2);
    check_user_staking_score(&world, USER_ADDRESS, DEFAULT_NFT_SCORE * 2);
}

#[test]
fn collection_score_should_override_default_score() {
    let mut world = setup_world_with_contract();
    world.set_collection_score(NFT_TOKEN_ID, (DEFAULT_NFT_SCORE * 2) as u64);

    send_stake_tx(&mut world, USER_ADDRESS, &[(NFT_TOKEN_ID, 1, 1)]);

    check_aggregated_staking_score(&world, DEFAULT_NFT_SCORE * 2);
}

#[test]
fn nonce_score_should_override_default_score() {
    let mut world = setup_world_with_contract();
    world.set_collection_nonce_score(NFT_TOKEN_ID, 1, (DEFAULT_NFT_SCORE * 2) as u64);

    send_stake_tx(&mut world, USER_ADDRESS, &[(NFT_TOKEN_ID, 1, 1)]);

    check_aggregated_staking_score(&world, DEFAULT_NFT_SCORE * 2);
}

#[test]
fn nonce_score_should_override_collection_score() {
    let mut world = setup_world_with_contract();
    world.set_collection_score(NFT_TOKEN_ID, (DEFAULT_NFT_SCORE * 2) as u64);
    world.set_collection_nonce_score(NFT_TOKEN_ID, 1, (DEFAULT_NFT_SCORE * 3) as u64);

    send_stake_tx(&mut world, USER_ADDRESS, &[(NFT_TOKEN_ID, 1, 1)]);

    check_aggregated_staking_score(&world, DEFAULT_NFT_SCORE * 3);
}

#[test]
fn quantity_should_be_accounted_for_correctly() {
    let mut world = setup_world_with_contract();
    world.set_collection_nonce_score(SFT_TOKEN_ID, 1, (DEFAULT_NFT_SCORE * 3) as u64);
    world.set_collection_score(SFT_TOKEN_ID, (DEFAULT_NFT_SCORE * 2) as u64);

    send_stake_tx(&mut world, USER_ADDRESS, &[(SFT_TOKEN_ID, 1, 2)]);
    send_stake_tx(&mut world, USER_ADDRESS, &[(SFT_TOKEN_ID, 2, 1)]);
    send_stake_tx(&mut world, USER_ADDRESS, &[(NFT_TOKEN_ID, 1, 1)]);

    let total_score = 9 * DEFAULT_NFT_SCORE;
    check_aggregated_staking_score(&world, total_score);
}

#[test]
fn staking_different_score_assets_should_be_accounted_for_correctly() {
    let mut world = setup_world_with_contract();
    world.set_collection_score(NFT_TOKEN_ID, (DEFAULT_NFT_SCORE * 2) as u64);
    world.set_collection_nonce_score(NFT_TOKEN_ID, 1, (DEFAULT_NFT_SCORE * 3) as u64);

    send_stake_tx(&mut world, USER_ADDRESS, &[(NFT_TOKEN_ID, 1, 1)]);
    send_stake_tx(&mut world, USER_ADDRESS, &[(NFT_TOKEN_ID, 2, 1)]);
    send_stake_tx(&mut world, USER_ADDRESS, &[(SFT_TOKEN_ID, 1, 1)]);

    let total_score = 6 * DEFAULT_NFT_SCORE;

    check_aggregated_staking_score(&world, total_score);
}

#[test]
fn unstaking_different_score_assets_should_be_accounted_for_correctly() {
    let mut world = setup_world_with_contract();
    world.set_collection_score(NFT_TOKEN_ID, (DEFAULT_NFT_SCORE * 2) as u64);
    world.set_collection_nonce_score(NFT_TOKEN_ID, 1, (DEFAULT_NFT_SCORE * 3) as u64);

    send_stake_tx(&mut world, USER_ADDRESS, &[(NFT_TOKEN_ID, 1, 1)]);
    send_stake_tx(&mut world, USER_ADDRESS, &[(NFT_TOKEN_ID, 2, 1)]);
    send_stake_tx(&mut world, USER_ADDRESS, &[(SFT_TOKEN_ID, 1, 1)]);

    send_unstake_tx(&mut world, USER_ADDRESS, &[(NFT_TOKEN_ID, 1, 1)]);
    send_unstake_tx(&mut world, USER_ADDRESS, &[(NFT_TOKEN_ID, 2, 1)]);
    send_unstake_tx(&mut world, USER_ADDRESS, &[(SFT_TOKEN_ID, 1, 1)]);

    check_aggregated_staking_score(&world, 0);
}

#[test]
fn should_not_be_able_to_unstake_if_nothing_staked() {
    let mut world = setup_world_with_contract();

    let r = world.unstake(USER_ADDRESS, &vec![payment(NFT_TOKEN_ID, 1, 1)], 0, 0);
    assert_eq!(r, Err(StakingError::InsufficientStake));
}

#[test]
fn should_not_be_able_to_unstake_if_not_enough_staked_balance() {
    let mut world = setup_world_with_contract();

    send_stake_tx(&mut world, USER_ADDRESS, &[(SFT_TOKEN_ID, 1, 1)]);

    let r = world.unstake(USER_ADDRESS, &vec![payment(SFT_TOKEN_ID, 1, 2)], 0, 0);
    assert_eq!(r, Err(StakingError::InsufficientStake));
}

#[test]
fn should_not_be_able_to_unstake_other_user_assets() {
    let mut world = setup_world_with_contract();

    send_stake_tx(&mut world, OWNER_ADDRESS, &[(SFT_TOKEN_ID, 1, 2)]);
    send_stake_tx(&mut world, USER_ADDRESS, &[(SFT_TOKEN_ID, 1, 1)]);

    let r = world.unstake(USER_ADDRESS, &vec![payment(SFT_TOKEN_ID, 1, 2)], 0, 0);
    assert_eq!(r, Err(StakingError::InsufficientStake));
}

#[test]
fn should_be_able_to_unstake_assets() {
    let mut world = setup_world_with_contract();

    send_stake_tx(
        &mut world,
        USER_ADDRESS,
        &[(NFT_TOKEN_ID, 1, 1), (SFT_TOKEN_ID, 1, INITIAL_SFT_BALANCE)],
    );
    send_unstake_tx(&mut world, USER_ADDRESS, &[(NFT_TOKEN_ID, 1, 1)]);
    send_unstake_tx(&mut world, USER_ADDRESS, &[(SFT_TOKEN_ID, 1, INITIAL_SFT_BALANCE / 2)]);
    send_unstake_tx(&mut world, USER_ADDRESS, &[(SFT_TOKEN_ID, 1, INITIAL_SFT_BALANCE / 2)]);

    send_stake_tx(&mut world, USER_ADDRESS, &[(NFT_TOKEN_ID, 2, 1), (SFT_TOKEN_ID, 2, 1)]);
    send_unstake_tx(&mut world, USER_ADDRESS, &[(NFT_TOKEN_ID, 2, 1), (SFT_TOKEN_ID, 2, 1)]);
}

#[test]
fn should_not_be_able_to_unstake_if_staking_is_disabled() {
    let mut world = setup_world_with_contract();

    send_stake_tx(&mut world, USER_ADDRESS, &[(NFT_TOKEN_ID, 1, 1)]);
    world.disable_staking();

    let r = world.unstake(USER_ADDRESS, &vec![payment(SFT_TOKEN_ID, 1, 2)], 0, 0);
    assert_eq!(r, Err(StakingError::StakingDisabled));
}

#[test]
fn should_allow_unstake_of_previously_supported_already_staked_collection() {
    let mut world = setup_world_with_contract();

    send_stake_tx(&mut world, USER_ADDRESS, &[(NFT_TOKEN_ID, 1, 1)]);

    world.disallow_collections(&vec![NFT_TOKEN_ID]);

    send_unstake_tx(&mut world, USER_ADDRESS, &[(NFT_TOKEN_ID, 1, 1)]);
}

#[test]
fn should_not_be_able_to_claim_before_penalty_is_over() {
    let mut world = setup_world_with_contract();

    send_stake_tx(&mut world, USER_ADDRESS, &[(NFT_TOKEN_ID, 1, 1)]);
    send_unstake_tx(&mut world, USER_ADDRESS, &[(NFT_TOKEN_ID, 1, 1)]);

    let r = world.claim_unstaked(USER_ADDRESS, 0);
    assert_eq!(r, Err(StakingError::NothingUnlocked));

    let r = world.claim_unstaked(USER_ADDRESS, UNSTAKE_PENALTY - 1);
    assert_eq!(r, Err(StakingError::NothingUnlocked));
}

#[test]
fn should_be_able_to_claim_after_penalty_is_over() {
    let mut world = setup_world_with_contract();

    send_stake_tx(&mut world, USER_ADDRESS, &[(NFT_TOKEN_ID, 1, 1)]);
    send_unstake_tx(&mut world, USER_ADDRESS, &[(NFT_TOKEN_ID, 1, 1)]);

    let released = world.claim_unstaked(USER_ADDRESS, UNSTAKE_PENALTY).unwrap();
    assert_eq!(released, vec![payment(NFT_TOKEN_ID, 1, 1)]);
}

#[test]
fn unstaking_should_decrease_staking_scores() {
    let mut world = setup_world_with_contract();

    send_stake_tx(&mut world, USER_ADDRESS, &[(NFT_TOKEN_ID, 1, 1)]);
    send_unstake_tx(&mut world, USER_ADDRESS, &[(NFT_TOKEN_ID, 1, 1)]);

    check_aggregated_staking_score(&world, 0);
    check_user_staking_score(&world, USER_ADDRESS, 0);
}

#[test]
fn unstaking_multiple_assets_should_decrease_staking_scores() {
    let mut world = setup_world_with_contract();

    send_stake_tx(
        &mut world,
        USER_ADDRESS,
        &[
            (NFT_TOKEN_ID, 1, 1),
            (SFT_TOKEN_ID, 1, 1),
            (SFT_TOKEN_ID, 1, 1),
            (SFT_TOKEN_ID, 2, INITIAL_SFT_BALANCE),
        ],
    );
    send_unstake_tx(
        &mut world,
        USER_ADDRESS,
        &[
            (NFT_TOKEN_ID, 1, 1),
            (SFT_TOKEN_ID, 1, 1),
            (SFT_TOKEN_ID, 1, 1),
            (SFT_TOKEN_ID, 2, INITIAL_SFT_BALANCE),
        ],
    );

    check_aggregated_staking_score(&world, 0);
    check_user_staking_score(&world, USER_ADDRESS, 0);
}

#[test]
fn unstaking_should_only_decrease_staking_scores_for_the_unstaked_assets() {
    let mut world = setup_world_with_contract();

    send_stake_tx(
        &mut world,
        USER_ADDRESS,
        &[
            (NFT_TOKEN_ID, 1, 1),
            (SFT_TOKEN_ID, 1, 1),
            (SFT_TOKEN_ID, 1, 1),
            (SFT_TOKEN_ID, 2, INITIAL_SFT_BALANCE),
        ],
    );
    send_unstake_tx(
        &mut world,
        USER_ADDRESS,
        &[(NFT_TOKEN_ID, 1, 1), (SFT_TOKEN_ID, 1, 1), (SFT_TOKEN_ID, 1, 1)],
    );

    check_aggregated_staking_score(&world, INITIAL_SFT_BALANCE * DEFAULT_NFT_SCORE);
    check_user_staking_score(&world, USER_ADDRESS, INITIAL_SFT_BALANCE * DEFAULT_NFT_SCORE);
}

#[test]
fn double_sft_unstake_fails_if_not_enough_staked_balance() {
    let mut world = setup_world_with_contract();

    send_stake_tx(&mut world, USER_ADDRESS, &[(SFT_TOKEN_ID, 1, 1)]);
    send_stake_tx(&mut world, OWNER_ADDRESS, &[(SFT_TOKEN_ID, 1, 1)]);

    let request = vec![payment(SFT_TOKEN_ID, 1, 1), payment(SFT_TOKEN_ID, 1, 1)];
    let r = world.unstake(USER_ADDRESS, &request, 0, 0);
    assert_eq!(r, Err(StakingError::InsufficientStake));
}

#[test]
fn pending_reward_is_properly_calculated_for_manually_distributed_rewards() {
    let mut world = setup_world_with_contract();

    send_stake_tx(&mut world, USER_ADDRESS, &[(NFT_TOKEN_ID, 1, 1)]);
    send_distribute_rewards_tx(&mut world, REWARD_TOKEN_ID_1, DEFAULT_NFT_SCORE);

    check_pending_reward(&world, USER_ADDRESS, REWARD_TOKEN_ID_1, DEFAULT_NFT_SCORE);
}

#[test]
fn pending_reward_is_properly_calculated_for_planned_distributed_rewards() {
    let mut world = setup_world_with_contract();

    send_set_distribution_plan_tx(&mut world, REWARD_TOKEN_ID_1, 0, 100, 100);
    send_stake_tx(&mut world, USER_ADDRESS, &[(NFT_TOKEN_ID, 1, 1)]);

    send_stake_tx_at(&mut world, USER_ADDRESS, &[(NFT_TOKEN_ID, 2, 1)], 1);

    check_pending_reward(&world, USER_ADDRESS, REWARD_TOKEN_ID_1, 1);
}

#[test]
fn pending_reward_is_properly_calculated_for_combined_reward_sources() {}

#[test]
fn reward_should_be_distributed_proportionally_to_stake_score() {
    let mut world = setup_world_with_contract();

    send_stake_tx(&mut world, USER_ADDRESS, &[(NFT_TOKEN_ID, 1, 1)]);
    send_stake_tx(&mut world, OWNER_ADDRESS, &[(SFT_TOKEN_ID, 1, 3)]);

    send_distribute_rewards_tx(&mut world, REWARD_TOKEN_ID_1, 4);

    check_pending_reward(&world, USER_ADDRESS, REWARD_TOKEN_ID_1, 1);
    check_pending_reward(&world, OWNER_ADDRESS, REWARD_TOKEN_ID_1, 3);
}

#[test]
fn existing_users_should_receive_new_rewards_with_no_state_update() {
    let mut world = setup_world_with_contract();

    send_stake_tx(&mut world, USER_ADDRESS, &[(NFT_TOKEN_ID, 1, 1)]);
    send_distribute_rewards_tx(&mut world, REWARD_TOKEN_ID_1, 1);
    send_distribute_rewards_tx(&mut world, REWARD_TOKEN_ID_2, 10);

    check_pending_reward(&world, USER_ADDRESS, REWARD_TOKEN_ID_1, 1);
    check_pending_reward(&world, USER_ADDRESS, REWARD_TOKEN_ID_2, 10);
}

#[test]
fn cannot_double_claim_rewards() {
    let mut world = setup_world_with_contract();

    send_stake_tx(&mut world, USER_ADDRESS, &[(NFT_TOKEN_ID, 1, 1)]);
    send_distribute_rewards_tx(&mut world, REWARD_TOKEN_ID_1, 1);

    world.claim_rewards(USER_ADDRESS, 0).unwrap();
    let r = world.claim_rewards(USER_ADDRESS, 0);
    assert_eq!(r, Err(StakingError::NoRewardsToClaim));
}

#[test]
fn cannot_claim_rewards_with_staking_disabled() {
    let mut world = setup_world_with_contract();

    send_stake_tx(&mut world, USER_ADDRESS, &[(NFT_TOKEN_ID, 1, 1)]);
    send_distribute_rewards_tx(&mut world, REWARD_TOKEN_ID_1, 1);
    world.disable_staking();

    let r = world.claim_rewards(USER_ADDRESS, 0);
    assert_eq!(r, Err(StakingError::StakingDisabled));
}

#[test]
fn cannot_claim_rewards_with_no_rewards_to_claim() {
    let mut world = setup_world_with_contract();

    send_stake_tx(&mut world, USER_ADDRESS, &[(NFT_TOKEN_ID, 1, 1)]);
    let r = world.claim_rewards(USER_ADDRESS, 0);
    assert_eq!(r, Err(StakingError::NoRewardsToClaim));
}

#[test]
fn manual_reward_distribution_correctly_updates_reward_rate() {
    let mut world = setup_world_with_contract();

    send_stake_tx(&mut world, USER_ADDRESS, &[(NFT_TOKEN_ID, 1, 1)]);
    send_stake_tx(&mut world, USER_ADDRESS, &[(NFT_TOKEN_ID, 2, 1)]);

    let amount_to_distribute = DEFAULT_NFT_SCORE;
    let expected_reward_rate = REWARD_RATE_DENOMINATION / 2;

    send_distribute_rewards_tx(&mut world, REWARD_TOKEN_ID_1, amount_to_distribute);

    check_reward_rate(&world, REWARD_TOKEN_ID_1, expected_reward_rate);
}

#[test]
fn manual_reward_distribution_does_not_update_last_distribution_round() {
    let mut world = setup_world_with_contract();

    send_distribute_rewards_tx(&mut world, REWARD_TOKEN_ID_1, DEFAULT_NFT_SCORE);
    check_last_distribution_round(&world, 0);
}

#[test]
fn manual_reward_distribution_does_not_fail_with_nothing_staked() {
    let mut world = setup_world_with_contract();

    send_distribute_rewards_tx(&mut world, REWARD_TOKEN_ID_1, DEFAULT_NFT_SCORE);

    check_last_distribution_round(&world, 0);
}

#[test]
fn manual_reward_distribution_adds_new_token_to_reward_token_list() {
    let mut world = setup_world_with_contract();

    send_distribute_rewards_tx(&mut world, REWARD_TOKEN_ID_1, DEFAULT_NFT_SCORE);
    send_distribute_rewards_tx(&mut world, REWARD_TOKEN_ID_2, DEFAULT_NFT_SCORE);

    check_if_token_is_reward_token(&world, REWARD_TOKEN_ID_1);
    check_if_token_is_reward_token(&world, REWARD_TOKEN_ID_2);
}

#[test]
fn reward_distribution_planned_reward_distribution_round_distribution_amount_calculation_should_work()
{
    let world = setup_world_with_contract();

    let per_round = world.get_amount_per_round(0, 10, REWARD_RATE_DENOMINATION);
    assert_eq!(per_round, REWARD_RATE_DENOMINATION / 10 * REWARD_RATE_DENOMINATION);
}

#[test]
fn planned_distribution_planned_reward_distribution_round_distribution_amount_calculation_should_work()
{
    let world = setup_world_with_contract();

    let per_round = world.get_amount_per_round(0, 10, REWARD_RATE_DENOMINATION);
    assert_eq!(per_round, REWARD_RATE_DENOMINATION / 10 * REWARD_RATE_DENOMINATION);
}

#[test]
fn planned_reward_distribution_adds_new_token_to_reward_token_list() {
    let mut world = setup_world_with_contract();

    send_set_distribution_plan_tx(&mut world, REWARD_TOKEN_ID_1, 0, 100, 100);

    check_if_token_is_reward_token(&world, REWARD_TOKEN_ID_1);
}

#[test]
fn executed_planned_distribution_should_update_last_distribution_round() {
    let mut world = setup_world_with_contract();

    send_set_distribution_plan_tx(&mut world, REWARD_TOKEN_ID_1, 0, 100, 100);
    check_last_distribution_round(&world, 0);

    send_stake_tx_at(&mut world, USER_ADDRESS, &[(NFT_TOKEN_ID, 1, 1)], 1);
    check_last_distribution_round(&world, 1);

    send_stake_tx_at(&mut world, USER_ADDRESS, &[(NFT_TOKEN_ID, 2, 1)], 2);
    check_last_distribution_round(&world, 2);
}

#[test]
fn planned_distribution_happens_exactly_once() {
    let mut world = setup_world_with_contract();

    send_set_distribution_plan_tx(&mut world, REWARD_TOKEN_ID_1, 0, 100, 100);
    send_stake_tx(&mut world, USER_ADDRESS, &[(NFT_TOKEN_ID, 1, 1)]);

    send_stake_tx_at(&mut world, USER_ADDRESS, &[(NFT_TOKEN_ID, 2, 1)], 1);
    send_stake_tx_at(&mut world, USER_ADDRESS, &[(NFT_TOKEN_ID, 3, 1)], 1);
    send_stake_tx_at(&mut world, USER_ADDRESS, &[(NFT_TOKEN_ID, 4, 1)], 1);

    let expected_reward_rate = REWARD_RATE_DENOMINATION / DEFAULT_NFT_SCORE;
    check_reward_rate(&world, REWARD_TOKEN_ID_1, expected_reward_rate);
}

#[test]
fn planned_distribution_state_update_should_not_happen_unless_triggered() {
    let mut world = setup_world_with_contract();

    send_set_distribution_plan_tx(&mut world, REWARD_TOKEN_ID_1, 0, 100, 100);

    check_reward_rate(&world, REWARD_TOKEN_ID_1, 0);
    check_last_distribution_round(&world, 0);
}

#[test]
fn existing_stakers_should_receive_rewards_with_no_state_update() {
    let mut world = setup_world_with_contract();

    send_stake_tx(&mut world, USER_ADDRESS, &[(NFT_TOKEN_ID, 1, 1)]);
    send_set_distribution_plan_tx(&mut world, REWARD_TOKEN_ID_1, 0, 100, 100);

    send_stake_tx_at(&mut world, OWNER_ADDRESS, &[(SFT_TOKEN_ID, 1, 1)], 1);
    check_reward_rate(&world, REWARD_TOKEN_ID_1, REWARD_RATE_DENOMINATION / DEFAULT_NFT_SCORE);
    check_last_distribution_round(&world, 1);
}
