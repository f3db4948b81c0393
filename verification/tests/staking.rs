use soroscope::fixed::{Fixed, SCALE};
use soroscope::staking::{
    compute_epoch_rate, epoch_for_block, epoch_start_block, ContractError, StakingRewards, StakingState,
    UserStakingState,
};
use soroscope::wide::{mul_div, mul_div_u128};

const OWNER: u64 = 1;
const STAKING_TOKEN: u64 = 2;
const REWARD_TOKEN: u64 = 3;
const ALICE: u64 = 10;
const BOB: u64 = 11;

/// A contract paying 0.1% per block in epoch 0, decaying by 10% per
/// 100-block epoch, starting at block 1000.
fn contract() -> StakingRewards {
    let mut c = StakingRewards::new();
    c.initialize(OWNER, STAKING_TOKEN, REWARD_TOKEN, SCALE / 1000, SCALE / 10, 100, 1000).unwrap();
    c
}

#[test]
fn mul_div_rounds_toward_zero() {
    assert_eq!(mul_div(6, 7, 4), Some(10));
    assert_eq!(mul_div(-6, 7, 4), Some(-10));
    assert_eq!(mul_div(6, -7, -4), Some(10));
    assert_eq!(mul_div(1, 1, 0), None);
    assert_eq!(mul_div(i128::MAX, 2, 1), None);
    assert_eq!(mul_div(i128::MAX, i128::MAX, i128::MAX), Some(i128::MAX));
}

#[test]
fn mul_div_u128_handles_wide_products() {
    assert_eq!(mul_div_u128(10, 20, 3), (66, false));
    assert_eq!(mul_div_u128(u128::MAX, 3, 5), (204169420152563078078024764459060926873, false));
    // Divisors above 2^127 shift the remainder's top bit out of the long division.
    assert_eq!(mul_div_u128(u128::MAX, u128::MAX, u128::MAX), (0, false));
    assert_eq!(mul_div_u128(u128::MAX, 1u128 << 126, 1u128 << 127), ((1u128 << 127) - 1, false));
    assert_eq!(mul_div_u128(u128::MAX, 2, 1), (0, true));
    assert_eq!(mul_div_u128(u128::MAX, 2, 0), (0, true));
    let big = 1u128 << 100;
    assert_eq!(mul_div_u128(big, big, 1u128 << 90), (1u128 << 110, false));
}

#[test]
fn fixed_point_operations() {
    assert_eq!(Fixed::one(), Fixed(SCALE));
    assert_eq!(Fixed::from_int(3), Some(Fixed(3 * SCALE)));
    assert_eq!(Fixed::from_int(i128::MAX), None);
    assert_eq!(Fixed(3 * SCALE / 2).mul(Fixed(2 * SCALE)), Some(Fixed(3 * SCALE)));
    assert_eq!(Fixed(SCALE).sub(Fixed(SCALE / 4)), Some(Fixed(3 * SCALE / 4)));
    assert_eq!(Fixed(0).exp(), Some(Fixed(SCALE)));
    let e = Fixed(SCALE).exp().unwrap().0;
    assert!((e - 2_718_281_828_459_045_235).abs() < 1_000);
    assert_eq!(Fixed(200 * SCALE).exp(), None);
}

#[test]
fn epoch_helpers() {
    assert_eq!(epoch_for_block(1000, 100, 900), 0);
    assert_eq!(epoch_for_block(1000, 100, 1000), 0);
    assert_eq!(epoch_for_block(1000, 100, 1099), 0);
    assert_eq!(epoch_for_block(1000, 100, 1100), 1);
    assert_eq!(epoch_start_block(1000, 100, 3), 1300);
}

#[test]
fn initialize_validates_parameters() {
    let mut c = StakingRewards::new();
    assert_eq!(c.get_config(), Err(ContractError::NotInitialized));
    assert_eq!(c.initialize(OWNER, 2, 3, 1, -1, 10, 0), Err(ContractError::InvalidInput));
    assert_eq!(c.initialize(OWNER, 2, 3, 1, SCALE + 1, 10, 0), Err(ContractError::InvalidInput));
    assert_eq!(c.initialize(OWNER, 2, 3, 1, 0, 0, 0), Err(ContractError::InvalidInput));
    assert_eq!(c.initialize(OWNER, 2, 3, -1, 0, 10, 0), Err(ContractError::InvalidInput));
    assert_eq!(c.initialize(OWNER, 2, 3, 1, 0, 10, 0), Ok(()));
    assert_eq!(c.initialize(OWNER, 2, 3, 1, 0, 10, 0), Err(ContractError::AlreadyInitialized));
    let config = c.get_config().unwrap();
    assert_eq!(config.owner, OWNER);
    assert_eq!(config.epoch_length, 10);
    assert!(!config.is_paused);
}

#[test]
fn operations_before_initialization_are_refused() {
    let mut c = StakingRewards::new();
    assert_eq!(c.stake(ALICE, 10, 5), Err(ContractError::NotInitialized));
    assert_eq!(c.withdraw(ALICE, 10, 5), Err(ContractError::NotInitialized));
    assert_eq!(c.claim(ALICE, 5), Err(ContractError::NotInitialized));
    assert_eq!(c.emergency_withdraw(ALICE), Err(ContractError::NotInitialized));
    assert_eq!(c.set_paused(true), Err(ContractError::NotInitialized));
    assert_eq!(c.get_pending_rewards(ALICE, 5), 0);
}

#[test]
fn stake_and_withdraw_track_the_total() {
    let mut c = contract();
    assert_eq!(c.stake(ALICE, 0, 1000), Err(ContractError::InvalidInput));
    assert_eq!(c.stake(ALICE, 500, 1000), Ok(()));
    assert_eq!(c.stake(BOB, 300, 1000), Ok(()));
    assert_eq!(c.total_staked(), 800);
    assert_eq!(c.get_staked_balance(ALICE), 500);
    assert_eq!(c.withdraw(ALICE, 600, 1000), Err(ContractError::InsufficientBalance));
    assert_eq!(c.withdraw(ALICE, 200, 1000), Ok(()));
    assert_eq!(c.get_staked_balance(ALICE), 300);
    assert_eq!(c.total_staked(), 600);
    assert_eq!(c.withdraw(ALICE, 300, 1000), Ok(()));
    assert_eq!(c.get_staked_balance(ALICE), 0);
    assert_eq!(c.total_staked(), 300);
}

#[test]
fn rewards_compound_with_the_rate() {
    let mut c = contract();
    c.stake(ALICE, 1_000_000, 1000).unwrap();
    assert_eq!(c.get_pending_rewards(ALICE, 1000), 0);
    // 10 blocks at 0.1%: 1_000_000 * (e^0.01 - 1) = 10_050.17.. rounded down.
    assert_eq!(c.get_pending_rewards(ALICE, 1010), 10_050);
    assert_eq!(c.get_accrued_rewards(ALICE), 0);
    let paid = c.claim(ALICE, 1010).unwrap();
    assert_eq!(paid, 10_050);
    assert_eq!(c.get_accrued_rewards(ALICE), 0);
    assert_eq!(c.get_staked_balance(ALICE), 1_000_000);
    assert_eq!(c.claim(ALICE, 1010), Ok(0));
}

#[test]
fn rewards_do_not_accrue_before_the_start_block() {
    let mut c = contract();
    c.stake(ALICE, 1_000_000, 500).unwrap();
    assert_eq!(c.get_pending_rewards(ALICE, 999), 0);
    assert_eq!(c.get_pending_rewards(ALICE, 1000), 0);
    assert!(c.get_pending_rewards(ALICE, 1001) > 0);
}

#[test]
fn pause_blocks_all_but_emergency_withdraw() {
    let mut c = contract();
    c.stake(ALICE, 1_000, 1000).unwrap();
    c.set_paused(true).unwrap();
    assert!(c.get_config().unwrap().is_paused);
    assert_eq!(c.stake(ALICE, 1, 1001), Err(ContractError::Paused));
    assert_eq!(c.withdraw(ALICE, 1, 1001), Err(ContractError::Paused));
    assert_eq!(c.claim(ALICE, 1001), Err(ContractError::Paused));
    assert_eq!(c.emergency_withdraw(ALICE), Ok(1_000));
    assert_eq!(c.get_staked_balance(ALICE), 0);
    assert_eq!(c.total_staked(), 0);
    assert_eq!(c.emergency_withdraw(ALICE), Ok(0));
    c.set_paused(false).unwrap();
    assert_eq!(c.stake(ALICE, 1, 1001), Ok(()));
}

#[test]
fn emergency_withdraw_forfeits_rewards() {
    let mut c = contract();
    c.stake(ALICE, 1_000_000, 1000).unwrap();
    c.stake(ALICE, 1, 1100).unwrap();
    assert!(c.get_accrued_rewards(ALICE) > 0);
    assert_eq!(c.emergency_withdraw(ALICE), Ok(1_000_001));
    assert_eq!(c.get_accrued_rewards(ALICE), 0);
    assert_eq!(c.get_pending_rewards(ALICE, 1200), 0);
}

#[test]
fn later_epochs_pay_less() {
    let mut c = contract();
    c.stake(ALICE, 1_000_000, 1000).unwrap();
    c.stake(BOB, 1_000_000, 1500).unwrap();
    let first = c.get_pending_rewards(ALICE, 1010);
    let later = c.get_pending_rewards(BOB, 1510);
    assert!(later < first);
    assert!(later > 0);
}

#[test]
fn accrual_range_check() {
    // Epochs of 2^30 blocks from block 0: the epoch holding u32::MAX ends
    // past the largest block number.
    let mut c = StakingRewards::new();
    c.initialize(OWNER, STAKING_TOKEN, REWARD_TOKEN, 0, 0, 1 << 30, 0).unwrap();
    c.stake(ALICE, 5, 0).unwrap();
    assert!(c.accrual_in_range(ALICE, 1000));
    assert!(!c.accrual_in_range(ALICE, u32::MAX));
    assert!(c.accrual_in_range(BOB, u32::MAX));
    // When an earlier epoch's factor already overflows, the computation
    // stops with an error before reaching the last epoch's end.
    let mut c = StakingRewards::new();
    c.initialize(OWNER, STAKING_TOKEN, REWARD_TOKEN, SCALE, 0, 1 << 30, 0).unwrap();
    c.stake(ALICE, 5, 0).unwrap();
    assert!(c.accrual_in_range(ALICE, u32::MAX));
    assert_eq!(c.stake(ALICE, 1, u32::MAX), Err(ContractError::Overflow));
}

#[test]
fn export_and_restore_round_trip() {
    let mut c = contract();
    c.stake(ALICE, 500, 1000).unwrap();
    c.stake(BOB, 300, 1000).unwrap();
    let state = c.export();
    assert_eq!(state.total_staked, 800);
    assert_eq!(state.users.len(), 2);
    let mut resumed = StakingRewards::restore(state).unwrap();
    assert_eq!(resumed.total_staked(), 800);
    assert_eq!(resumed.get_staked_balance(ALICE), 500);
    assert_eq!(resumed.get_pending_rewards(ALICE, 1010), c.get_pending_rewards(ALICE, 1010));
}

#[test]
fn restore_refuses_inconsistent_state() {
    let position = UserStakingState { staked_amount: -1, accrued_rewards: 0, last_update_block: 0 };
    let config = contract().get_config().unwrap();
    let negative = StakingState { config: Some(config), total_staked: 0, users: vec![(ALICE, position)] };
    assert!(StakingRewards::restore(negative).is_none());
    let orphan = StakingState { config: None, total_staked: 5, users: vec![] };
    assert!(StakingRewards::restore(orphan).is_none());
    let empty = StakingState { config: None, total_staked: 0, users: vec![] };
    assert!(StakingRewards::restore(empty).is_some());
}

#[test]
fn total_is_the_sum_of_positions() {
    let mut c = contract();
    c.stake(ALICE, 500, 1000).unwrap();
    c.stake(BOB, 300, 1005).unwrap();
    c.withdraw(ALICE, 200, 1010).unwrap();
    c.claim(BOB, 1020).unwrap();
    c.emergency_withdraw(BOB).unwrap();
    let state = c.export();
    let sum: i128 = state.users.iter().map(|(_, p)| p.staked_amount).sum();
    assert_eq!(state.total_staked, sum);
    assert_eq!(sum, 300);
}

#[test]
fn pending_rewards_never_below_accrued() {
    let mut c = contract();
    c.stake(ALICE, 1_000_000, 1000).unwrap();
    c.stake(ALICE, 1, 1050).unwrap();
    let accrued = c.get_accrued_rewards(ALICE);
    assert!(accrued > 0);
    for block in [1050u32, 1051, 1100, 1250, 2000] {
        assert!(c.get_pending_rewards(ALICE, block) >= accrued);
    }
}

#[test]
fn emergency_withdraw_without_principal_forfeits_rewards() {
    let mut c = contract();
    c.stake(ALICE, 1_000_000, 1000).unwrap();
    c.withdraw(ALICE, 1_000_000, 1100).unwrap();
    assert_eq!(c.get_staked_balance(ALICE), 0);
    assert!(c.get_accrued_rewards(ALICE) > 0);
    assert_eq!(c.emergency_withdraw(ALICE), Ok(0));
    assert_eq!(c.get_accrued_rewards(ALICE), 0);
    assert_eq!(c.total_staked(), 0);
    assert!(c.export().users.is_empty());
}

#[test]
fn stake_then_withdraw_restores_the_position() {
    let mut c = contract();
    c.stake(ALICE, 1_000_000, 1000).unwrap();
    let pending = c.get_pending_rewards(ALICE, 1050);
    c.stake(ALICE, 500, 1050).unwrap();
    c.withdraw(ALICE, 500, 1050).unwrap();
    assert_eq!(c.get_staked_balance(ALICE), 1_000_000);
    assert_eq!(c.total_staked(), 1_000_000);
    assert_eq!(c.get_accrued_rewards(ALICE), pending);
}

#[test]
fn claiming_twice_pays_once() {
    let mut c = contract();
    c.stake(ALICE, 1_000_000, 1000).unwrap();
    assert!(c.claim(ALICE, 1010).unwrap() > 0);
    assert_eq!(c.claim(ALICE, 1010), Ok(0));
}

#[test]
fn paused_refusal_comes_before_accrual() {
    let mut c = StakingRewards::new();
    c.initialize(OWNER, STAKING_TOKEN, REWARD_TOKEN, 0, 0, 1 << 30, 0).unwrap();
    c.stake(ALICE, 5, 0).unwrap();
    c.set_paused(true).unwrap();
    assert!(!c.accrual_in_range(ALICE, u32::MAX));
    assert_eq!(c.stake(ALICE, 1, u32::MAX), Err(ContractError::Paused));
    assert_eq!(c.withdraw(ALICE, 1, u32::MAX), Err(ContractError::Paused));
    assert_eq!(c.claim(ALICE, u32::MAX), Err(ContractError::Paused));
    c.set_paused(false).unwrap();
    assert_eq!(c.stake(ALICE, 0, u32::MAX), Err(ContractError::InvalidInput));
}

#[test]
fn epoch_rates_decay_and_are_cached() {
    let initial = Fixed(SCALE / 1000);
    let decay = Fixed(SCALE / 10);
    assert_eq!(compute_epoch_rate(&initial, &decay, 0), Ok(initial));
    assert_eq!(compute_epoch_rate(&initial, &decay, 1), Ok(Fixed(SCALE / 1000 * 9 / 10)));
    let r1 = compute_epoch_rate(&initial, &decay, 1).unwrap();
    let r5 = compute_epoch_rate(&initial, &decay, 5).unwrap();
    assert!(r5.0 < r1.0);
    let mut c = contract();
    let config = c.get_config().unwrap();
    assert_eq!(c.epoch_snapshots().len(), 1);
    c.ensure_epoch_snapshots(&config, 1350).unwrap();
    let snapshots = c.epoch_snapshots();
    assert_eq!(snapshots.len(), 4);
    assert_eq!(snapshots[3].start_block, 1300);
    assert_eq!(snapshots[1].rate, r1);
    c.ensure_epoch_snapshots(&config, 1100).unwrap();
    assert_eq!(c.epoch_snapshots(), snapshots);
}
