//! End-to-end tests of the staking engine, driven block by block the way
//! the host runtime drives its pre-block hook and dispatched actions.

use ip_staking::ledger::Pallet;
use ip_staking::types::{Config, Error, Event, GenesisConfig};

pub const UNIT: u128 = 1_000_000_000_000;

pub const ALICE: u128 = 1;
pub const BOB: u128 = 2;
pub const CHARLIE: u128 = 3;

/// The pot account the pallet identity derives.
pub const INFLATION_POT: u128 = u64::from_le_bytes(*b"ia/ipstk") as u128;

fn test_config() -> Config {
    Config {
        pot_account: INFLATION_POT,
        ips_register_deposit: UNIT,
        min_staking_amount: UNIT,
        blocks_per_era: 1,
        blocks_per_year: 365,
        unbonding_period: 1,
        max_unique_stakes: 10,
        ip_staking_inflation_rate: 100_000_000,
        ips_inflation_percentage: 600_000_000,
        staker_inflation_percentage: 400_000_000,
    }
}

fn test_genesis() -> GenesisConfig {
    GenesisConfig {
        total_staked: (0, 0, 0),
        current_era: 0,
        last_payout_block: 0,
        initial_inflation_per_era: 3_205_000_000_000_000,
        last_inflation_recalc_block: 0,
    }
}

/// The genesis balance sheet; generous enough for every scenario below.
fn test_balances() -> Vec<(u128, u128)> {
    vec![
        (ALICE, 100 * UNIT),
        (BOB, 11_699_993_000_000_000_000),
        (CHARLIE, 100 * UNIT),
        (4, UNIT),
        (5, UNIT),
        (6, UNIT),
    ]
}

fn new_test_pallet() -> Pallet {
    Pallet::new(test_config(), test_genesis(), 1, test_balances())
}

/// Run the pre-block hook of every block up to and including `n`.
fn run_to_block(p: &mut Pallet, n: u32) {
    let mut b = p.current_block() + 1;
    while b <= n {
        p.on_initialize(b).unwrap();
        b += 1;
    }
}

fn create_ips(p: &mut Pallet) -> u32 {
    p.create_ips()
}

fn register_ips(p: &mut Pallet, ips_id: u32) {
    let derived = p.registry_address(ips_id).unwrap();
    let r = p.register(derived, ips_id);
    assert!(r.is_ok());
    assert!(p.registered_ips(ips_id).is_some());
}

fn lock_of(p: &Pallet, who: u128) -> Option<u128> {
    p.staking_lock(who)
}

#[test]
fn ips_registered() {
    let mut p = new_test_pallet();
    let ips_id = create_ips(&mut p);
    register_ips(&mut p, ips_id);
}

#[test]
fn stake_to_ips() {
    let mut p = new_test_pallet();

    // ---ERA 0---
    let ips_id = create_ips(&mut p);
    register_ips(&mut p, ips_id);

    assert_eq!(p.total_staked(), (0, 0, 0));

    // BOB has never staked before
    assert!(p.ips_stakers(BOB).is_none());

    // Stake to IP set with 1 above the minimum staking amount
    assert!(p.stake(BOB, ips_id, 1_000_000_000_001).is_ok());

    // New stake applies to the next era; current total stake is still 0
    assert_eq!(p.total_staked(), (0, 1_000_000_000_001, 0));
    assert_eq!(p.ips_stakers(BOB).unwrap(), (0, 1_000_000_000_001, 0));

    let registered_ips_obj = p.registered_ips(ips_id).unwrap();
    assert_eq!(registered_ips_obj.total_stake, 0);
    assert_eq!(registered_ips_obj.next_era_new_stake, 1_000_000_000_001);
    assert_eq!(registered_ips_obj.next_era_new_unstake, 0);

    // Staking with no history
    assert_eq!(p.stake_by_era(BOB, ips_id), Some((None, Some(1_000_000_000_001), None)));

    // Staking multiple times in the same era
    assert!(p.stake(BOB, ips_id, 1_000_000_000_000).is_ok());
    assert_eq!(p.stake_by_era(BOB, ips_id), Some((None, Some(2_000_000_000_001), None)));
    assert_eq!(p.ips_stakers(BOB).unwrap(), (0, 2_000_000_000_001, 0));
    assert_eq!(p.total_staked(), (0, 2_000_000_000_001, 0));

    let registered_ips_obj = p.registered_ips(ips_id).unwrap();
    assert_eq!(registered_ips_obj.total_stake, 0);
    assert_eq!(registered_ips_obj.next_era_new_stake, 2_000_000_000_001);
    assert_eq!(registered_ips_obj.next_era_new_unstake, 0);

    // One era is one block in this configuration
    assert_eq!(p.current_block(), 1);
    run_to_block(&mut p, 2);
    assert_eq!(p.current_block(), 2);

    // ---Now in era 1---

    // New stake has been folded into total stake
    assert_eq!(p.total_staked(), (2_000_000_000_001, 0, 0));

    let registered_ips_obj = p.registered_ips(ips_id).unwrap();
    assert_eq!(registered_ips_obj.total_stake, 2_000_000_000_001);
    assert_eq!(registered_ips_obj.next_era_new_stake, 0);
    assert_eq!(registered_ips_obj.next_era_new_unstake, 0);

    // Stake has been shifted into the settled component
    assert_eq!(p.stake_by_era(BOB, ips_id), Some((Some((1, 2_000_000_000_001)), None, None)));
    assert_eq!(p.ips_stakers(BOB).unwrap(), (2_000_000_000_001, 0, 0));

    // Staking in a new era, on top of a settled stake from a previous one
    assert!(p.stake(BOB, ips_id, 1_000_000_000_000).is_ok());

    assert_eq!(p.total_staked(), (2_000_000_000_001, 1_000_000_000_000, 0));

    let registered_ips_obj = p.registered_ips(ips_id).unwrap();
    assert_eq!(registered_ips_obj.total_stake, 2_000_000_000_001);
    assert_eq!(registered_ips_obj.next_era_new_stake, 1_000_000_000_000);
    assert_eq!(registered_ips_obj.next_era_new_unstake, 0);

    assert_eq!(
        p.stake_by_era(BOB, ips_id),
        Some((Some((1, 2_000_000_000_001)), Some(1_000_000_000_000), None))
    );

    run_to_block(&mut p, 12);
    assert_eq!(p.current_block(), 12);

    // ---Now in era 11---

    assert_eq!(p.total_staked(), (3_000_000_000_001, 0, 0));

    let registered_ips_obj = p.registered_ips(ips_id).unwrap();
    assert_eq!(registered_ips_obj.total_stake, 3_000_000_000_001);
    assert_eq!(registered_ips_obj.next_era_new_stake, 0);
    assert_eq!(registered_ips_obj.next_era_new_unstake, 0);

    // The settled component keeps the era of its last promotion
    assert_eq!(p.stake_by_era(BOB, ips_id), Some((Some((2, 3_000_000_000_001)), None, None)));

    let ev = p.stake(BOB, ips_id, 2_000_000_000_000).unwrap();

    assert_eq!(p.total_staked(), (3_000_000_000_001, 2_000_000_000_000, 0));

    let registered_ips_obj = p.registered_ips(ips_id).unwrap();
    assert_eq!(registered_ips_obj.total_stake, 3_000_000_000_001);
    assert_eq!(registered_ips_obj.next_era_new_stake, 2_000_000_000_000);
    assert_eq!(registered_ips_obj.next_era_new_unstake, 0);

    assert_eq!(
        p.stake_by_era(BOB, ips_id),
        Some((Some((2, 3_000_000_000_001)), Some(2_000_000_000_000), None))
    );
    assert_eq!(p.ips_stakers(BOB).unwrap(), (3_000_000_000_001, 2_000_000_000_000, 0));

    // The stake call reports the NewStake event
    assert_eq!(
        ev,
        Event::NewStake { staker: BOB, ips_id: 0, stake_amount: 2_000_000_000_000 }
    );
}

#[test]
fn staking_below_min_amount_should_fail() {
    let mut p = new_test_pallet();
    let ips_id = create_ips(&mut p);
    register_ips(&mut p, ips_id);

    // One below the minimum staking amount
    assert_eq!(
        p.stake(BOB, ips_id, 999_999_999_999),
        Err(Error::BelowMinStakingAmount)
    );
    assert_eq!(p.total_staked(), (0, 0, 0));
    assert!(p.ips_stakers(BOB).is_none());
}

#[test]
fn staking_to_non_registered_ips_should_fail() {
    let mut p = new_test_pallet();
    let ips_id = create_ips(&mut p);
    // IP set is created, but not registered

    assert_eq!(
        p.stake(BOB, ips_id, 1_000_000_000_001),
        Err(Error::IpsNotRegistered)
    );
}

#[test]
fn staking_lock_correct() {
    let mut p = new_test_pallet();
    let ips_id = create_ips(&mut p);
    register_ips(&mut p, ips_id);

    assert!(p.stake(BOB, ips_id, 10_000_000_000_000).is_ok());
    assert_eq!(lock_of(&p, BOB).unwrap(), 10_000_000_000_000);

    assert!(p.stake(BOB, ips_id, 15_000_000_000_000).is_ok());
    assert_eq!(lock_of(&p, BOB).unwrap(), 25_000_000_000_000);

    run_to_block(&mut p, 2);
    assert_eq!(lock_of(&p, BOB).unwrap(), 25_000_000_000_000);

    assert!(p.unstake_amount(BOB, ips_id, 5_000_000_000_000).is_ok());

    let mut unlock_era = p.current_era() + 1 + 1;
    assert!(p.unstake_queue(unlock_era).contains(&BOB));
    assert_eq!(p.ips_stakers(BOB).unwrap(), (25_000_000_000_000, 0, 5_000_000_000_000));

    run_to_block(&mut p, 3);

    // Lock unchanged: the unbonding period is not over yet
    assert_eq!(lock_of(&p, BOB).unwrap(), 25_000_000_000_000);
    assert_eq!(p.ips_stakers(BOB).unwrap(), (20_000_000_000_000, 0, 0));

    run_to_block(&mut p, 4);

    assert!(!p.unstake_queue(unlock_era).contains(&BOB));
    assert_eq!(p.ips_stakers(BOB).unwrap(), (20_000_000_000_000, 0, 0));
    assert_eq!(lock_of(&p, BOB).unwrap(), 20_000_000_000_000);

    assert!(p.stake(BOB, ips_id, 80_000_000_000_000).is_ok());
    assert_eq!(p.ips_stakers(BOB).unwrap(), (20_000_000_000_000, 80_000_000_000_000, 0));
    assert_eq!(lock_of(&p, BOB).unwrap(), 100_000_000_000_000);

    run_to_block(&mut p, 5);
    assert_eq!(p.ips_stakers(BOB).unwrap(), (100_000_000_000_000, 0, 0));
    assert_eq!(lock_of(&p, BOB).unwrap(), 100_000_000_000_000);

    assert!(p.unstake_all(BOB, ips_id).is_ok());

    unlock_era = p.current_era() + 1 + 1;
    assert!(p.unstake_queue(unlock_era).contains(&BOB));
    assert_eq!(p.ips_stakers(BOB).unwrap(), (100_000_000_000_000, 0, 100_000_000_000_000));
    assert_eq!(lock_of(&p, BOB).unwrap(), 100_000_000_000_000);

    run_to_block(&mut p, 6);
    assert_eq!(p.ips_stakers(BOB), None);
    assert_eq!(lock_of(&p, BOB).unwrap(), 100_000_000_000_000);

    run_to_block(&mut p, 7);
    assert!(!p.unstake_queue(unlock_era).contains(&BOB));
    assert_eq!(lock_of(&p, BOB), None);
}

#[test]
fn unstaking_from_ips() {
    let mut p = new_test_pallet();
    let ips_id = create_ips(&mut p);
    register_ips(&mut p, ips_id);

    assert!(p.stake(BOB, ips_id, 10_000_000_000_000).is_ok());

    assert_eq!(p.stake_by_era(BOB, ips_id), Some((None, Some(10_000_000_000_000), None)));
    assert_eq!(p.total_staked(), (0, 10_000_000_000_000, 0));
    assert_eq!(p.ips_stakers(BOB).unwrap(), (0, 10_000_000_000_000, 0));

    let obj = p.registered_ips(ips_id).unwrap();
    assert_eq!(obj.total_stake, 0);
    assert_eq!(obj.next_era_new_stake, 10_000_000_000_000);
    assert_eq!(obj.next_era_new_unstake, 0);

    run_to_block(&mut p, 2);

    assert_eq!(p.stake_by_era(BOB, ips_id), Some((Some((1, 10_000_000_000_000)), None, None)));
    assert_eq!(p.total_staked(), (10_000_000_000_000, 0, 0));
    assert_eq!(p.ips_stakers(BOB).unwrap(), (10_000_000_000_000, 0, 0));

    let obj = p.registered_ips(ips_id).unwrap();
    assert_eq!(obj.total_stake, 10_000_000_000_000);
    assert_eq!(obj.next_era_new_stake, 0);
    assert_eq!(obj.next_era_new_unstake, 0);

    // Unstake 5 tokens from the IP set
    assert!(p.unstake_amount(BOB, ips_id, 5_000_000_000_000).is_ok());

    assert_eq!(
        p.stake_by_era(BOB, ips_id),
        Some((Some((1, 10_000_000_000_000)), None, Some(5_000_000_000_000)))
    );
    assert_eq!(p.total_staked(), (10_000_000_000_000, 0, 5_000_000_000_000));
    assert_eq!(p.ips_stakers(BOB).unwrap(), (10_000_000_000_000, 0, 5_000_000_000_000));

    let obj = p.registered_ips(ips_id).unwrap();
    assert_eq!(obj.total_stake, 10_000_000_000_000);
    assert_eq!(obj.next_era_new_stake, 0);
    assert_eq!(obj.next_era_new_unstake, 5_000_000_000_000);

    run_to_block(&mut p, 3);

    assert_eq!(p.stake_by_era(BOB, ips_id), Some((Some((2, 5_000_000_000_000)), None, None)));
    assert_eq!(p.total_staked(), (5_000_000_000_000, 0, 0));
    assert_eq!(p.ips_stakers(BOB).unwrap(), (5_000_000_000_000, 0, 0));

    let obj = p.registered_ips(ips_id).unwrap();
    assert_eq!(obj.total_stake, 5_000_000_000_000);
    assert_eq!(obj.next_era_new_stake, 0);
    assert_eq!(obj.next_era_new_unstake, 0);

    // A stake and an unstake in the same era
    assert!(p.stake(BOB, ips_id, 1_000_000_000_000).is_ok());
    assert!(p.unstake_amount(BOB, ips_id, 1_000_000_000_000).is_ok());

    assert_eq!(
        p.stake_by_era(BOB, ips_id),
        Some((Some((2, 5_000_000_000_000)), Some(1_000_000_000_000), Some(1_000_000_000_000)))
    );
    assert_eq!(p.total_staked(), (5_000_000_000_000, 1_000_000_000_000, 1_000_000_000_000));
    assert_eq!(
        p.ips_stakers(BOB).unwrap(),
        (5_000_000_000_000, 1_000_000_000_000, 1_000_000_000_000)
    );

    let obj = p.registered_ips(ips_id).unwrap();
    assert_eq!(obj.total_stake, 5_000_000_000_000);
    assert_eq!(obj.next_era_new_stake, 1_000_000_000_000);
    assert_eq!(obj.next_era_new_unstake, 1_000_000_000_000);

    run_to_block(&mut p, 4);

    assert_eq!(p.stake_by_era(BOB, ips_id), Some((Some((3, 5_000_000_000_000)), None, None)));
    assert_eq!(p.total_staked(), (5_000_000_000_000, 0, 0));
    assert_eq!(p.ips_stakers(BOB).unwrap(), (5_000_000_000_000, 0, 0));

    let obj = p.registered_ips(ips_id).unwrap();
    assert_eq!(obj.total_stake, 5_000_000_000_000);
    assert_eq!(obj.next_era_new_stake, 0);
    assert_eq!(obj.next_era_new_unstake, 0);

    assert!(p.unstake_all(BOB, ips_id).is_ok());

    assert_eq!(
        p.stake_by_era(BOB, ips_id),
        Some((Some((3, 5_000_000_000_000)), None, Some(5_000_000_000_000)))
    );
    assert_eq!(p.total_staked(), (5_000_000_000_000, 0, 5_000_000_000_000));
    assert_eq!(p.ips_stakers(BOB).unwrap(), (5_000_000_000_000, 0, 5_000_000_000_000));

    let obj = p.registered_ips(ips_id).unwrap();
    assert_eq!(obj.total_stake, 5_000_000_000_000);
    assert_eq!(obj.next_era_new_stake, 0);
    assert_eq!(obj.next_era_new_unstake, 5_000_000_000_000);

    run_to_block(&mut p, 5);

    // The record that settles to zero is removed
    assert_eq!(p.stake_by_era(BOB, ips_id), None);
    assert_eq!(p.total_staked(), (0, 0, 0));
    assert_eq!(p.ips_stakers(BOB), None);

    let obj = p.registered_ips(ips_id).unwrap();
    assert_eq!(obj.total_stake, 0);
    assert_eq!(obj.next_era_new_stake, 0);
    assert_eq!(obj.next_era_new_unstake, 0);

    // A second IP set and several stakers at once
    let ips_id_2 = create_ips(&mut p);
    register_ips(&mut p, ips_id_2);

    assert!(p.stake(BOB, ips_id, 6_000_000_000_000).is_ok());
    assert!(p.stake(ALICE, ips_id_2, 10_000_000_000_000).is_ok());
    assert!(p.stake(CHARLIE, ips_id_2, 3_000_000_000_000).is_ok());

    assert_eq!(p.stake_by_era(BOB, ips_id), Some((None, Some(6_000_000_000_000), None)));
    assert_eq!(p.stake_by_era(ALICE, ips_id_2), Some((None, Some(10_000_000_000_000), None)));
    assert_eq!(p.stake_by_era(CHARLIE, ips_id_2), Some((None, Some(3_000_000_000_000), None)));

    assert_eq!(p.total_staked(), (0, 19_000_000_000_000, 0));
    assert_eq!(p.ips_stakers(BOB).unwrap(), (0, 6_000_000_000_000, 0));
    assert_eq!(p.ips_stakers(ALICE).unwrap(), (0, 10_000_000_000_000, 0));
    assert_eq!(p.ips_stakers(CHARLIE).unwrap(), (0, 3_000_000_000_000, 0));

    let obj = p.registered_ips(ips_id).unwrap();
    assert_eq!(obj.total_stake, 0);
    assert_eq!(obj.next_era_new_stake, 6_000_000_000_000);
    assert_eq!(obj.next_era_new_unstake, 0);

    let obj2 = p.registered_ips(ips_id_2).unwrap();
    assert_eq!(obj2.total_stake, 0);
    assert_eq!(obj2.next_era_new_stake, 13_000_000_000_000);
    assert_eq!(obj2.next_era_new_unstake, 0);

    run_to_block(&mut p, 6);

    assert_eq!(p.stake_by_era(BOB, ips_id), Some((Some((5, 6_000_000_000_000)), None, None)));
    assert_eq!(
        p.stake_by_era(ALICE, ips_id_2),
        Some((Some((5, 10_000_000_000_000)), None, None))
    );
    assert_eq!(
        p.stake_by_era(CHARLIE, ips_id_2),
        Some((Some((5, 3_000_000_000_000)), None, None))
    );

    assert_eq!(p.total_staked(), (19_000_000_000_000, 0, 0));
    assert_eq!(p.ips_stakers(BOB).unwrap(), (6_000_000_000_000, 0, 0));
    assert_eq!(p.ips_stakers(ALICE).unwrap(), (10_000_000_000_000, 0, 0));
    assert_eq!(p.ips_stakers(CHARLIE).unwrap(), (3_000_000_000_000, 0, 0));

    let obj = p.registered_ips(ips_id).unwrap();
    assert_eq!(obj.total_stake, 6_000_000_000_000);
    assert_eq!(obj.next_era_new_stake, 0);
    assert_eq!(obj.next_era_new_unstake, 0);

    let obj2 = p.registered_ips(ips_id_2).unwrap();
    assert_eq!(obj2.total_stake, 13_000_000_000_000);
    assert_eq!(obj2.next_era_new_stake, 0);
    assert_eq!(obj2.next_era_new_unstake, 0);
}

#[test]
fn unstaking_below_min_amount_should_fail() {
    let mut p = new_test_pallet();
    let ips_id = create_ips(&mut p);
    register_ips(&mut p, ips_id);

    assert!(p.stake(BOB, ips_id, 1_000_000_000_000).is_ok());

    assert_eq!(
        p.unstake_amount(BOB, ips_id, 999_999_999_999),
        Err(Error::BelowMinUnstakingAmount)
    );
}

#[test]
fn unstake_unregistered_ips() {
    let mut p = new_test_pallet();
    let ips_id = create_ips(&mut p);
    register_ips(&mut p, ips_id);

    assert!(p.stake(BOB, ips_id, 10_000_000_000_000).is_ok());

    run_to_block(&mut p, 10);

    assert_eq!(
        p.unstake_amount(BOB, ips_id, 999_999_999_999),
        Err(Error::BelowMinUnstakingAmount)
    );
}

#[test]
fn unstaking_with_no_stake_should_fail() {
    let mut p = new_test_pallet();
    let ips_id = create_ips(&mut p);
    register_ips(&mut p, ips_id);
    assert_eq!(
        p.unstake_amount(BOB, ips_id, 1_000_000_000_000),
        Err(Error::AccountHasNoStake)
    );
    assert_eq!(p.unstake_all(BOB, ips_id), Err(Error::AccountHasNoStake));
}

#[test]
fn inflation_minting_correctly() {
    let mut p = new_test_pallet();
    assert_eq!(p.free_balance(INFLATION_POT), 0);

    run_to_block(&mut p, 2);
    assert_eq!(p.free_balance(INFLATION_POT), 3_205_000_000_000_000);

    run_to_block(&mut p, 3);
    assert_eq!(p.free_balance(INFLATION_POT), 6_410_000_000_000_000);
}
