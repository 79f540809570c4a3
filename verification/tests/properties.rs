//! Scenario and boundary tests: the behaviors the engine promises of
//! concrete inputs, one test per promise.

use ip_staking::ledger::Pallet;
use ip_staking::types::{Config, Error, Event, GenesisConfig};

pub const UNIT: u128 = 1_000_000_000_000;

pub const ALICE: u128 = 1;
pub const BOB: u128 = 2;

pub const POT: u128 = u64::from_le_bytes(*b"ia/ipstk") as u128;

fn config() -> Config {
    Config {
        pot_account: POT,
        ips_register_deposit: UNIT,
        min_staking_amount: UNIT,
        blocks_per_era: 1,
        blocks_per_year: 365,
        unbonding_period: 1,
        max_unique_stakes: 10,
        ip_staking_inflation_rate: 100_000_000,
        ips_inflation_percentage: 600_000_000,
        staker_inflation_percentage: 400_000_000,
    }
}

fn genesis() -> GenesisConfig {
    GenesisConfig {
        total_staked: (0, 0, 0),
        current_era: 0,
        last_payout_block: 0,
        initial_inflation_per_era: 3_205_000_000_000_000,
        last_inflation_recalc_block: 0,
    }
}

fn pallet() -> Pallet {
    Pallet::new(
        config(),
        genesis(),
        1,
        vec![(ALICE, 100 * UNIT), (BOB, 11_699_993_000_000_000_000), (4, UNIT)],
    )
}

fn advance_to(p: &mut Pallet, n: u32) {
    let mut b = p.current_block() + 1;
    while b <= n {
        p.on_initialize(b).unwrap();
        b += 1;
    }
}

fn registered(p: &mut Pallet) -> u32 {
    let ips_id = p.create_ips();
    let derived = p.registry_address(ips_id).unwrap();
    assert!(p.register(derived, ips_id).is_ok());
    ips_id
}

#[test]
fn stake_of_exactly_min_succeeds_one_below_fails() {
    let mut p = pallet();
    let ips_id = registered(&mut p);
    assert_eq!(p.stake(BOB, ips_id, UNIT - 1), Err(Error::BelowMinStakingAmount));
    assert!(p.stake(BOB, ips_id, UNIT).is_ok());
    assert_eq!(p.stake_by_era(BOB, ips_id), Some((None, Some(UNIT), None)));
}

#[test]
fn unstake_leaving_residual_below_min_fails() {
    let mut p = pallet();
    let ips_id = registered(&mut p);
    assert!(p.stake(BOB, ips_id, 2 * UNIT).is_ok());
    advance_to(&mut p, 2);
    // residual would be half a unit: inside the forbidden interval
    assert_eq!(
        p.unstake_amount(BOB, ips_id, UNIT + UNIT / 2),
        Err(Error::StakingAmountTooLow)
    );
    // unstaking to exactly zero is fine
    assert!(p.unstake_amount(BOB, ips_id, 2 * UNIT).is_ok());
}

#[test]
fn action_on_boundary_block_sees_post_settlement_state() {
    let mut p = pallet();
    let ips_id = registered(&mut p);
    assert!(p.stake(BOB, ips_id, 5 * UNIT).is_ok());
    // Block 2 is an era boundary: the pre-block hook settles first, so an
    // action dispatched in block 2 already sees the promoted stake.
    advance_to(&mut p, 2);
    assert_eq!(p.stake_by_era(BOB, ips_id), Some((Some((1, 5 * UNIT)), None, None)));
    assert!(p.unstake_amount(BOB, ips_id, 5 * UNIT).is_ok());
    assert_eq!(
        p.stake_by_era(BOB, ips_id),
        Some((Some((1, 5 * UNIT)), None, Some(5 * UNIT)))
    );
}

#[test]
fn register_and_first_stake() {
    let mut p = pallet();
    let ips_id = registered(&mut p);
    assert_eq!(ips_id, 0);

    assert!(p.stake(BOB, ips_id, 1_000_000_000_001).is_ok());

    assert_eq!(p.total_staked(), (0, 1_000_000_000_001, 0));
    assert_eq!(p.stake_by_era(BOB, ips_id), Some((None, Some(1_000_000_000_001), None)));
    let obj = p.registered_ips(ips_id).unwrap();
    assert_eq!(obj.total_stake, 0);
    assert_eq!(obj.next_era_new_stake, 1_000_000_000_001);
}

#[test]
fn settlement_at_block_two() {
    let mut p = pallet();
    let ips_id = registered(&mut p);
    assert!(p.stake(BOB, ips_id, 1_000_000_000_001).is_ok());

    advance_to(&mut p, 2);

    assert_eq!(p.total_staked(), (1_000_000_000_001, 0, 0));
    assert_eq!(p.stake_by_era(BOB, ips_id), Some((Some((1, 1_000_000_000_001)), None, None)));
    assert_eq!(p.registered_ips(ips_id).unwrap().total_stake, 1_000_000_000_001);
}

#[test]
fn second_stake_same_era() {
    let mut p = pallet();
    let ips_id = registered(&mut p);
    assert!(p.stake(BOB, ips_id, 1_000_000_000_001).is_ok());
    advance_to(&mut p, 2);

    // BOB stakes again at block 2, after the boundary settlement
    assert!(p.stake(BOB, ips_id, UNIT).is_ok());
    assert_eq!(
        p.stake_by_era(BOB, ips_id),
        Some((Some((1, 1_000_000_000_001)), Some(UNIT), None))
    );

    advance_to(&mut p, 3);
    assert_eq!(p.stake_by_era(BOB, ips_id), Some((Some((2, 2_000_000_000_001)), None, None)));
}

#[test]
fn unstake_all_removes_record_and_releases_lock() {
    let mut p = pallet();
    let ips_id = registered(&mut p);
    assert!(p.stake(BOB, ips_id, 10 * UNIT).is_ok());
    advance_to(&mut p, 2);

    assert!(p.unstake_all(BOB, ips_id).is_ok());
    assert_eq!(
        p.stake_by_era(BOB, ips_id),
        Some((Some((1, 10 * UNIT)), None, Some(10 * UNIT)))
    );

    advance_to(&mut p, 3);
    assert_eq!(p.stake_by_era(BOB, ips_id), None);
    // the lock survives through the unbonding period
    assert_eq!(p.staking_lock(BOB), Some(10 * UNIT));

    advance_to(&mut p, 4);
    assert_eq!(p.staking_lock(BOB), None);
}

#[test]
fn pot_balance_grows_by_the_per_era_amount() {
    let mut p = pallet();
    assert_eq!(p.free_balance(POT), 0);
    advance_to(&mut p, 2);
    assert_eq!(p.free_balance(POT), 3_205_000_000_000_000);
    advance_to(&mut p, 3);
    assert_eq!(p.free_balance(POT), 6_410_000_000_000_000);
}

#[test]
fn reward_distribution_is_proportional() {
    let mut p = pallet();
    let ips_id = registered(&mut p);
    advance_to(&mut p, 5);

    assert!(p.stake(BOB, ips_id, 6 * UNIT).is_ok());
    assert!(p.stake(ALICE, ips_id, 10 * UNIT).is_ok());

    advance_to(&mut p, 6);
    let bob_before = p.rewards_claimable(BOB);
    let alice_before = p.rewards_claimable(ALICE);

    advance_to(&mut p, 7);

    // staker share: 40% of the per-era mint
    let staker_share: u128 = 3_205_000_000_000_000 * 2 / 5;
    // parts per billion of 6/16 and 10/16
    let bob_reward = staker_share * 375 / 1000;
    let alice_reward = staker_share * 625 / 1000;
    assert_eq!(p.rewards_claimable(BOB) - bob_before, bob_reward);
    assert_eq!(p.rewards_claimable(ALICE) - alice_before, alice_reward);
}

#[test]
fn ips_address_earns_the_ips_share() {
    let mut p = pallet();
    let ips_id = registered(&mut p);
    let derived = p.registry_address(ips_id).unwrap();
    assert!(p.stake(BOB, ips_id, 4 * UNIT).is_ok());

    advance_to(&mut p, 2);
    assert_eq!(p.rewards_claimable(derived), 0);

    advance_to(&mut p, 3);
    // the whole active stake belongs to this IP set: it earns the full
    // 60% IP-set share of the mint
    let ips_share: u128 = 3_205_000_000_000_000 * 3 / 5;
    assert_eq!(p.rewards_claimable(derived), ips_share);
}

#[test]
fn claim_pays_out_and_resets() {
    let mut p = pallet();
    let ips_id = registered(&mut p);
    assert!(p.stake(BOB, ips_id, 6 * UNIT).is_ok());
    advance_to(&mut p, 3);

    let claimable = p.rewards_claimable(BOB);
    assert!(claimable > 0);
    let pot_before = p.free_balance(POT);
    let bob_before = p.free_balance(BOB);

    let ev = p.claim(BOB).unwrap();
    assert_eq!(ev, Event::RewardsClaimed { claimer: BOB, reward_amount: claimable });
    assert_eq!(p.rewards_claimable(BOB), 0);
    assert_eq!(p.free_balance(BOB), bob_before + claimable);
    assert_eq!(p.free_balance(POT), pot_before - claimable);

    assert_eq!(p.claim(BOB), Err(Error::AccountHasNoClaim));
}

#[test]
fn claim_without_rewards_fails() {
    let mut p = pallet();
    assert_eq!(p.claim(BOB), Err(Error::AccountHasNoClaim));
}

#[test]
fn register_requires_existing_ips_and_its_multisig() {
    let mut p = pallet();
    assert_eq!(p.register(ALICE, 7), Err(Error::IpDoesntExist));
    let ips_id = p.create_ips();
    assert_eq!(p.register(ALICE, ips_id), Err(Error::NoPermission));
    let derived = p.registry_address(ips_id).unwrap();
    assert!(p.register(derived, ips_id).is_ok());
    // a second registration would wipe the stake fields: refused
    assert!(p.stake(BOB, ips_id, UNIT).is_ok());
    assert_eq!(p.register(derived, ips_id), Err(Error::IpsAlreadyRegistered));
    assert_eq!(p.registered_ips(ips_id).unwrap().next_era_new_stake, UNIT);
}

#[test]
fn unregister_is_a_noop() {
    let mut p = pallet();
    let ips_id = registered(&mut p);
    assert!(p.stake(BOB, ips_id, UNIT).is_ok());
    let before = p.total_staked();
    assert!(p.unregister(ALICE, ips_id).is_ok());
    assert_eq!(p.total_staked(), before);
    assert!(p.registered_ips(ips_id).is_some());
}

#[test]
fn stake_needs_free_balance_strictly_above_amount() {
    let mut p = pallet();
    let ips_id = registered(&mut p);
    // account 4 holds exactly one unit: a stake of the full balance fails
    assert_eq!(p.stake(4, ips_id, UNIT), Err(Error::NotEnoughFreeBalance));
}

#[test]
fn unstake_of_more_than_staked_fails() {
    let mut p = pallet();
    let ips_id = registered(&mut p);
    assert!(p.stake(BOB, ips_id, 2 * UNIT).is_ok());
    advance_to(&mut p, 2);
    assert_eq!(
        p.unstake_amount(BOB, ips_id, 3 * UNIT),
        Err(Error::UnstakeValueGreaterThanStakedAmount)
    );
}

#[test]
fn max_unique_stakes_is_enforced() {
    let mut p = Pallet::new(
        Config { max_unique_stakes: 2, ..config() },
        genesis(),
        1,
        vec![(BOB, 100 * UNIT)],
    );
    let ips_a = registered(&mut p);
    let ips_b = registered(&mut p);
    let ips_c = registered(&mut p);
    assert!(p.stake(BOB, ips_a, UNIT).is_ok());
    assert!(p.stake(BOB, ips_b, UNIT).is_ok());
    assert_eq!(p.stake(BOB, ips_c, UNIT), Err(Error::MaxStakesAlreadyReached));
}

#[test]
fn stake_cannot_lock_more_than_the_balance() {
    let mut p = Pallet::new(config(), genesis(), 1, vec![(7, 10 * UNIT)]);
    let ips_id = registered(&mut p);
    assert!(p.stake(7, ips_id, 6 * UNIT).is_ok());
    assert_eq!(p.staking_lock(7), Some(6 * UNIT));
    // a further 5 units would lock 11 of the 10 the account owns
    assert_eq!(p.stake(7, ips_id, 5 * UNIT), Err(Error::NotEnoughFreeBalance));
    // 3 more still fit strictly below the balance
    assert!(p.stake(7, ips_id, 3 * UNIT).is_ok());
    assert_eq!(p.staking_lock(7), Some(9 * UNIT));
}

#[test]
fn overflowing_mint_rejects_the_block() {
    let mut p = Pallet::new(
        config(),
        GenesisConfig { initial_inflation_per_era: u128::MAX, ..genesis() },
        1,
        vec![(BOB, 100 * UNIT)],
    );
    // minting the per-era amount would overflow the total issuance
    assert_eq!(p.on_initialize(2), Err(Error::Overflow));
    assert_eq!(p.total_issuance(), 100 * UNIT);
    assert_eq!(p.current_era(), 0);
}

#[test]
fn unstake_is_measured_against_the_active_balance() {
    let mut p = pallet();
    let ips_id = registered(&mut p);
    assert!(p.stake(BOB, ips_id, 10 * UNIT).is_ok());
    advance_to(&mut p, 2);
    assert!(p.unstake_amount(BOB, ips_id, 5 * UNIT).is_ok());
    // 9.5 of the 10 active units: the residual rule decides, as it would
    // with no unstake pending
    assert_eq!(
        p.unstake_amount(BOB, ips_id, 9 * UNIT + UNIT / 2),
        Err(Error::StakingAmountTooLow)
    );
    // 9 units pass the residual rule but would over-commit the pending
    // unstake beyond the active balance
    assert_eq!(
        p.unstake_amount(BOB, ips_id, 9 * UNIT),
        Err(Error::UnstakeValueGreaterThanStakedAmount)
    );
    // the remaining 5 units leave: pending unstake reaches the balance
    assert!(p.unstake_amount(BOB, ips_id, 5 * UNIT).is_ok());
    assert_eq!(
        p.stake_by_era(BOB, ips_id),
        Some((Some((1, 10 * UNIT)), None, Some(10 * UNIT)))
    );
}

#[test]
fn unstake_all_exits_the_remaining_balance() {
    let mut p = pallet();
    let ips_id = registered(&mut p);
    assert!(p.stake(BOB, ips_id, 10 * UNIT).is_ok());
    advance_to(&mut p, 2);
    assert!(p.unstake_amount(BOB, ips_id, 4 * UNIT).is_ok());
    // the full exit takes what is not already on its way out
    let ev = p.unstake_all(BOB, ips_id).unwrap();
    assert_eq!(
        ev,
        Event::Unstake { staker: BOB, ips_id, unstake_amount: 6 * UNIT }
    );
    assert_eq!(p.unstake_all(BOB, ips_id), Err(Error::AccountHasNoStake));
    advance_to(&mut p, 3);
    assert_eq!(p.stake_by_era(BOB, ips_id), None);
}

#[test]
fn exhausted_era_counter_rejects_the_block() {
    let mut p = Pallet::new(
        config(),
        GenesisConfig { current_era: u32::MAX, ..genesis() },
        1,
        vec![(BOB, 100 * UNIT)],
    );
    assert_eq!(p.on_initialize(2), Err(Error::NoAvailableEra));
    assert_eq!(p.current_era(), u32::MAX);
}

#[test]
fn yearly_recalculation_updates_the_per_era_amount() {
    let mut p = Pallet::new(config(), genesis(), 1, vec![(BOB, 11_700_000_000_000_000_000)]);
    assert_eq!(p.inflation_per_era(), 3_205_000_000_000_000);
    // the recalculation clock starts at the genesis block
    assert_eq!(p.last_inflation_recalc_block(), 1);
    advance_to(&mut p, 365);
    assert_eq!(p.last_inflation_recalc_block(), 1);
    advance_to(&mut p, 366);
    assert_eq!(p.last_inflation_recalc_block(), 366);
    // 10% of the issuance the year's minting has grown, over 365 blocks
    let issuance = 11_700_000_000_000_000_000u128 + 365 * 3_205_000_000_000_000;
    assert_eq!(p.inflation_per_era(), issuance / 10 / 365);
}

#[test]
fn system_triple_is_the_sum_of_account_triples() {
    let mut p = pallet();
    let ips_id = registered(&mut p);
    assert!(p.stake(BOB, ips_id, 6 * UNIT).is_ok());
    assert!(p.stake(ALICE, ips_id, 10 * UNIT).is_ok());
    advance_to(&mut p, 2);
    assert!(p.unstake_amount(BOB, ips_id, 2 * UNIT).is_ok());
    assert!(p.stake(ALICE, ips_id, UNIT).is_ok());

    let bob = p.ips_stakers(BOB).unwrap();
    let alice = p.ips_stakers(ALICE).unwrap();
    let total = p.total_staked();
    assert_eq!(total.0, bob.0 + alice.0);
    assert_eq!(total.1, bob.1 + alice.1);
    assert_eq!(total.2, bob.2 + alice.2);

    let obj = p.registered_ips(ips_id).unwrap();
    assert_eq!(total, (obj.total_stake, obj.next_era_new_stake, obj.next_era_new_unstake));
}

#[test]
fn two_stakes_in_one_era_equal_their_sum() {
    let mut split = pallet();
    let ips_split = registered(&mut split);
    assert!(split.stake(BOB, ips_split, 3 * UNIT).is_ok());
    assert!(split.stake(BOB, ips_split, 4 * UNIT).is_ok());

    let mut whole = pallet();
    let ips_whole = registered(&mut whole);
    assert!(whole.stake(BOB, ips_whole, 7 * UNIT).is_ok());

    assert_eq!(split.stake_by_era(BOB, ips_split), whole.stake_by_era(BOB, ips_whole));
    assert_eq!(split.ips_stakers(BOB), whole.ips_stakers(BOB));
    assert_eq!(split.total_staked(), whole.total_staked());
    assert_eq!(split.staking_lock(BOB), whole.staking_lock(BOB));
    let a = split.registered_ips(ips_split).unwrap();
    let b = whole.registered_ips(ips_whole).unwrap();
    assert_eq!(a, b);
}

#[test]
fn locked_balance_tracks_stake_and_unbonding() {
    let mut p = pallet();
    let ips_id = registered(&mut p);
    assert!(p.stake(BOB, ips_id, 8 * UNIT).is_ok());
    // lock = active + pending stake - pending unstake + unbonding entries
    assert_eq!(p.staking_lock(BOB), Some(8 * UNIT));
    advance_to(&mut p, 2);
    assert_eq!(p.staking_lock(BOB), Some(8 * UNIT));
    assert!(p.unstake_amount(BOB, ips_id, 3 * UNIT).is_ok());
    assert_eq!(p.staking_lock(BOB), Some(8 * UNIT));
    advance_to(&mut p, 3);
    // the triple settled to five units, three sit in the unbonding queue
    assert_eq!(p.ips_stakers(BOB).unwrap(), (5 * UNIT, 0, 0));
    assert_eq!(p.staking_lock(BOB), Some(8 * UNIT));
    advance_to(&mut p, 4);
    assert_eq!(p.staking_lock(BOB), Some(5 * UNIT));
}

#[test]
fn hook_reports_inflation_events() {
    let mut p = pallet();
    let evs = p.on_initialize(2).unwrap();
    assert_eq!(
        evs,
        vec![Event::InflationEvent {
            era: 0,
            inflation_pot: POT,
            inflation_amount: 3_205_000_000_000_000,
        }]
    );
    // a block off the era boundary emits nothing
    let mut q = Pallet::new(
        Config { blocks_per_era: 5, ..config() },
        genesis(),
        1,
        vec![(BOB, 100 * UNIT)],
    );
    assert_eq!(q.on_initialize(2).unwrap(), vec![]);
}

#[test]
fn settlement_only_at_era_boundaries() {
    let mut p = Pallet::new(
        Config { blocks_per_era: 3, ..config() },
        genesis(),
        1,
        vec![(BOB, 100 * UNIT)],
    );
    let ips_id = p.create_ips();
    let derived = p.registry_address(ips_id).unwrap();
    assert!(p.register(derived, ips_id).is_ok());
    assert!(p.stake(BOB, ips_id, 2 * UNIT).is_ok());

    advance_to(&mut p, 2);
    // not a boundary: nothing promoted, no era advance
    assert_eq!(p.current_era(), 0);
    assert_eq!(p.total_staked(), (0, 2 * UNIT, 0));

    advance_to(&mut p, 3);
    // block 3 is a boundary: one era advance, deltas promoted
    assert_eq!(p.current_era(), 1);
    assert_eq!(p.total_staked(), (2 * UNIT, 0, 0));
    assert_eq!(p.stake_by_era(BOB, ips_id), Some((Some((1, 2 * UNIT)), None, None)));

    advance_to(&mut p, 5);
    assert_eq!(p.current_era(), 1);
    advance_to(&mut p, 6);
    assert_eq!(p.current_era(), 2);
}

#[test]
fn default_genesis_is_zeroed() {
    let g = GenesisConfig::default();
    assert_eq!(g.total_staked, (0, 0, 0));
    assert_eq!(g.current_era, 0);
    assert_eq!(g.initial_inflation_per_era, 0);
}
