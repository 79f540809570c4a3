//! Core value types of the staking engine.

use vstd::prelude::*;

verus! {

/// Account identity, as the host runtime hands it to the engine.
pub type AccountId = u128;

/// Balance type.  Wide enough to hold the total token supply times the
/// parts-per-billion accuracy of the rational arithmetic.
pub type Balance = u128;

/// IP-set identity in the registry.
pub type IpsId = u32;

/// Era counter.
pub type Era = u32;

/// Block height as the host block clock reports it.
pub type BlockNumber = u32;

/// Per-(account, IP-set) era-stake record:
/// the last settled stake as an `(era, balance)` pair, the stake pending
/// promotion at the next era boundary, and the pending unstake.
pub type EraStake = (Option<(Era, Balance)>, Option<Balance>, Option<Balance>);

/// Accuracy of the rational arithmetic: one billion parts make a whole.
pub const PERBILL_ONE: u32 = 1_000_000_000;

/// Base of the address region the registry collaborator derives multisig
/// accounts in: far above any ordinary account identity.
pub const MULTISIG_ACCOUNT_BASE: u128 = 1_298_074_214_633_706_907_132_624_082_305_024;

/// General info about a registered IP set.
#[derive(Clone, Copy, PartialEq, Eq, Debug)]
pub struct IpsStakeInfo<AccountId, Balance, BlockNumber> {
    /// The IP set's derived multisig account.
    pub address: AccountId,
    /// Total active stake on this IP set.
    pub total_stake: Balance,
    /// New stake during era x, added to `total_stake` at the start of era x+1.
    pub next_era_new_stake: Balance,
    /// New unstake during era x, subtracted from `total_stake` at the start
    /// of era x+1.
    pub next_era_new_unstake: Balance,
    /// Block the IP set was registered at.
    pub block_registered_at: BlockNumber,
}

/// The concrete IP-set record the ledger stores.
pub type IpsInfo = IpsStakeInfo<AccountId, Balance, BlockNumber>;

/// Static configuration of the staking subsystem.
#[derive(Clone, Copy, PartialEq, Eq, Debug)]
pub struct Config {
    /// The subsystem's pot account, derived from the pallet identity by the
    /// host runtime.  Freshly minted tokens sit here until claimed.
    pub pot_account: AccountId,
    /// Deposit required to register an IP set (hooked, not yet enforced).
    pub ips_register_deposit: Balance,
    /// Minimum balance for any stake or unstake action.
    pub min_staking_amount: Balance,
    /// Era length in blocks.
    pub blocks_per_era: u32,
    /// Interval, in blocks, at which the per-era inflation is recomputed.
    pub blocks_per_year: u32,
    /// Eras between an unstake request and the release of its lock.
    pub unbonding_period: Era,
    /// Cap on the number of distinct IP-set stakes per account.
    pub max_unique_stakes: u8,
    /// Annual inflation as a fraction of total supply, in parts per billion.
    pub ip_staking_inflation_rate: u32,
    /// Share of the per-era mint allocated to IP sets, in parts per billion.
    /// Together with the staker share it may leave a remainder, which stays
    /// in the pot as intentional dust tolerance, but the two shares may not
    /// overcommit the mint.
    pub ips_inflation_percentage: u32,
    /// Share of the per-era mint allocated to stakers, in parts per billion.
    /// See `ips_inflation_percentage` for the bound the two shares obey.
    pub staker_inflation_percentage: u32,
}

/// Sanity of a configuration: positive intervals, a positive stake floor,
/// and fractions that are genuine fractions.  The two split percentages may
/// leave a remainder, which stays in the pot, but may not overcommit it.
pub open spec fn cfg_wf(c: Config) -> bool {
    &&& c.blocks_per_era > 0
    &&& c.blocks_per_year > 0
    &&& c.min_staking_amount >= 1
    &&& c.ip_staking_inflation_rate <= PERBILL_ONE
    &&& c.ips_inflation_percentage <= PERBILL_ONE
    &&& c.staker_inflation_percentage <= PERBILL_ONE
    &&& c.ips_inflation_percentage + c.staker_inflation_percentage <= PERBILL_ONE
}

/// Initial storage values supplied when the chain starts.
#[derive(Clone, Copy, PartialEq, Eq, Debug)]
pub struct GenesisConfig {
    pub total_staked: (Balance, Balance, Balance),
    pub current_era: Era,
    pub last_payout_block: BlockNumber,
    pub initial_inflation_per_era: Balance,
    /// Supplied for completeness; when the ledger is built the
    /// recalculation clock is set to the genesis block itself, as the
    /// genesis build prescribes, and this value is not consulted.
    pub last_inflation_recalc_block: BlockNumber,
}

impl Default for GenesisConfig {
    fn default() -> (r: Self)
        ensures
            r == (GenesisConfig {
                total_staked: (0u128, 0u128, 0u128),
                current_era: 0u32,
                last_payout_block: 0u32,
                initial_inflation_per_era: 0u128,
                last_inflation_recalc_block: 0u32,
            }),
    {
        GenesisConfig {
            total_staked: (0, 0, 0),
            current_era: 0,
            last_payout_block: 0,
            initial_inflation_per_era: 0,
            last_inflation_recalc_block: 0,
        }
    }
}

/// Observable events, one per successful state change.
#[derive(Clone, Copy, PartialEq, Eq, Debug)]
pub enum Event {
    IpsRegistered { ips_id: IpsId },
    InflationEvent { era: Era, inflation_pot: AccountId, inflation_amount: Balance },
    NewStake { staker: AccountId, ips_id: IpsId, stake_amount: Balance },
    Unstake { staker: AccountId, ips_id: IpsId, unstake_amount: Balance },
    RewardsClaimed { claimer: AccountId, reward_amount: Balance },
    NewDailyInflationRate { amount: Balance },
}

/// Named failures of the action handlers and of the pre-block hook.
#[derive(Clone, Copy, PartialEq, Eq, Debug)]
pub enum Error {
    /// IP set does not exist.
    IpDoesntExist,
    /// Account does not have permission to complete this action.
    NoPermission,
    /// IP staking is only allowed on top level parent IP sets.
    NotParent,
    /// Datatype holding the era has maxed out.
    NoAvailableEra,
    /// Data type overflow.
    Overflow,
    /// Value below minimum stake amount.
    BelowMinStakingAmount,
    /// Error adding account as staker to IP set.
    FailedAddingStaker,
    /// IP set is not registered for staking.
    IpsNotRegistered,
    /// Calling account does not have enough free balance.
    NotEnoughFreeBalance,
    /// Account has less tokens staked than it is trying to unstake.
    UnstakeValueGreaterThanStakedAmount,
    /// Account has no stake on this IP set.
    AccountHasNoStake,
    /// Cannot unstake less than the minimum staking amount.
    BelowMinUnstakingAmount,
    /// Unstake would leave the staked balance below the minimum.
    StakingAmountTooLow,
    /// A record that should have been deleted was not.
    RecordNotDeleted,
    /// Account is already staked to the maximum number of IP sets.
    MaxStakesAlreadyReached,
    /// Account has no rewards to claim.
    AccountHasNoClaim,
    /// IP set is already registered for staking.  Surfaced instead of
    /// re-inserting a zeroed record, which would silently desync the
    /// record from the system totals.
    IpsAlreadyRegistered,
}

} // verus!
