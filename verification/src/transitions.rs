//! The action handlers as mathematical state transitions.
//!
//! For each handler there is an error function, deciding in the handler's
//! own evaluation order which failure, if any, the call returns, and a
//! transition function giving the successor ledger when the call succeeds.
//! The executable handlers are proved to return exactly these.

use vstd::prelude::*;
use crate::table::{t_get, t_has, t_count_acct, t_upsert, Key};
use crate::state::{
    acct_key, act_bal, ips_key, pair_key, pend_m, pend_p, queue_sum, triple_or0, val_or0, LedgerV,
};
use crate::types::{AccountId, Balance, Era, EraStake, Error, IpsId, IpsInfo, IpsStakeInfo};

verus! {

/// The registered record of an IP set, zeroed when absent (only consulted
/// when registration has been checked).
pub open spec fn ips_or0(l: LedgerV, ips_id: IpsId) -> IpsInfo {
    match t_get(l.ips, ips_key(ips_id)) {
        Some(v) => v,
        None => IpsStakeInfo {
            address: 0u128,
            total_stake: 0u128,
            next_era_new_stake: 0u128,
            next_era_new_unstake: 0u128,
            block_registered_at: 0u32,
        },
    }
}

/// All the additions a successful stake performs stay within the balance
/// type.  The staking lock needs no clause of its own: the free-balance
/// check already caps the new lock strictly below the free balance.
pub open spec fn stake_fits(l: LedgerV, who: AccountId, ips_id: IpsId, amount: Balance) -> bool {
    let es = t_get(l.pairs, pair_key(who, ips_id));
    let t = triple_or0(l.stakers, acct_key(who));
    &&& (match es {
        Some(e) => pend_p(e),
        None => 0,
    }) + amount <= u128::MAX
    &&& t.1 + amount <= u128::MAX
    &&& ips_or0(l, ips_id).next_era_new_stake + amount <= u128::MAX
    &&& l.total_staked.1 + amount <= u128::MAX
}

/// Which failure a `stake` call returns, if any, in evaluation order:
/// unregistered IP set, not enough unlocked free balance, amount below
/// the floor, the cap on distinct stakes, then overflow.  The balance
/// check counts the existing staking lock: the free balance must strictly
/// exceed the lock the account would hold afterwards, so repeated stakes
/// within one era behave exactly like one stake of their sum and an
/// account can never lock more than it owns.
pub open spec fn stake_err(l: LedgerV, who: AccountId, ips_id: IpsId, amount: Balance) -> Option<
    Error,
> {
    if !t_has(l.ips, ips_key(ips_id)) {
        Some(Error::IpsNotRegistered)
    } else if val_or0(l.free, acct_key(who)) <= val_or0(l.locks, acct_key(who)) + amount {
        Some(Error::NotEnoughFreeBalance)
    } else if amount < l.cfg.min_staking_amount {
        Some(Error::BelowMinStakingAmount)
    } else if t_count_acct(l.pairs, who) >= l.cfg.max_unique_stakes as nat {
        Some(Error::MaxStakesAlreadyReached)
    } else if !stake_fits(l, who, ips_id, amount) {
        Some(Error::Overflow)
    } else {
        None
    }
}

/// The per-pair record after a stake: pending stake grows by the amount,
/// a missing record starts as pure pending stake.
pub open spec fn stake_pair(es: Option<EraStake>, amount: Balance) -> EraStake {
    match es {
        None => (None, Some(amount), None),
        Some(e) => (e.0, Some((pend_p(e) + amount) as u128), e.2),
    }
}

/// Ledger after a successful `stake`: the amount is added to the pending
/// stake of the pair record, the account triple, the IP-set record and the
/// system triple, and to the account's staking lock.
pub open spec fn stake_tr(l: LedgerV, who: AccountId, ips_id: IpsId, amount: Balance) -> LedgerV {
    let t = triple_or0(l.stakers, acct_key(who));
    let info = ips_or0(l, ips_id);
    LedgerV {
        pairs: t_upsert(
            l.pairs,
            pair_key(who, ips_id),
            stake_pair(t_get(l.pairs, pair_key(who, ips_id)), amount),
        ),
        stakers: t_upsert(l.stakers, acct_key(who), (t.0, (t.1 + amount) as u128, t.2)),
        ips: t_upsert(
            l.ips,
            ips_key(ips_id),
            IpsStakeInfo { next_era_new_stake: (info.next_era_new_stake + amount) as u128, ..info },
        ),
        total_staked: (l.total_staked.0, (l.total_staked.1 + amount) as u128, l.total_staked.2),
        locks: t_upsert(
            l.locks,
            acct_key(who),
            (val_or0(l.locks, acct_key(who)) + amount) as u128,
        ),
        ..l
    }
}

/// All the additions a successful unstake performs stay within their types.
pub open spec fn unstake_fits(l: LedgerV, who: AccountId, ips_id: IpsId, amount: Balance) -> bool {
    let t = triple_or0(l.stakers, acct_key(who));
    &&& t.2 + amount <= u128::MAX
    &&& ips_or0(l, ips_id).next_era_new_unstake + amount <= u128::MAX
    &&& l.total_staked.2 + amount <= u128::MAX
    &&& l.current_era + l.cfg.unbonding_period + 1 <= u32::MAX
}

/// The unstake is not an over-commitment: at no level — pair record,
/// account triple, IP-set record, system triple — does the accumulated
/// pending unstake outgrow what will be held at the next boundary.  On
/// any state the handlers themselves produce this holds whenever the
/// plain checks pass; it is checked explicitly so that settlement is
/// total on every well-formed ledger.
pub open spec fn unstake_covered(l: LedgerV, who: AccountId, ips_id: IpsId, amount: Balance) -> bool {
    let e = t_get(l.pairs, pair_key(who, ips_id)).unwrap();
    let t = triple_or0(l.stakers, acct_key(who));
    let info = ips_or0(l, ips_id);
    &&& pend_m(e) + amount <= act_bal(e)
    &&& t.2 + amount <= t.0 + t.1
    &&& info.next_era_new_unstake + amount <= info.total_stake + info.next_era_new_stake
    &&& l.total_staked.2 + amount <= l.total_staked.0 + l.total_staked.1
}

/// Which failure an unstake returns, if any, in evaluation order:
/// unregistered IP set, amount below the floor (skipped for a full exit),
/// no settled stake, more than the settled stake, a residual inside the
/// forbidden interval, then overflow and the over-commitment guards.
pub open spec fn unstake_err_at(
    l: LedgerV,
    who: AccountId,
    ips_id: IpsId,
    amount: Balance,
    enforce_min: bool,
) -> Option<Error> {
    let es = t_get(l.pairs, pair_key(who, ips_id));
    if !t_has(l.ips, ips_key(ips_id)) {
        Some(Error::IpsNotRegistered)
    } else if enforce_min && amount < l.cfg.min_staking_amount {
        Some(Error::BelowMinUnstakingAmount)
    } else if es is None || (match es {
        Some(e) => e.0 is None,
        None => true,
    }) {
        Some(Error::AccountHasNoStake)
    } else {
        let e = es.unwrap();
        let act = act_bal(e);
        if amount > act {
            Some(Error::UnstakeValueGreaterThanStakedAmount)
        } else if !(act - amount >= l.cfg.min_staking_amount || act - amount == 0) {
            Some(Error::StakingAmountTooLow)
        } else if !unstake_fits(l, who, ips_id, amount) {
            Some(Error::Overflow)
        } else if !unstake_covered(l, who, ips_id, amount) {
            Some(Error::UnstakeValueGreaterThanStakedAmount)
        } else {
            None
        }
    }
}

/// Which failure an `unstake` call returns, if any; the minimum-amount
/// floor is enforced.
pub open spec fn unstake_err(l: LedgerV, who: AccountId, ips_id: IpsId, amount: Balance) -> Option<
    Error,
> {
    unstake_err_at(l, who, ips_id, amount, true)
}

/// Ledger after a successful `unstake`: the amount is added to the pending
/// unstake of the pair record, the account triple, the IP-set record and
/// the system triple, and the account enters the unbonding queue at the era
/// from which its lock may be released.
pub open spec fn unstake_tr(l: LedgerV, who: AccountId, ips_id: IpsId, amount: Balance) -> LedgerV {
    let e = t_get(l.pairs, pair_key(who, ips_id)).unwrap();
    let t = triple_or0(l.stakers, acct_key(who));
    let info = ips_or0(l, ips_id);
    let unlock_era = (l.current_era + l.cfg.unbonding_period + 1) as u32;
    LedgerV {
        pairs: t_upsert(
            l.pairs,
            pair_key(who, ips_id),
            (e.0, e.1, Some((pend_m(e) + amount) as u128)),
        ),
        stakers: t_upsert(l.stakers, acct_key(who), (t.0, t.1, (t.2 + amount) as u128)),
        ips: t_upsert(
            l.ips,
            ips_key(ips_id),
            IpsStakeInfo {
                next_era_new_unstake: (info.next_era_new_unstake + amount) as u128,
                ..info
            },
        ),
        total_staked: (l.total_staked.0, l.total_staked.1, (l.total_staked.2 + amount) as u128),
        queue: l.queue.push((unlock_era, who, amount)),
        ..l
    }
}

/// The amount `unstake_all` selects: the settled balance that is not
/// already pending unstake.
pub open spec fn unstake_all_amt(l: LedgerV, who: AccountId, ips_id: IpsId) -> Balance {
    let e = t_get(l.pairs, pair_key(who, ips_id)).unwrap();
    (act_bal(e) - pend_m(e)) as u128
}

/// Which failure an `unstake_all` call returns, if any: no record, no
/// settled component, or nothing left to unstake all fail as a missing
/// stake; the rest follows the unstake of the selected amount, with the
/// minimum-amount floor bypassed so that a full exit always goes through.
pub open spec fn unstake_all_err(l: LedgerV, who: AccountId, ips_id: IpsId) -> Option<Error> {
    match t_get(l.pairs, pair_key(who, ips_id)) {
        None => Some(Error::AccountHasNoStake),
        Some(e) => if e.0 is None {
            Some(Error::AccountHasNoStake)
        } else if act_bal(e) - pend_m(e) == 0 {
            Some(Error::AccountHasNoStake)
        } else {
            unstake_err_at(l, who, ips_id, unstake_all_amt(l, who, ips_id), false)
        },
    }
}

/// Which failure a `claim` call returns, if any.  The pot always covers
/// the claim: every era's rewards are carved out of that era's mint, and
/// well-formedness keeps the pot's free balance at or above the sum of
/// all claimable rewards.
pub open spec fn claim_err(l: LedgerV, who: AccountId) -> Option<Error> {
    let amount = val_or0(l.rewards, acct_key(who));
    let pot = val_or0(l.free, acct_key(l.cfg.pot_account));
    if amount == 0 {
        Some(Error::AccountHasNoClaim)
    } else if val_or0(
        t_upsert(l.free, acct_key(l.cfg.pot_account), (pot - amount) as u128),
        acct_key(who),
    ) + amount > u128::MAX {
        Some(Error::Overflow)
    } else {
        None
    }
}

/// Ledger after a successful `claim`: the claimable balance is zeroed and
/// the same amount moves from the pot's free balance to the claimer's.
pub open spec fn claim_tr(l: LedgerV, who: AccountId) -> LedgerV {
    let amount = val_or0(l.rewards, acct_key(who));
    let pot = val_or0(l.free, acct_key(l.cfg.pot_account));
    let free1 = t_upsert(l.free, acct_key(l.cfg.pot_account), (pot - amount) as u128);
    let free2 = t_upsert(
        free1,
        acct_key(who),
        (val_or0(free1, acct_key(who)) + amount) as u128,
    );
    LedgerV { rewards: t_upsert(l.rewards, acct_key(who), 0u128), free: free2, ..l }
}

/// Which failure a `register` call returns, if any: the IP set must exist
/// in the registry, the caller must be its derived multisig address — so
/// that registration can only arise from an IP-set-authorized call — and
/// the IP set must not be registered yet.  Re-inserting a zeroed record
/// over a registered IP set would wipe its stake fields out of sync with
/// the system totals, so re-registration is refused instead.
pub open spec fn register_err(l: LedgerV, who: AccountId, ips_id: IpsId) -> Option<Error> {
    match t_get(l.registry, ips_key(ips_id)) {
        None => Some(Error::IpDoesntExist),
        Some(addr) => if who != addr {
            Some(Error::NoPermission)
        } else if t_has(l.ips, ips_key(ips_id)) {
            Some(Error::IpsAlreadyRegistered)
        } else {
            None
        },
    }
}

/// Ledger after a successful `register`: a fresh record with zeroed stake
/// fields.
pub open spec fn register_tr(l: LedgerV, ips_id: IpsId) -> LedgerV {
    let addr = t_get(l.registry, ips_key(ips_id)).unwrap();
    LedgerV {
        ips: l.ips.push(
            (
                ips_key(ips_id),
                IpsStakeInfo {
                    address: addr,
                    total_stake: 0u128,
                    next_era_new_stake: 0u128,
                    next_era_new_unstake: 0u128,
                    block_registered_at: l.current_block,
                },
            ),
        ),
        ..l
    }
}

/// The derived multisig address of an IP set, as the registry collaborator
/// derives it: a dedicated address region indexed by the IP-set id.
pub open spec fn derived_account(i: IpsId) -> AccountId {
    (crate::types::MULTISIG_ACCOUNT_BASE + i as u128) as u128
}

/// Ledger after a new IP set is created in the registry collaborator.
pub open spec fn create_ips_tr(l: LedgerV) -> LedgerV {
    LedgerV {
        registry: l.registry.push((ips_key(l.next_ips_id), derived_account(l.next_ips_id))),
        next_ips_id: (l.next_ips_id + 1) as u32,
        ..l
    }
}

/// A pushed queue entry adds its amount to its account's unbonding total
/// and to no other account's.
pub proof fn lemma_queue_sum_push(
    q: Seq<(Era, AccountId, Balance)>,
    e: (Era, AccountId, Balance),
    a: AccountId,
)
    ensures
        queue_sum(q.push(e), a) == queue_sum(q, a) + (if e.1 == a {
            e.2 as int
        } else {
            0int
        }),
    decreases q.len(),
{
    let r = q.push(e);
    if q.len() == 0 {
        assert(r[0] == e);
        assert(r.skip(1) =~= Seq::<(Era, AccountId, Balance)>::empty());
        assert(queue_sum(r.skip(1), a) == 0);
    } else {
        assert(r[0] == q[0]);
        assert(r.skip(1) =~= q.skip(1).push(e));
        lemma_queue_sum_push(q.skip(1), e, a);
    }
}

} // verus!
