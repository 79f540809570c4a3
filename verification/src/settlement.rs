//! Era-boundary settlement and the yearly inflation recalculation, as
//! mathematical transitions.
//!
//! At every block whose height is a multiple of the era length the engine
//! advances the era, mints the per-era inflation into the pot, computes the
//! rewards of the era just completed from the active totals that were in
//! effect during it, and only then promotes the deferred stake and unstake
//! deltas.  Rewards never see post-promotion totals.

use vstd::prelude::*;
use crate::ledger::Pallet;
use crate::math::{pb_mul, perbill_mul, reward_for, reward_of};
use crate::state::{
    acct_key, act_bal, locked_of, pair_wf, pend_m, pend_p, queue_sum, staker_net, triple_wf,
    val_or0, wf, LedgerV,
};
use crate::table::{
    lemma_get_index, lemma_get_removed, lemma_get_upsert, lemma_removed_cases,
    lemma_removed_distinct, lemma_upsert_cases, lemma_upsert_distinct, t_distinct, t_get, t_has,
    t_removed, t_upsert, Key, Table,
};
use crate::sums::{ips_triple, sum3, sum_ips3};
use crate::types::{
    AccountId, Balance, BlockNumber, Era, EraStake, Error, Event, IpsInfo, IpsStakeInfo,
    PERBILL_ONE,
};

verus! {

/// The share of the per-era mint a parts-per-billion percentage carves out.
pub open spec fn share_of(pct: u32, per: Balance) -> Balance {
    pb_mul(pct as int, per as int) as u128
}

/// Era-boundary promotion of a stake triple: the pending deltas fold into
/// the active total and clear.
pub open spec fn settle3(t: (Balance, Balance, Balance)) -> (Balance, Balance, Balance) {
    ((t.0 + t.1 - t.2) as u128, 0u128, 0u128)
}

/// Promotion of the per-account triples.  A triple that settles to zero is
/// removed, so a stored record always answers for live stake.
pub open spec fn settle_stakers(
    s: Seq<(Key, (Balance, Balance, Balance))>,
) -> Seq<(Key, (Balance, Balance, Balance))>
    decreases s.len(),
{
    if s.len() == 0 {
        Seq::empty()
    } else {
        let t = s[0].1;
        (if t.0 + t.1 - t.2 == 0 {
            Seq::empty()
        } else {
            seq![(s[0].0, settle3(t))]
        }) + settle_stakers(s.skip(1))
    }
}

/// Promotion of the IP-set records: the stake fields follow the boundary
/// rule, the records themselves persist until unregistration.
pub open spec fn settle_ips_rec(v: IpsInfo) -> IpsInfo {
    IpsStakeInfo {
        total_stake: (v.total_stake + v.next_era_new_stake - v.next_era_new_unstake) as u128,
        next_era_new_stake: 0u128,
        next_era_new_unstake: 0u128,
        ..v
    }
}

pub open spec fn settle_ips(s: Seq<(Key, IpsInfo)>) -> Seq<(Key, IpsInfo)>
    decreases s.len(),
{
    if s.len() == 0 {
        Seq::empty()
    } else {
        seq![(s[0].0, settle_ips_rec(s[0].1))] + settle_ips(s.skip(1))
    }
}

/// Promotion of one per-pair record that carries pending deltas.
pub open spec fn settle_pair(e: EraStake, era: Era) -> EraStake {
    (Some((era, (act_bal(e) + pend_p(e) - pend_m(e)) as u128)), None, None)
}

/// Promotion of the per-pair records.  Records without pending deltas keep
/// their settled component untouched; records whose promoted balance is
/// zero are removed.
pub open spec fn settle_pairs(s: Seq<(Key, EraStake)>, era: Era) -> Seq<(Key, EraStake)>
    decreases s.len(),
{
    if s.len() == 0 {
        Seq::empty()
    } else {
        let e = s[0].1;
        (if e.1 is None && e.2 is None {
            seq![s[0]]
        } else if act_bal(e) + pend_p(e) - pend_m(e) == 0 {
            Seq::empty()
        } else {
            seq![(s[0].0, settle_pair(e, era))]
        }) + settle_pairs(s.skip(1), era)
    }
}

/// IP-set rewards for the settled era: each IP set with a positive active
/// stake earns its share of the IP-set pool, credited to its derived
/// multisig address, in table order.
pub open spec fn ips_rewards(
    rew: Seq<(Key, Balance)>,
    s: Seq<(Key, IpsInfo)>,
    total: Balance,
    share: Balance,
) -> Seq<(Key, Balance)>
    decreases s.len(),
{
    if s.len() == 0 {
        rew
    } else {
        let v = s[0].1;
        let k = acct_key(v.address);
        let rew1 = if v.total_stake > 0 {
            t_upsert(
                rew,
                k,
                (val_or0(rew, k) + reward_of(v.total_stake as int, total as int, share as int))
                    as u128,
            )
        } else {
            rew
        };
        ips_rewards(rew1, s.skip(1), total, share)
    }
}

/// The additions of the IP-set reward pass stay within the balance type.
pub open spec fn ips_rewards_fit(
    rew: Seq<(Key, Balance)>,
    s: Seq<(Key, IpsInfo)>,
    total: Balance,
    share: Balance,
) -> bool
    decreases s.len(),
{
    if s.len() == 0 {
        true
    } else {
        let v = s[0].1;
        let k = acct_key(v.address);
        if v.total_stake > 0 {
            let rew1 = t_upsert(
                rew,
                k,
                (val_or0(rew, k) + reward_of(v.total_stake as int, total as int, share as int))
                    as u128,
            );
            &&& v.total_stake * (PERBILL_ONE as int) <= u128::MAX
            &&& val_or0(rew, k) + reward_of(v.total_stake as int, total as int, share as int)
                <= u128::MAX
            &&& ips_rewards_fit(rew1, s.skip(1), total, share)
        } else {
            ips_rewards_fit(rew, s.skip(1), total, share)
        }
    }
}

/// Staker rewards for the settled era: every account with a per-account
/// triple earns its share of the staker pool, in table order.
pub open spec fn staker_rewards(
    rew: Seq<(Key, Balance)>,
    s: Seq<(Key, (Balance, Balance, Balance))>,
    total: Balance,
    share: Balance,
) -> Seq<(Key, Balance)>
    decreases s.len(),
{
    if s.len() == 0 {
        rew
    } else {
        let k = s[0].0;
        let rew1 = t_upsert(
            rew,
            k,
            (val_or0(rew, k) + reward_of(s[0].1.0 as int, total as int, share as int)) as u128,
        );
        staker_rewards(rew1, s.skip(1), total, share)
    }
}

/// The additions of the staker reward pass stay within the balance type.
pub open spec fn staker_rewards_fit(
    rew: Seq<(Key, Balance)>,
    s: Seq<(Key, (Balance, Balance, Balance))>,
    total: Balance,
    share: Balance,
) -> bool
    decreases s.len(),
{
    if s.len() == 0 {
        true
    } else {
        let k = s[0].0;
        let rew1 = t_upsert(
            rew,
            k,
            (val_or0(rew, k) + reward_of(s[0].1.0 as int, total as int, share as int)) as u128,
        );
        &&& s[0].1.0 * (PERBILL_ONE as int) <= u128::MAX
        &&& val_or0(rew, k) + reward_of(s[0].1.0 as int, total as int, share as int) <= u128::MAX
        &&& staker_rewards_fit(rew1, s.skip(1), total, share)
    }
}

/// Release of the staking locks whose unbonding entries mature at the
/// given era: each matured amount leaves its account's lock, and a lock
/// that reaches zero is removed.
pub open spec fn release_locks(
    locks: Seq<(Key, Balance)>,
    q: Seq<(Era, AccountId, Balance)>,
    era: Era,
) -> Seq<(Key, Balance)>
    decreases q.len(),
{
    if q.len() == 0 {
        locks
    } else {
        let locks1 = if q[0].0 == era {
            let k = acct_key(q[0].1);
            let nv = val_or0(locks, k) - q[0].2;
            if nv <= 0 {
                crate::table::t_removed(locks, k)
            } else {
                t_upsert(locks, k, nv as u128)
            }
        } else {
            locks
        };
        release_locks(locks1, q.skip(1), era)
    }
}

/// The unbonding queue once the entries of the given era have matured.
pub open spec fn queue_after(q: Seq<(Era, AccountId, Balance)>, era: Era) -> Seq<
    (Era, AccountId, Balance),
>
    decreases q.len(),
{
    if q.len() == 0 {
        Seq::empty()
    } else {
        (if q[0].0 == era {
            Seq::empty()
        } else {
            seq![q[0]]
        }) + queue_after(q.skip(1), era)
    }
}

/// Total amount an account holds in queue entries that do not mature at
/// the given era.
pub open spec fn unmat_sum(q: Seq<(Era, AccountId, Balance)>, a: AccountId, era: Era) -> int
    decreases q.len(),
{
    if q.len() == 0 {
        0
    } else {
        (if q[0].1 == a && q[0].0 != era {
            q[0].2 as int
        } else {
            0
        }) + unmat_sum(q.skip(1), a, era)
    }
}

/// All the additions of a settlement stay within the balance type.  The
/// subtractions are covered by well-formedness.
pub open spec fn settle_fits(l: LedgerV) -> bool {
    let per = l.inflation_per_era;
    let potk = acct_key(l.cfg.pot_account);
    let a = l.total_staked.0;
    let ishare = share_of(l.cfg.ips_inflation_percentage, per);
    let sshare = share_of(l.cfg.staker_inflation_percentage, per);
    &&& val_or0(l.free, potk) + per <= u128::MAX
    &&& l.issuance + per <= u128::MAX
    &&& ips_rewards_fit(l.rewards, l.ips, a, ishare)
    &&& staker_rewards_fit(ips_rewards(l.rewards, l.ips, a, ishare), l.stakers, a, sshare)
    &&& forall|i: int|
        0 <= i < l.ips.len() ==> (#[trigger] l.ips[i]).1.total_stake + l.ips[i].1.next_era_new_stake
            <= u128::MAX
    &&& forall|i: int|
        0 <= i < l.stakers.len() ==> (#[trigger] l.stakers[i]).1.0 + l.stakers[i].1.1 <= u128::MAX
    &&& forall|i: int|
        0 <= i < l.pairs.len() ==> act_bal((#[trigger] l.pairs[i]).1) + pend_p(l.pairs[i].1)
            <= u128::MAX
    &&& l.total_staked.0 + l.total_staked.1 <= u128::MAX
}

/// Ledger after the settlement a boundary block performs, in order: era
/// advance, mint into the pot, reward computation from the pre-promotion
/// totals, promotion of every deferred delta, and release of the matured
/// unbonding entries.
pub open spec fn settle_tr(l: LedgerV, n: BlockNumber) -> LedgerV {
    let new_era = (l.current_era + 1) as u32;
    let per = l.inflation_per_era;
    let potk = acct_key(l.cfg.pot_account);
    let a = l.total_staked.0;
    let ishare = share_of(l.cfg.ips_inflation_percentage, per);
    let sshare = share_of(l.cfg.staker_inflation_percentage, per);
    LedgerV {
        current_era: new_era,
        last_payout_block: n,
        free: t_upsert(l.free, potk, (val_or0(l.free, potk) + per) as u128),
        issuance: (l.issuance + per) as u128,
        rewards: staker_rewards(ips_rewards(l.rewards, l.ips, a, ishare), l.stakers, a, sshare),
        ips: settle_ips(l.ips),
        stakers: settle_stakers(l.stakers),
        pairs: settle_pairs(l.pairs, new_era),
        locks: release_locks(l.locks, l.queue, new_era),
        queue: queue_after(l.queue, new_era),
        total_staked: settle3(l.total_staked),
        ..l
    }
}

/// The recomputed per-era inflation: the annual rate applied to the
/// current total issuance, spread over the blocks of a year.
pub open spec fn recalc_amount(l: LedgerV) -> Balance {
    (pb_mul(l.cfg.ip_staking_inflation_rate as int, l.issuance as int) / (
    l.cfg.blocks_per_year as int)) as u128
}

/// Whether the yearly inflation recalculation is due at block `n`.
pub open spec fn recalc_due(l: LedgerV, n: BlockNumber) -> bool {
    n - l.last_recalc >= l.cfg.blocks_per_year
}

pub open spec fn recalc_if_due(l: LedgerV, n: BlockNumber) -> LedgerV {
    if recalc_due(l, n) {
        LedgerV { inflation_per_era: recalc_amount(l), last_recalc: n, ..l }
    } else {
        l
    }
}

/// Whether block `n` is an era boundary.
pub open spec fn is_boundary(l: LedgerV, n: BlockNumber) -> bool {
    n % l.cfg.blocks_per_era == 0
}

/// Which failure the pre-block hook returns, if any: only the settlement
/// can fail, on era exhaustion or on overflow, and then the whole block is
/// rejected with the ledger untouched.
pub open spec fn hook_err(l: LedgerV, n: BlockNumber) -> Option<Error> {
    if is_boundary(l, n) {
        if l.current_era == u32::MAX {
            Some(Error::NoAvailableEra)
        } else if !settle_fits(l) {
            Some(Error::Overflow)
        } else {
            None
        }
    } else {
        None
    }
}

/// Ledger after the pre-block hook of block `n`: settlement at an era
/// boundary, then the yearly recalculation when it is due (reading the
/// total issuance the settlement just left), then the block height.
pub open spec fn hook_tr(l: LedgerV, n: BlockNumber) -> LedgerV {
    let l1 = if is_boundary(l, n) {
        settle_tr(l, n)
    } else {
        l
    };
    let l2 = recalc_if_due(l1, n);
    LedgerV { current_block: n, ..l2 }
}

/// Promotion of the per-account triples: keys stay unique, promoted
/// triples are well formed, lookup commutes with promotion, and the sum
/// of the triples follows the boundary rule.
pub proof fn lemma_settle_stakers_props(s: Seq<(Key, (Balance, Balance, Balance))>)
    requires
        t_distinct(s),
        forall|i: int| 0 <= i < s.len() ==> crate::state::triple_wf((#[trigger] s[i]).1),
        forall|i: int| 0 <= i < s.len() ==> (#[trigger] s[i]).1.0 + s[i].1.1 <= u128::MAX,
    ensures
        t_distinct(settle_stakers(s)),
        forall|j: int|
            0 <= j < settle_stakers(s).len() ==> crate::state::triple_wf(
                (#[trigger] settle_stakers(s)[j]).1,
            ),
        forall|k: Key|
            #[trigger] t_get(settle_stakers(s), k) == (match t_get(s, k) {
                Some(t) => if t.0 + t.1 - t.2 == 0 {
                    None
                } else {
                    Some(settle3(t))
                },
                None => None::<(Balance, Balance, Balance)>,
            }),
        sum3(settle_stakers(s)) == (sum3(s).0 + sum3(s).1 - sum3(s).2, 0int, 0int),
    decreases s.len(),
{
    let r = settle_stakers(s);
    if s.len() == 0 {
        assert(r =~= Seq::<(Key, (Balance, Balance, Balance))>::empty());
    } else {
        let t = s[0].1;
        let rest = settle_stakers(s.skip(1));
        lemma_settle_stakers_props(s.skip(1));
        if t.0 + t.1 - t.2 == 0 {
            assert(r =~= rest);
            assert forall|k: Key| #[trigger] t_get(r, k) == (match t_get(s, k) {
                Some(t2) => if t2.0 + t2.1 - t2.2 == 0 {
                    None
                } else {
                    Some(settle3(t2))
                },
                None => None::<(Balance, Balance, Balance)>,
            }) by {
                if k == s[0].0 {
                    assert(!t_has(s.skip(1), k));
                    assert(t_get(rest, k) == None::<(Balance, Balance, Balance)>);
                } else {
                    assert(t_get(s, k) == t_get(s.skip(1), k));
                }
            }
        } else {
            assert(r == seq![(s[0].0, settle3(t))] + rest);
            assert(r[0] == (s[0].0, settle3(t)));
            assert(r.skip(1) =~= rest);
            assert(!t_has(s.skip(1), s[0].0));
            assert(t_get(rest, s[0].0) == None::<(Balance, Balance, Balance)>);
            assert(t_distinct(r));
            assert forall|k: Key| #[trigger] t_get(r, k) == (match t_get(s, k) {
                Some(t2) => if t2.0 + t2.1 - t2.2 == 0 {
                    None
                } else {
                    Some(settle3(t2))
                },
                None => None::<(Balance, Balance, Balance)>,
            }) by {
                if k == s[0].0 {
                } else {
                    assert(t_get(r, k) == t_get(rest, k));
                    assert(t_get(s, k) == t_get(s.skip(1), k));
                }
            }
            assert forall|j: int| 0 <= j < r.len() implies crate::state::triple_wf(
                (#[trigger] r[j]).1,
            ) by {
                if j > 0 {
                    assert(r[j] == rest[j - 1]);
                }
            }
        }
    }
}

/// Promotion of the IP-set records: positionwise, with the sum following
/// the boundary rule.
pub proof fn lemma_settle_ips_props(s: Seq<(Key, IpsInfo)>)
    requires
        t_distinct(s),
        forall|i: int| 0 <= i < s.len() ==> crate::state::ips_rec_wf((#[trigger] s[i]).1),
        forall|i: int|
            0 <= i < s.len() ==> (#[trigger] s[i]).1.total_stake + s[i].1.next_era_new_stake
                <= u128::MAX,
    ensures
        t_distinct(settle_ips(s)),
        settle_ips(s).len() == s.len(),
        forall|j: int|
            0 <= j < s.len() ==> (#[trigger] settle_ips(s)[j]) == (
                s[j].0,
                settle_ips_rec(s[j].1),
            ),
        forall|k: Key|
            #[trigger] t_get(settle_ips(s), k) == (match t_get(s, k) {
                Some(v) => Some(settle_ips_rec(v)),
                None => None::<IpsInfo>,
            }),
        sum_ips3(settle_ips(s)) == (sum_ips3(s).0 + sum_ips3(s).1 - sum_ips3(s).2, 0int, 0int),
    decreases s.len(),
{
    let r = settle_ips(s);
    if s.len() == 0 {
        assert(r =~= Seq::<(Key, IpsInfo)>::empty());
    } else {
        let rest = settle_ips(s.skip(1));
        lemma_settle_ips_props(s.skip(1));
        assert(r[0] == (s[0].0, settle_ips_rec(s[0].1)));
        assert(r.skip(1) =~= rest);
        assert forall|j: int| 0 <= j < s.len() implies (#[trigger] r[j]) == (
            s[j].0,
            settle_ips_rec(s[j].1),
        ) by {
            if j > 0 {
                assert(r[j] == rest[j - 1]);
                assert(s.skip(1)[j - 1] == s[j]);
            }
        }
        assert(!t_has(s.skip(1), s[0].0));
        assert(t_get(rest, s[0].0) == None::<IpsInfo>);
        assert(t_distinct(r));
        assert forall|k: Key| #[trigger] t_get(r, k) == (match t_get(s, k) {
            Some(v) => Some(settle_ips_rec(v)),
            None => None::<IpsInfo>,
        }) by {
            if k != s[0].0 {
                assert(t_get(r, k) == t_get(rest, k));
                assert(t_get(s, k) == t_get(s.skip(1), k));
            }
        }
    }
}

/// Promotion of the per-pair records: keys stay unique, stored records
/// stay well formed, and lookup commutes with promotion and removal.
pub proof fn lemma_settle_pairs_props(s: Seq<(Key, EraStake)>, era: Era)
    requires
        t_distinct(s),
        forall|i: int| 0 <= i < s.len() ==> crate::state::pair_wf((#[trigger] s[i]).1),
        forall|i: int|
            0 <= i < s.len() ==> act_bal((#[trigger] s[i]).1) + pend_p(s[i].1) <= u128::MAX,
    ensures
        t_distinct(settle_pairs(s, era)),
        forall|j: int|
            0 <= j < settle_pairs(s, era).len() ==> crate::state::pair_wf(
                (#[trigger] settle_pairs(s, era)[j]).1,
            ),
        forall|k: Key|
            #[trigger] t_get(settle_pairs(s, era), k) == (match t_get(s, k) {
                Some(e) => if e.1 is None && e.2 is None {
                    Some(e)
                } else if act_bal(e) + pend_p(e) - pend_m(e) == 0 {
                    None
                } else {
                    Some(settle_pair(e, era))
                },
                None => None::<EraStake>,
            }),
    decreases s.len(),
{
    let r = settle_pairs(s, era);
    if s.len() == 0 {
        assert(r =~= Seq::<(Key, EraStake)>::empty());
    } else {
        let e = s[0].1;
        let rest = settle_pairs(s.skip(1), era);
        lemma_settle_pairs_props(s.skip(1), era);
        assert(!t_has(s.skip(1), s[0].0));
        assert(t_get(rest, s[0].0) == None::<EraStake>);
        if e.1 is None && e.2 is None {
            assert(r == seq![s[0]] + rest);
            assert(r[0] == s[0]);
            assert(r.skip(1) =~= rest);
            assert(t_distinct(r));
            assert forall|k: Key| #[trigger] t_get(r, k) == (match t_get(s, k) {
                Some(e2) => if e2.1 is None && e2.2 is None {
                    Some(e2)
                } else if act_bal(e2) + pend_p(e2) - pend_m(e2) == 0 {
                    None
                } else {
                    Some(settle_pair(e2, era))
                },
                None => None::<EraStake>,
            }) by {
                if k != s[0].0 {
                    assert(t_get(r, k) == t_get(rest, k));
                    assert(t_get(s, k) == t_get(s.skip(1), k));
                }
            }
            assert forall|j: int| 0 <= j < r.len() implies crate::state::pair_wf(
                (#[trigger] r[j]).1,
            ) by {
                if j > 0 {
                    assert(r[j] == rest[j - 1]);
                }
            }
        } else if act_bal(e) + pend_p(e) - pend_m(e) == 0 {
            assert(r =~= rest);
            assert forall|k: Key| #[trigger] t_get(r, k) == (match t_get(s, k) {
                Some(e2) => if e2.1 is None && e2.2 is None {
                    Some(e2)
                } else if act_bal(e2) + pend_p(e2) - pend_m(e2) == 0 {
                    None
                } else {
                    Some(settle_pair(e2, era))
                },
                None => None::<EraStake>,
            }) by {
                if k == s[0].0 {
                    assert(t_get(rest, k) == None::<EraStake>);
                } else {
                    assert(t_get(s, k) == t_get(s.skip(1), k));
                }
            }
        } else {
            let sp = settle_pair(e, era);
            assert(r == seq![(s[0].0, sp)] + rest);
            assert(r[0] == (s[0].0, sp));
            assert(r.skip(1) =~= rest);
            assert(t_distinct(r));
            assert(crate::state::pair_wf(sp));
            assert forall|k: Key| #[trigger] t_get(r, k) == (match t_get(s, k) {
                Some(e2) => if e2.1 is None && e2.2 is None {
                    Some(e2)
                } else if act_bal(e2) + pend_p(e2) - pend_m(e2) == 0 {
                    None
                } else {
                    Some(settle_pair(e2, era))
                },
                None => None::<EraStake>,
            }) by {
                if k != s[0].0 {
                    assert(t_get(r, k) == t_get(rest, k));
                    assert(t_get(s, k) == t_get(s.skip(1), k));
                }
            }
            assert forall|j: int| 0 <= j < r.len() implies crate::state::pair_wf(
                (#[trigger] r[j]).1,
            ) by {
                if j > 0 {
                    assert(r[j] == rest[j - 1]);
                }
            }
        }
    }
}

/// Reward passes keep table keys unique.
pub proof fn lemma_ips_rewards_distinct(
    rew: Seq<(Key, Balance)>,
    s: Seq<(Key, IpsInfo)>,
    total: Balance,
    share: Balance,
)
    requires
        t_distinct(rew),
    ensures
        t_distinct(ips_rewards(rew, s, total, share)),
    decreases s.len(),
{
    if s.len() == 0 {
    } else {
        let v = s[0].1;
        let k = acct_key(v.address);
        if v.total_stake > 0 {
            let nv = (val_or0(rew, k) + reward_of(
                v.total_stake as int,
                total as int,
                share as int,
            )) as u128;
            crate::table::lemma_upsert_distinct(rew, k, nv);
            lemma_ips_rewards_distinct(t_upsert(rew, k, nv), s.skip(1), total, share);
        } else {
            lemma_ips_rewards_distinct(rew, s.skip(1), total, share);
        }
    }
}

pub proof fn lemma_staker_rewards_distinct(
    rew: Seq<(Key, Balance)>,
    s: Seq<(Key, (Balance, Balance, Balance))>,
    total: Balance,
    share: Balance,
)
    requires
        t_distinct(rew),
    ensures
        t_distinct(staker_rewards(rew, s, total, share)),
    decreases s.len(),
{
    if s.len() == 0 {
    } else {
        let k = s[0].0;
        let nv = (val_or0(rew, k) + reward_of(s[0].1.0 as int, total as int, share as int))
            as u128;
        crate::table::lemma_upsert_distinct(rew, k, nv);
        lemma_staker_rewards_distinct(t_upsert(rew, k, nv), s.skip(1), total, share);
    }
}

/// The queue that remains after maturation carries exactly the unmatured
/// amounts.
pub proof fn lemma_queue_after_sum(q: Seq<(Era, AccountId, Balance)>, a: AccountId, era: Era)
    ensures
        queue_sum(queue_after(q, era), a) == unmat_sum(q, a, era),
    decreases q.len(),
{
    let r = queue_after(q, era);
    if q.len() == 0 {
        assert(r =~= Seq::<(Era, AccountId, Balance)>::empty());
    } else {
        lemma_queue_after_sum(q.skip(1), a, era);
        if q[0].0 == era {
            assert(r =~= queue_after(q.skip(1), era));
        } else {
            assert(r == seq![q[0]] + queue_after(q.skip(1), era));
            assert(r[0] == q[0]);
            assert(r.skip(1) =~= queue_after(q.skip(1), era));
        }
    }
}

pub proof fn lemma_queue_sum_nonneg(q: Seq<(Era, AccountId, Balance)>, a: AccountId)
    ensures
        queue_sum(q, a) >= 0,
    decreases q.len(),
{
    if q.len() == 0 {
    } else {
        lemma_queue_sum_nonneg(q.skip(1), a);
    }
}

pub proof fn lemma_unmat_sum_nonneg(q: Seq<(Era, AccountId, Balance)>, a: AccountId, era: Era)
    ensures
        unmat_sum(q, a, era) >= 0,
    decreases q.len(),
{
    if q.len() == 0 {
    } else {
        lemma_unmat_sum_nonneg(q.skip(1), a, era);
    }
}

/// A pushed queue entry adds its amount to the unmatured total exactly
/// when it belongs to the account and does not mature at the given era.
pub proof fn lemma_unmat_sum_push(
    q: Seq<(Era, AccountId, Balance)>,
    e: (Era, AccountId, Balance),
    a: AccountId,
    era: Era,
)
    ensures
        unmat_sum(q.push(e), a, era) == unmat_sum(q, a, era) + (if e.1 == a && e.0 != era {
            e.2 as int
        } else {
            0int
        }),
    decreases q.len(),
{
    let r = q.push(e);
    if q.len() == 0 {
        assert(r[0] == e);
        assert(r.skip(1) =~= Seq::<(Era, AccountId, Balance)>::empty());
        assert(unmat_sum(r.skip(1), a, era) == 0);
    } else {
        assert(r[0] == q[0]);
        assert(r.skip(1) =~= q.skip(1).push(e));
        lemma_unmat_sum_push(q.skip(1), e, a, era);
    }
}

/// Total reward the IP-set pass hands out.
pub open spec fn ips_delta(s: Seq<(Key, IpsInfo)>, total: Balance, share: Balance) -> int
    decreases s.len(),
{
    if s.len() == 0 {
        0
    } else {
        (if s[0].1.total_stake > 0 {
            reward_of(s[0].1.total_stake as int, total as int, share as int)
        } else {
            0
        }) + ips_delta(s.skip(1), total, share)
    }
}

/// Total parts per billion the IP-set pass hands out.
pub open spec fn ips_psum(s: Seq<(Key, IpsInfo)>, total: Balance) -> int
    decreases s.len(),
{
    if s.len() == 0 {
        0
    } else {
        (if s[0].1.total_stake > 0 {
            crate::math::pb_parts(s[0].1.total_stake as int, total as int)
        } else {
            0
        }) + ips_psum(s.skip(1), total)
    }
}

/// Total reward the staker pass hands out.
pub open spec fn staker_delta(
    s: Seq<(Key, (Balance, Balance, Balance))>,
    total: Balance,
    share: Balance,
) -> int
    decreases s.len(),
{
    if s.len() == 0 {
        0
    } else {
        reward_of(s[0].1.0 as int, total as int, share as int) + staker_delta(
            s.skip(1),
            total,
            share,
        )
    }
}

/// Total parts per billion the staker pass hands out.
pub open spec fn staker_psum(s: Seq<(Key, (Balance, Balance, Balance))>, total: Balance) -> int
    decreases s.len(),
{
    if s.len() == 0 {
        0
    } else {
        crate::math::pb_parts(s[0].1.0 as int, total as int) + staker_psum(s.skip(1), total)
    }
}

/// The IP-set pass grows the reward table's total by exactly its payout.
pub proof fn lemma_ips_rewards_sum_val(
    rew: Seq<(Key, Balance)>,
    s: Seq<(Key, IpsInfo)>,
    total: Balance,
    share: Balance,
)
    requires
        ips_rewards_fit(rew, s, total, share),
    ensures
        crate::sums::sum_val(ips_rewards(rew, s, total, share)) == crate::sums::sum_val(rew)
            + ips_delta(s, total, share),
    decreases s.len(),
{
    if s.len() == 0 {
    } else {
        let v = s[0].1;
        let k = acct_key(v.address);
        if v.total_stake > 0 {
            let r = reward_of(v.total_stake as int, total as int, share as int);
            let nv = (val_or0(rew, k) + r) as u128;
            crate::sums::lemma_sum_val_upsert(rew, k, nv);
            lemma_ips_rewards_sum_val(t_upsert(rew, k, nv), s.skip(1), total, share);
        } else {
            lemma_ips_rewards_sum_val(rew, s.skip(1), total, share);
        }
    }
}

/// The staker pass grows the reward table's total by exactly its payout.
pub proof fn lemma_staker_rewards_sum_val(
    rew: Seq<(Key, Balance)>,
    s: Seq<(Key, (Balance, Balance, Balance))>,
    total: Balance,
    share: Balance,
)
    requires
        staker_rewards_fit(rew, s, total, share),
    ensures
        crate::sums::sum_val(staker_rewards(rew, s, total, share)) == crate::sums::sum_val(rew)
            + staker_delta(s, total, share),
    decreases s.len(),
{
    if s.len() == 0 {
    } else {
        let k = s[0].0;
        let r = reward_of(s[0].1.0 as int, total as int, share as int);
        let nv = (val_or0(rew, k) + r) as u128;
        crate::sums::lemma_sum_val_upsert(rew, k, nv);
        lemma_staker_rewards_sum_val(t_upsert(rew, k, nv), s.skip(1), total, share);
    }
}

/// The IP-set payout is bounded through the parts it hands out.
pub proof fn lemma_ips_delta_le(s: Seq<(Key, IpsInfo)>, total: Balance, share: Balance)
    ensures
        0 <= ips_psum(s, total),
        ips_delta(s, total, share) <= crate::math::pb_mul(ips_psum(s, total), share as int),
        ips_psum(s, total) <= crate::math::pb_parts(sum_ips3(s).0, total as int),
    decreases s.len(),
{
    if s.len() == 0 {
        assert(crate::math::pb_mul(0, share as int) == 0) by {
            assert((share as int) * 0 == 0);
        }
        crate::math::lemma_pb_parts_nonneg(sum_ips3(s).0, total as int);
    } else {
        let t0 = s[0].1.total_stake;
        lemma_ips_delta_le(s.skip(1), total, share);
        crate::sums::lemma_sum_ips3_nonneg(s.skip(1));
        crate::math::lemma_pb_parts_nonneg(t0 as int, total as int);
        let p0: int = if t0 > 0 {
            crate::math::pb_parts(t0 as int, total as int)
        } else {
            0
        };
        crate::math::lemma_pb_mul_superadd(p0, ips_psum(s.skip(1), total), share as int);
        crate::math::lemma_pb_parts_superadd(t0 as int, sum_ips3(s.skip(1)).0, total as int);
        crate::math::lemma_pb_parts_nonneg(sum_ips3(s.skip(1)).0, total as int);
        crate::math::lemma_pb_mul_mono(
            ips_psum(s.skip(1), total),
            crate::math::pb_parts(sum_ips3(s.skip(1)).0, total as int),
            share as int,
        );
    }
}

/// The staker payout is bounded through the parts it hands out.
pub proof fn lemma_staker_delta_le(
    s: Seq<(Key, (Balance, Balance, Balance))>,
    total: Balance,
    share: Balance,
)
    ensures
        0 <= staker_psum(s, total),
        staker_delta(s, total, share) <= crate::math::pb_mul(staker_psum(s, total), share as int),
        staker_psum(s, total) <= crate::math::pb_parts(sum3(s).0, total as int),
    decreases s.len(),
{
    if s.len() == 0 {
        assert(crate::math::pb_mul(0, share as int) == 0) by {
            assert((share as int) * 0 == 0);
        }
        crate::math::lemma_pb_parts_nonneg(sum3(s).0, total as int);
    } else {
        let t0 = s[0].1.0;
        lemma_staker_delta_le(s.skip(1), total, share);
        crate::sums::lemma_sum3_nonneg(s.skip(1));
        crate::math::lemma_pb_parts_nonneg(t0 as int, total as int);
        let p0: int = crate::math::pb_parts(t0 as int, total as int);
        crate::math::lemma_pb_mul_superadd(p0, staker_psum(s.skip(1), total), share as int);
        crate::math::lemma_pb_parts_superadd(t0 as int, sum3(s.skip(1)).0, total as int);
        crate::math::lemma_pb_parts_nonneg(sum3(s.skip(1)).0, total as int);
        crate::math::lemma_pb_mul_mono(
            staker_psum(s.skip(1), total),
            crate::math::pb_parts(sum3(s.skip(1)).0, total as int),
            share as int,
        );
    }
}

/// No era pays out more than its mint: the rewards both passes hand out
/// together stay within the per-era amount the pot just received.
pub proof fn lemma_settlement_payout_covered(l: LedgerV)
    requires
        wf(l),
        settle_fits(l),
    ensures
        crate::sums::sum_val(
            staker_rewards(
                ips_rewards(
                    l.rewards,
                    l.ips,
                    l.total_staked.0,
                    share_of(l.cfg.ips_inflation_percentage, l.inflation_per_era),
                ),
                l.stakers,
                l.total_staked.0,
                share_of(l.cfg.staker_inflation_percentage, l.inflation_per_era),
            ),
        ) <= crate::sums::sum_val(l.rewards) + l.inflation_per_era,
{
    let per = l.inflation_per_era;
    let a_tot = l.total_staked.0;
    let ishare = share_of(l.cfg.ips_inflation_percentage, per);
    let sshare = share_of(l.cfg.staker_inflation_percentage, per);
    let mid = ips_rewards(l.rewards, l.ips, a_tot, ishare);
    lemma_ips_rewards_sum_val(l.rewards, l.ips, a_tot, ishare);
    lemma_staker_rewards_sum_val(mid, l.stakers, a_tot, sshare);
    // each pass is bounded by its own share
    lemma_ips_delta_le(l.ips, a_tot, ishare);
    crate::sums::lemma_sum_ips3_nonneg(l.ips);
    crate::math::lemma_pb_parts_le_one(sum_ips3(l.ips).0, a_tot as int);
    crate::math::lemma_pb_mul_mono(
        ips_psum(l.ips, a_tot),
        crate::types::PERBILL_ONE as int,
        ishare as int,
    );
    crate::math::lemma_pb_mul_one(ishare as int);
    lemma_staker_delta_le(l.stakers, a_tot, sshare);
    crate::sums::lemma_sum3_nonneg(l.stakers);
    crate::math::lemma_pb_parts_le_one(sum3(l.stakers).0, a_tot as int);
    crate::math::lemma_pb_mul_mono(
        staker_psum(l.stakers, a_tot),
        crate::types::PERBILL_ONE as int,
        sshare as int,
    );
    crate::math::lemma_pb_mul_one(sshare as int);
    // and the two shares together stay within the mint
    crate::math::lemma_pb_mul_nonneg(l.cfg.ips_inflation_percentage as int, per as int);
    crate::math::lemma_pb_mul_nonneg(l.cfg.staker_inflation_percentage as int, per as int);
    crate::math::lemma_pb_mul_superadd(
        l.cfg.ips_inflation_percentage as int,
        l.cfg.staker_inflation_percentage as int,
        per as int,
    );
    crate::math::lemma_pb_mul_mono(
        l.cfg.ips_inflation_percentage + l.cfg.staker_inflation_percentage,
        crate::types::PERBILL_ONE as int,
        per as int,
    );
    crate::math::lemma_pb_mul_one(per as int);
}

/// An account that is no IP set's derived address is untouched by the
/// IP-set reward pass.
pub proof fn lemma_ips_rewards_untouched(
    rew: Seq<(Key, Balance)>,
    s: Seq<(Key, IpsInfo)>,
    total: Balance,
    share: Balance,
    k: Key,
)
    requires
        forall|i: int| 0 <= i < s.len() ==> acct_key((#[trigger] s[i]).1.address) != k,
    ensures
        val_or0(ips_rewards(rew, s, total, share), k) == val_or0(rew, k),
    decreases s.len(),
{
    if s.len() == 0 {
    } else {
        let v = s[0].1;
        let k0 = acct_key(v.address);
        if v.total_stake > 0 {
            let nv = (val_or0(rew, k0) + reward_of(
                v.total_stake as int,
                total as int,
                share as int,
            )) as u128;
            lemma_get_upsert(rew, k0, nv, k);
            lemma_ips_rewards_untouched(t_upsert(rew, k0, nv), s.skip(1), total, share, k);
        } else {
            lemma_ips_rewards_untouched(rew, s.skip(1), total, share, k);
        }
    }
}

/// An account with no per-account triple is untouched by the staker
/// reward pass.
pub proof fn lemma_staker_rewards_untouched(
    rew: Seq<(Key, Balance)>,
    s: Seq<(Key, (Balance, Balance, Balance))>,
    total: Balance,
    share: Balance,
    k: Key,
)
    requires
        forall|i: int| 0 <= i < s.len() ==> (#[trigger] s[i]).0 != k,
    ensures
        val_or0(staker_rewards(rew, s, total, share), k) == val_or0(rew, k),
    decreases s.len(),
{
    if s.len() == 0 {
    } else {
        let k0 = s[0].0;
        let nv = (val_or0(rew, k0) + reward_of(s[0].1.0 as int, total as int, share as int))
            as u128;
        lemma_get_upsert(rew, k0, nv, k);
        lemma_staker_rewards_untouched(t_upsert(rew, k0, nv), s.skip(1), total, share, k);
    }
}

/// The IP-set reward pass adds to the address of an actively staked IP
/// set — one whose address no other record shares — exactly that IP
/// set's reward for the settled era.
pub proof fn lemma_ips_rewards_get(
    rew: Seq<(Key, Balance)>,
    s: Seq<(Key, IpsInfo)>,
    total: Balance,
    share: Balance,
    j: int,
)
    requires
        ips_rewards_fit(rew, s, total, share),
        0 <= j < s.len(),
        s[j].1.total_stake > 0,
        forall|i: int| 0 <= i < s.len() && i != j ==> (#[trigger] s[i]).1.address != s[j].1.address,
    ensures
        val_or0(ips_rewards(rew, s, total, share), acct_key(s[j].1.address)) == val_or0(
            rew,
            acct_key(s[j].1.address),
        ) + reward_of(s[j].1.total_stake as int, total as int, share as int),
    decreases s.len(),
{
    let k = acct_key(s[j].1.address);
    if j == 0 {
        let v = s[0].1;
        let nv = (val_or0(rew, k) + reward_of(v.total_stake as int, total as int, share as int))
            as u128;
        let rew1 = t_upsert(rew, k, nv);
        lemma_get_upsert(rew, k, nv, k);
        assert forall|i: int| 0 <= i < s.skip(1).len() implies acct_key(
            (#[trigger] s.skip(1)[i]).1.address,
        ) != k by {
            assert(s.skip(1)[i] == s[i + 1]);
        }
        lemma_ips_rewards_untouched(rew1, s.skip(1), total, share, k);
    } else {
        let v = s[0].1;
        let k0 = acct_key(v.address);
        assert(s.skip(1)[j - 1] == s[j]);
        assert forall|i: int|
            0 <= i < s.skip(1).len() && i != j - 1 implies (#[trigger] s.skip(1)[i]).1.address
            != s.skip(1)[j - 1].1.address by {
            assert(s.skip(1)[i] == s[i + 1]);
        }
        if v.total_stake > 0 {
            let nv = (val_or0(rew, k0) + reward_of(
                v.total_stake as int,
                total as int,
                share as int,
            )) as u128;
            let rew1 = t_upsert(rew, k0, nv);
            lemma_get_upsert(rew, k0, nv, k);
            lemma_ips_rewards_get(rew1, s.skip(1), total, share, j - 1);
        } else {
            lemma_ips_rewards_get(rew, s.skip(1), total, share, j - 1);
        }
    }
}

/// The staker reward pass adds to each staking account exactly its
/// reward for the settled era.
pub proof fn lemma_staker_rewards_get(
    rew: Seq<(Key, Balance)>,
    s: Seq<(Key, (Balance, Balance, Balance))>,
    total: Balance,
    share: Balance,
    k: Key,
)
    requires
        t_distinct(s),
        t_has(s, k),
        staker_rewards_fit(rew, s, total, share),
    ensures
        val_or0(staker_rewards(rew, s, total, share), k) == val_or0(rew, k) + reward_of(
            t_get(s, k).unwrap().0 as int,
            total as int,
            share as int,
        ),
    decreases s.len(),
{
    let k0 = s[0].0;
    let nv = (val_or0(rew, k0) + reward_of(s[0].1.0 as int, total as int, share as int)) as u128;
    let rew1 = t_upsert(rew, k0, nv);
    if k0 == k {
        lemma_get_upsert(rew, k0, nv, k);
        crate::table::lemma_distinct_index(s);
        assert forall|i: int| 0 <= i < s.skip(1).len() implies (#[trigger] s.skip(1)[i]).0 != k by {
            assert(s.skip(1)[i] == s[i + 1]);
        }
        lemma_staker_rewards_untouched(rew1, s.skip(1), total, share, k);
    } else {
        lemma_get_upsert(rew, k0, nv, k);
        assert(t_get(s, k) == t_get(s.skip(1), k));
        lemma_staker_rewards_get(rew1, s.skip(1), total, share, k);
    }
}

/// The events the pre-block hook emits, in order.
pub open spec fn hook_events(l: LedgerV, n: BlockNumber) -> Seq<Event> {
    let l1 = if is_boundary(l, n) {
        settle_tr(l, n)
    } else {
        l
    };
    (if is_boundary(l, n) {
        seq![
            Event::InflationEvent {
                era: l.current_era,
                inflation_pot: l.cfg.pot_account,
                inflation_amount: l.inflation_per_era,
            },
        ]
    } else {
        Seq::empty()
    }) + (if recalc_due(l1, n) {
        seq![Event::NewDailyInflationRate { amount: recalc_amount(l1) }]
    } else {
        Seq::empty()
    })
}

impl Pallet {
    /// Reward pass over the registered IP sets: each with a positive
    /// active stake earns its share of the IP-set pool, credited to its
    /// derived multisig address.  Rewards use the pre-promotion totals;
    /// the per-address increment is stated in general by
    /// `crate::laws::lemma_ips_reward_provenance`.
    fn calculate_ips_rewards(
        rew: &mut Table<Balance>,
        ips: &Table<IpsInfo>,
        total: Balance,
        share: Balance,
    ) -> (r: Result<(), Error>)
        requires
            t_distinct(old(rew)@),
            t_distinct(ips@),
            sum_ips3(ips@).0 == total as int,
        ensures
            t_distinct(final(rew)@),
            match r {
                Ok(u) => {
                    &&& ips_rewards_fit(old(rew)@, ips@, total, share)
                    &&& final(rew)@ == ips_rewards(old(rew)@, ips@, total, share)
                },
                Err(e) => e == Error::Overflow && !ips_rewards_fit(old(rew)@, ips@, total, share),
            },
    {
        let n = ips.len();
        let mut i: usize = 0;
        proof {
            assert(ips@.skip(0) =~= ips@);
        }
        while i < n
            invariant
                n == ips@.len(),
                i <= n,
                t_distinct(rew@),
                t_distinct(ips@),
                sum_ips3(ips@).0 == total as int,
                ips_rewards(old(rew)@, ips@, total, share) == ips_rewards(
                    rew@,
                    ips@.skip(i as int),
                    total,
                    share,
                ),
                ips_rewards_fit(old(rew)@, ips@, total, share) <==> ips_rewards_fit(
                    rew@,
                    ips@.skip(i as int),
                    total,
                    share,
                ),
            decreases n - i,
        {
            proof {
                assert(ips@.skip(i as int)[0] == ips@[i as int]);
                assert(ips@.skip(i as int).skip(1) =~= ips@.skip(i as int + 1));
            }
            let (_, v) = ips.entry_at(i);
            if v.total_stake > 0 {
                proof {
                    crate::sums::lemma_sum_ips3_entry_le(ips@, i as int);
                    crate::sums::lemma_sum_ips3_nonneg(ips@);
                }
                let rwd = match reward_for(v.total_stake, total, share) {
                    Err(e) => {
                        return Err(Error::Overflow);
                    },
                    Ok(w) => w,
                };
                let cur = match rew.get((v.address, 0)) {
                    Some(c) => c,
                    None => 0,
                };
                let nv = match cur.checked_add(rwd) {
                    None => {
                        return Err(Error::Overflow);
                    },
                    Some(w) => w,
                };
                proof {
                    lemma_upsert_distinct(rew@, acct_key(v.address), nv);
                }
                rew.set((v.address, 0), nv);
            }
            i += 1;
        }
        proof {
            assert(ips@.skip(n as int) =~= Seq::<(Key, IpsInfo)>::empty());
        }
        Ok(())
    }

    /// Reward pass over the per-account triples: every staking account
    /// earns its share of the staker pool.  Rewards use the pre-promotion
    /// totals; the per-account increment is stated in general by
    /// `crate::laws::lemma_reward_provenance`.
    fn calculate_staker_rewards(
        rew: &mut Table<Balance>,
        stakers: &Table<(Balance, Balance, Balance)>,
        total: Balance,
        share: Balance,
    ) -> (r: Result<(), Error>)
        requires
            t_distinct(old(rew)@),
            t_distinct(stakers@),
            sum3(stakers@).0 == total as int,
        ensures
            t_distinct(final(rew)@),
            match r {
                Ok(u) => {
                    &&& staker_rewards_fit(old(rew)@, stakers@, total, share)
                    &&& final(rew)@ == staker_rewards(old(rew)@, stakers@, total, share)
                },
                Err(e) => e == Error::Overflow && !staker_rewards_fit(
                    old(rew)@,
                    stakers@,
                    total,
                    share,
                ),
            },
    {
        let n = stakers.len();
        let mut i: usize = 0;
        proof {
            assert(stakers@.skip(0) =~= stakers@);
        }
        while i < n
            invariant
                n == stakers@.len(),
                i <= n,
                t_distinct(rew@),
                t_distinct(stakers@),
                sum3(stakers@).0 == total as int,
                staker_rewards(old(rew)@, stakers@, total, share) == staker_rewards(
                    rew@,
                    stakers@.skip(i as int),
                    total,
                    share,
                ),
                staker_rewards_fit(old(rew)@, stakers@, total, share) <==> staker_rewards_fit(
                    rew@,
                    stakers@.skip(i as int),
                    total,
                    share,
                ),
            decreases n - i,
        {
            proof {
                assert(stakers@.skip(i as int)[0] == stakers@[i as int]);
                assert(stakers@.skip(i as int).skip(1) =~= stakers@.skip(i as int + 1));
                crate::sums::lemma_sum3_entry_le(stakers@, i as int);
                crate::sums::lemma_sum3_nonneg(stakers@);
            }
            let (k, t) = stakers.entry_at(i);
            let rwd = match reward_for(t.0, total, share) {
                Err(e) => {
                    return Err(Error::Overflow);
                },
                Ok(w) => w,
            };
            let cur = match rew.get(k) {
                Some(c) => c,
                None => 0,
            };
            let nv = match cur.checked_add(rwd) {
                None => {
                    return Err(Error::Overflow);
                },
                Some(w) => w,
            };
            proof {
                lemma_upsert_distinct(rew@, k, nv);
            }
            rew.set(k, nv);
            i += 1;
        }
        proof {
            assert(stakers@.skip(n as int) =~= Seq::<(Key, (Balance, Balance, Balance))>::empty());
        }
        Ok(())
    }

    /// Promotion of the per-account triples into a fresh table.  The
    /// boundary rule this implements is stated in general by
    /// `crate::laws::lemma_era_boundary_promotion`.
    fn promote_stakers(stakers: &Table<(Balance, Balance, Balance)>) -> (r: Result<
        Table<(Balance, Balance, Balance)>,
        Error,
    >)
        requires
            t_distinct(stakers@),
            forall|i: int| 0 <= i < stakers@.len() ==> triple_wf((#[trigger] stakers@[i]).1),
        ensures
            match r {
                Ok(t) => {
                    &&& forall|i: int|
                        0 <= i < stakers@.len() ==> (#[trigger] stakers@[i]).1.0 + stakers@[i].1.1
                            <= u128::MAX
                    &&& t@ == settle_stakers(stakers@)
                },
                Err(e) => e == Error::Overflow && !(forall|i: int|
                    0 <= i < stakers@.len() ==> (#[trigger] stakers@[i]).1.0 + stakers@[i].1.1
                        <= u128::MAX),
            },
    {
        let n = stakers.len();
        let mut out: Table<(Balance, Balance, Balance)> = Table::new();
        let mut i: usize = 0;
        proof {
            assert(stakers@.skip(0) =~= stakers@);
            assert(out@ + settle_stakers(stakers@) =~= settle_stakers(stakers@));
        }
        while i < n
            invariant
                n == stakers@.len(),
                i <= n,
                t_distinct(stakers@),
                forall|j: int| 0 <= j < stakers@.len() ==> triple_wf((#[trigger] stakers@[j]).1),
                forall|j: int|
                    0 <= j < i ==> (#[trigger] stakers@[j]).1.0 + stakers@[j].1.1 <= u128::MAX,
                out@ + settle_stakers(stakers@.skip(i as int)) =~= settle_stakers(stakers@),
            decreases n - i,
        {
            proof {
                assert(stakers@.skip(i as int)[0] == stakers@[i as int]);
                assert(stakers@.skip(i as int).skip(1) =~= stakers@.skip(i as int + 1));
            }
            let (k, t) = stakers.entry_at(i);
            let cap = match t.0.checked_add(t.1) {
                None => {
                    proof {
                        assert(stakers@[i as int].1.0 + stakers@[i as int].1.1 > u128::MAX);
                    }
                    return Err(Error::Overflow);
                },
                Some(c) => c,
            };
            let net = cap - t.2;
            if net != 0 {
                out.push(k, (net, 0, 0));
            }
            proof {
                assert(out@ + settle_stakers(stakers@.skip(i as int + 1)) =~= settle_stakers(
                    stakers@,
                ));
            }
            i += 1;
        }
        proof {
            assert(settle_stakers(stakers@.skip(n as int)) =~= Seq::<
                (Key, (Balance, Balance, Balance)),
            >::empty());
            assert(out@ =~= settle_stakers(stakers@));
        }
        Ok(out)
    }

    /// Promotion of the IP-set records into a fresh table.
    fn promote_ips(ips: &Table<IpsInfo>) -> (r: Result<Table<IpsInfo>, Error>)
        requires
            t_distinct(ips@),
            forall|i: int| 0 <= i < ips@.len() ==> crate::state::ips_rec_wf((#[trigger] ips@[i]).1),
        ensures
            match r {
                Ok(t) => {
                    &&& forall|i: int|
                        0 <= i < ips@.len() ==> (#[trigger] ips@[i]).1.total_stake
                            + ips@[i].1.next_era_new_stake <= u128::MAX
                    &&& t@ == settle_ips(ips@)
                },
                Err(e) => e == Error::Overflow && !(forall|i: int|
                    0 <= i < ips@.len() ==> (#[trigger] ips@[i]).1.total_stake
                        + ips@[i].1.next_era_new_stake <= u128::MAX),
            },
    {
        let n = ips.len();
        let mut out: Table<IpsInfo> = Table::new();
        let mut i: usize = 0;
        proof {
            assert(ips@.skip(0) =~= ips@);
            assert(out@ + settle_ips(ips@) =~= settle_ips(ips@));
        }
        while i < n
            invariant
                n == ips@.len(),
                i <= n,
                t_distinct(ips@),
                forall|j: int| 0 <= j < ips@.len() ==> crate::state::ips_rec_wf(
                    (#[trigger] ips@[j]).1,
                ),
                forall|j: int|
                    0 <= j < i ==> (#[trigger] ips@[j]).1.total_stake
                        + ips@[j].1.next_era_new_stake <= u128::MAX,
                out@ + settle_ips(ips@.skip(i as int)) =~= settle_ips(ips@),
            decreases n - i,
        {
            proof {
                assert(ips@.skip(i as int)[0] == ips@[i as int]);
                assert(ips@.skip(i as int).skip(1) =~= ips@.skip(i as int + 1));
            }
            let (k, v) = ips.entry_at(i);
            let cap = match v.total_stake.checked_add(v.next_era_new_stake) {
                None => {
                    proof {
                        assert(ips@[i as int].1.total_stake + ips@[i as int].1.next_era_new_stake
                            > u128::MAX);
                    }
                    return Err(Error::Overflow);
                },
                Some(c) => c,
            };
            let promoted = IpsStakeInfo {
                total_stake: cap - v.next_era_new_unstake,
                next_era_new_stake: 0,
                next_era_new_unstake: 0,
                ..v
            };
            out.push(k, promoted);
            proof {
                assert(out@ + settle_ips(ips@.skip(i as int + 1)) =~= settle_ips(ips@));
            }
            i += 1;
        }
        proof {
            assert(settle_ips(ips@.skip(n as int)) =~= Seq::<(Key, IpsInfo)>::empty());
            assert(out@ =~= settle_ips(ips@));
        }
        Ok(out)
    }

    /// Promotion of the per-pair records into a fresh table, removing the
    /// records whose promoted balance is zero, so a record exists only
    /// while it carries information (see
    /// `crate::laws::lemma_no_ghost_stake`).
    fn promote_pairs(pairs: &Table<EraStake>, era: Era) -> (r: Result<
        Table<EraStake>,
        Error,
    >)
        requires
            t_distinct(pairs@),
            forall|i: int| 0 <= i < pairs@.len() ==> pair_wf((#[trigger] pairs@[i]).1),
        ensures
            match r {
                Ok(t) => {
                    &&& forall|i: int|
                        0 <= i < pairs@.len() ==> act_bal((#[trigger] pairs@[i]).1) + pend_p(
                            pairs@[i].1,
                        ) <= u128::MAX
                    &&& t@ == settle_pairs(pairs@, era)
                },
                Err(e) => e == Error::Overflow && !(forall|i: int|
                    0 <= i < pairs@.len() ==> act_bal((#[trigger] pairs@[i]).1) + pend_p(
                        pairs@[i].1,
                    ) <= u128::MAX),
            },
    {
        let n = pairs.len();
        let mut out: Table<EraStake> = Table::new();
        let mut i: usize = 0;
        proof {
            assert(pairs@.skip(0) =~= pairs@);
            assert(out@ + settle_pairs(pairs@, era) =~= settle_pairs(pairs@, era));
        }
        while i < n
            invariant
                n == pairs@.len(),
                i <= n,
                t_distinct(pairs@),
                forall|j: int| 0 <= j < pairs@.len() ==> pair_wf((#[trigger] pairs@[j]).1),
                forall|j: int|
                    0 <= j < i ==> act_bal((#[trigger] pairs@[j]).1) + pend_p(pairs@[j].1)
                        <= u128::MAX,
                out@ + settle_pairs(pairs@.skip(i as int), era) =~= settle_pairs(pairs@, era),
            decreases n - i,
        {
            proof {
                assert(pairs@.skip(i as int)[0] == pairs@[i as int]);
                assert(pairs@.skip(i as int).skip(1) =~= pairs@.skip(i as int + 1));
            }
            let (k, e) = pairs.entry_at(i);
            if e.1.is_none() && e.2.is_none() {
                out.push(k, e);
            } else {
                let act: Balance = match e.0 {
                    Some(t) => t.1,
                    None => 0,
                };
                let p: Balance = match e.1 {
                    Some(v) => v,
                    None => 0,
                };
                let m: Balance = match e.2 {
                    Some(v) => v,
                    None => 0,
                };
                let cap = match act.checked_add(p) {
                    None => {
                        proof {
                            assert(act_bal(pairs@[i as int].1) + pend_p(pairs@[i as int].1)
                                > u128::MAX);
                        }
                        return Err(Error::Overflow);
                    },
                    Some(c) => c,
                };
                let bal = cap - m;
                if bal != 0 {
                    out.push(k, (Some((era, bal)), None, None));
                }
            }
            proof {
                assert(out@ + settle_pairs(pairs@.skip(i as int + 1), era) =~= settle_pairs(
                    pairs@,
                    era,
                ));
            }
            i += 1;
        }
        proof {
            assert(settle_pairs(pairs@.skip(n as int), era) =~= Seq::<(Key, EraStake)>::empty());
            assert(out@ =~= settle_pairs(pairs@, era));
        }
        Ok(out)
    }

    /// Release of the staking locks whose unbonding entries mature at the
    /// given era, and the queue that remains.  The lock identity of the
    /// well-formed ledger guarantees every matured amount is covered by
    /// the account's lock.
    fn release_matured(
        locks: &Table<Balance>,
        queue: &Vec<(Era, AccountId, Balance)>,
        era: Era,
        Ghost(l0): Ghost<LedgerV>,
    ) -> (r: (Table<Balance>, Vec<(Era, AccountId, Balance)>))
        requires
            wf(l0),
            l0.locks == locks@,
            l0.queue == queue@,
        ensures
            r.0@ == release_locks(locks@, queue@, era),
            r.1@ == queue_after(queue@, era),
            t_distinct(r.0@),
            forall|j: int| 0 <= j < r.0@.len() ==> (#[trigger] r.0@[j]).1 > 0,
            forall|a: AccountId|
                #[trigger] val_or0(r.0@, acct_key(a)) == staker_net(l0, a) + unmat_sum(
                    queue@,
                    a,
                    era,
                ),
    {
        let n = queue.len();
        let mut lk = locks.duplicate();
        let mut nq: Vec<(Era, AccountId, Balance)> = Vec::new();
        let mut i: usize = 0;
        proof {
            assert(queue@.skip(0) =~= queue@);
            assert(queue@.take(0) =~= Seq::<(Era, AccountId, Balance)>::empty());
            assert(nq@ + queue_after(queue@, era) =~= queue_after(queue@, era));
            assert forall|a: AccountId| #[trigger] val_or0(lk@, acct_key(a)) == staker_net(l0, a)
                + unmat_sum(queue@.take(0), a, era) + queue_sum(queue@.skip(0), a) by {
                assert(locked_of(l0, a) == staker_net(l0, a) + queue_sum(l0.queue, a));
            }
        }
        while i < n
            invariant
                n == queue@.len(),
                i <= n,
                wf(l0),
                l0.locks == locks@,
                l0.queue == queue@,
                t_distinct(lk@),
                forall|j: int| 0 <= j < lk@.len() ==> (#[trigger] lk@[j]).1 > 0,
                release_locks(locks@, queue@, era) == release_locks(
                    lk@,
                    queue@.skip(i as int),
                    era,
                ),
                nq@ + queue_after(queue@.skip(i as int), era) =~= queue_after(queue@, era),
                forall|a: AccountId|
                    #[trigger] val_or0(lk@, acct_key(a)) == staker_net(l0, a) + unmat_sum(
                        queue@.take(i as int),
                        a,
                        era,
                    ) + queue_sum(queue@.skip(i as int), a),
            decreases n - i,
        {
            proof {
                assert(queue@.skip(i as int)[0] == queue@[i as int]);
                assert(queue@.skip(i as int).skip(1) =~= queue@.skip(i as int + 1));
                assert(queue@.take(i as int + 1) =~= queue@.take(i as int).push(
                    queue@[i as int],
                ));
            }
            let e = queue[i];
            if e.0 == era {
                let k = (e.1, 0u32);
                let cur: Balance = match lk.get(k) {
                    Some(c) => c,
                    None => 0,
                };
                proof {
                    // the lock covers the matured amount
                    lemma_queue_sum_nonneg(queue@.skip(i as int + 1), e.1);
                    lemma_unmat_sum_nonneg(queue@.take(i as int), e.1, era);
                    if t_has(l0.stakers, acct_key(e.1)) {
                        lemma_get_index(l0.stakers, acct_key(e.1));
                    }
                    assert(staker_net(l0, e.1) >= 0);
                    assert(cur >= e.2);
                }
                let nv = cur - e.2;
                let ghost lk_old = lk@;
                if nv == 0 {
                    lk.unset(k);
                    proof {
                        lemma_removed_distinct(lk_old, k);
                        lemma_removed_cases(lk_old, k);
                    }
                } else {
                    proof {
                        lemma_upsert_distinct(lk_old, k, nv);
                        lemma_upsert_cases(lk_old, k, nv);
                    }
                    lk.set(k, nv);
                }
                proof {
                    assert forall|a: AccountId| #[trigger] val_or0(lk@, acct_key(a)) == staker_net(
                        l0,
                        a,
                    ) + unmat_sum(queue@.take(i as int + 1), a, era) + queue_sum(
                        queue@.skip(i as int + 1),
                        a,
                    ) by {
                        lemma_unmat_sum_push(queue@.take(i as int), queue@[i as int], a, era);
                        if nv == 0 {
                            lemma_get_removed(lk_old, k, acct_key(a));
                        } else {
                            lemma_get_upsert(lk_old, k, nv, acct_key(a));
                        }
                        assert(val_or0(lk_old, acct_key(a)) == staker_net(l0, a) + unmat_sum(
                            queue@.take(i as int),
                            a,
                            era,
                        ) + queue_sum(queue@.skip(i as int), a));
                    }
                }
            } else {
                nq.push(e);
                proof {
                    assert(nq@ + queue_after(queue@.skip(i as int + 1), era) =~= queue_after(
                        queue@,
                        era,
                    ));
                    assert forall|a: AccountId| #[trigger] val_or0(lk@, acct_key(a)) == staker_net(
                        l0,
                        a,
                    ) + unmat_sum(queue@.take(i as int + 1), a, era) + queue_sum(
                        queue@.skip(i as int + 1),
                        a,
                    ) by {
                        lemma_unmat_sum_push(queue@.take(i as int), queue@[i as int], a, era);
                        assert(val_or0(lk@, acct_key(a)) == staker_net(l0, a) + unmat_sum(
                            queue@.take(i as int),
                            a,
                            era,
                        ) + queue_sum(queue@.skip(i as int), a));
                    }
                }
            }
            i += 1;
        }
        proof {
            assert(queue@.skip(n as int) =~= Seq::<(Era, AccountId, Balance)>::empty());
            assert(queue@.take(n as int) =~= queue@);
            assert(queue_after(queue@.skip(n as int), era) =~= Seq::<
                (Era, AccountId, Balance),
            >::empty());
            assert(nq@ =~= queue_after(queue@, era));
            assert forall|a: AccountId| #[trigger] val_or0(lk@, acct_key(a)) == staker_net(l0, a)
                + unmat_sum(queue@, a, era) by {
                assert(val_or0(lk@, acct_key(a)) == staker_net(l0, a) + unmat_sum(
                    queue@.take(n as int),
                    a,
                    era,
                ) + queue_sum(queue@.skip(n as int), a));
            }
        }
        (lk, nq)
    }

    /// Era-boundary settlement: advance the era, mint the per-era amount
    /// into the pot, compute the completed era's rewards from the totals
    /// that were in effect during it, promote every deferred delta, and
    /// release the matured unbonding entries.  On failure the whole block
    /// is rejected and the ledger is untouched.
    fn settle(&mut self, n: BlockNumber) -> (r: Result<Event, Error>)
        requires
            wf(old(self)@),
        ensures
            wf(final(self)@),
            match r {
                Ok(ev) => {
                    &&& old(self)@.current_era < u32::MAX
                    &&& settle_fits(old(self)@)
                    &&& final(self)@ == settle_tr(old(self)@, n)
                    &&& ev == Event::InflationEvent {
                        era: old(self)@.current_era,
                        inflation_pot: old(self)@.cfg.pot_account,
                        inflation_amount: old(self)@.inflation_per_era,
                    }
                },
                Err(e) => {
                    &&& final(self)@ == old(self)@
                    &&& if old(self)@.current_era == u32::MAX {
                        e == Error::NoAvailableEra
                    } else {
                        e == Error::Overflow && !settle_fits(old(self)@)
                    }
                },
            },
    {
        let prev_era = self.current_era;
        let new_era = match prev_era.checked_add(1) {
            None => {
                return Err(Error::NoAvailableEra);
            },
            Some(v) => v,
        };
        let per = self.inflation_per_era;
        let pot = self.cfg.pot_account;
        let pot_free = self.free_balance(pot);
        let pot_new = match pot_free.checked_add(per) {
            None => {
                return Err(Error::Overflow);
            },
            Some(v) => v,
        };
        let iss_new = match self.total_issuance.checked_add(per) {
            None => {
                return Err(Error::Overflow);
            },
            Some(v) => v,
        };
        let ishare = perbill_mul(self.cfg.ips_inflation_percentage as u128, per);
        let sshare = perbill_mul(self.cfg.staker_inflation_percentage as u128, per);
        let a_tot = self.total_staked.0;
        let mut rew = self.rewards_claimable.duplicate();
        match Self::calculate_ips_rewards(&mut rew, &self.registered_ips, a_tot, ishare) {
            Err(e) => {
                return Err(e);
            },
            Ok(u) => u,
        };
        match Self::calculate_staker_rewards(&mut rew, &self.ips_stakers, a_tot, sshare) {
            Err(e) => {
                return Err(e);
            },
            Ok(u) => u,
        };
        let new_ips = match Self::promote_ips(&self.registered_ips) {
            Err(e) => {
                return Err(e);
            },
            Ok(t) => t,
        };
        let new_stakers = match Self::promote_stakers(&self.ips_stakers) {
            Err(e) => {
                return Err(e);
            },
            Ok(t) => t,
        };
        let new_pairs = match Self::promote_pairs(&self.stake_by_era, new_era) {
            Err(e) => {
                return Err(e);
            },
            Ok(t) => t,
        };
        let cap = match self.total_staked.0.checked_add(self.total_staked.1) {
            None => {
                return Err(Error::Overflow);
            },
            Some(c) => c,
        };
        let tot_active = cap - self.total_staked.2;
        let (new_locks, new_queue) = Self::release_matured(
            &self.staking_locks,
            &self.unstake_queue,
            new_era,
            Ghost(self@),
        );
        self.current_era = new_era;
        self.last_payout_block = n;
        self.free_balances.set((pot, 0), pot_new);
        self.total_issuance = iss_new;
        self.rewards_claimable = rew;
        self.registered_ips = new_ips;
        self.ips_stakers = new_stakers;
        self.stake_by_era = new_pairs;
        self.total_staked = (tot_active, 0, 0);
        self.staking_locks = new_locks;
        self.unstake_queue = new_queue;
        proof {
            let l0 = old(self)@;
            let l1 = final(self)@;
            assert(settle_fits(l0));
            assert(l1 =~= settle_tr(l0, n));
            lemma_upsert_distinct(l0.free, acct_key(pot), pot_new);
            lemma_ips_rewards_distinct(l0.rewards, l0.ips, a_tot, ishare);
            lemma_staker_rewards_distinct(
                ips_rewards(l0.rewards, l0.ips, a_tot, ishare),
                l0.stakers,
                a_tot,
                sshare,
            );
            lemma_settle_stakers_props(l0.stakers);
            lemma_settle_ips_props(l0.ips);
            lemma_settle_pairs_props(l0.pairs, new_era);
            assert forall|j: int| 0 <= j < l1.ips.len() implies crate::state::ips_rec_wf(
                (#[trigger] l1.ips[j]).1,
            ) by {
                assert(l1.ips[j] == (l0.ips[j].0, settle_ips_rec(l0.ips[j].1)));
            }
            assert forall|a: AccountId| #[trigger] locked_of(l1, a) == staker_net(l1, a)
                + queue_sum(l1.queue, a) by {
                lemma_queue_after_sum(l0.queue, a, new_era);
                assert(val_or0(l1.locks, acct_key(a)) == staker_net(l0, a) + unmat_sum(
                    l0.queue,
                    a,
                    new_era,
                ));
                assert(t_get(l1.stakers, acct_key(a)) == (match t_get(l0.stakers, acct_key(a)) {
                    Some(t) => if t.0 + t.1 - t.2 == 0 {
                        None
                    } else {
                        Some(settle3(t))
                    },
                    None => None::<(Balance, Balance, Balance)>,
                }));
                if t_has(l0.stakers, acct_key(a)) {
                    lemma_get_index(l0.stakers, acct_key(a));
                }
                assert(staker_net(l1, a) == staker_net(l0, a));
            }
            // the pot keeps covering every claimable reward: the era's
            // payout never exceeds the era's mint
            lemma_settlement_payout_covered(l0);
            lemma_get_upsert(l0.free, acct_key(pot), pot_new, acct_key(pot));
            assert(wf(l1));
        }
        Ok(Event::InflationEvent {
            era: prev_era,
            inflation_pot: pot,
            inflation_amount: per,
        })
    }

    /// The pre-block hook, run before any dispatched action of block `n`:
    /// era settlement when `n` is an era boundary, then the yearly
    /// recalculation of the per-era inflation when it is due, reading the
    /// total issuance the settlement just left.
    pub fn on_initialize(&mut self, n: BlockNumber) -> (r: Result<Vec<Event>, Error>)
        requires
            wf(old(self)@),
            n > old(self)@.current_block,
        ensures
            wf(final(self)@),
            match r {
                Ok(evs) => {
                    &&& hook_err(old(self)@, n) is None
                    &&& final(self)@ == hook_tr(old(self)@, n)
                    &&& evs@ == hook_events(old(self)@, n)
                },
                Err(e) => {
                    &&& hook_err(old(self)@, n) == Some(e)
                    &&& final(self)@ == old(self)@
                },
            },
    {
        let mut events: Vec<Event> = Vec::new();
        if n % self.cfg.blocks_per_era == 0 {
            match self.settle(n) {
                Err(e) => {
                    return Err(e);
                },
                Ok(ev) => events.push(ev),
            }
        }
        if n - self.last_inflation_recalc_block >= self.cfg.blocks_per_year {
            let one_year = perbill_mul(
                self.cfg.ip_staking_inflation_rate as u128,
                self.total_issuance,
            );
            let one_day = one_year / (self.cfg.blocks_per_year as u128);
            self.inflation_per_era = one_day;
            self.last_inflation_recalc_block = n;
            events.push(Event::NewDailyInflationRate { amount: one_day });
        }
        self.current_block = n;
        proof {
            let l0 = old(self)@;
            let l1 = final(self)@;
            assert(l1 =~= hook_tr(l0, n));
            assert(events@ =~= hook_events(l0, n));
            assert forall|a: AccountId| #[trigger] locked_of(l1, a) == staker_net(l1, a)
                + queue_sum(l1.queue, a) by {
                let lmid = if is_boundary(l0, n) {
                    settle_tr(l0, n)
                } else {
                    l0
                };
                assert(locked_of(lmid, a) == staker_net(lmid, a) + queue_sum(lmid.queue, a));
            }
            assert(wf(l1));
        }
        Ok(events)
    }
}

} // verus!
