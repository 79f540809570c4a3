//! The engine's universal laws.
//!
//! Each proof function here states one law of the staking engine over the
//! abstract ledger and the transition functions that the executable
//! handlers are proved to implement.

use vstd::prelude::*;
use crate::math::reward_of;
use crate::state::{
    acct_key, act_bal, ips_key, locked_of, pair_key, pair_wf, pend_m, pend_p, queue_sum,
    staker_net, triple_or0, val_or0, wf, LedgerV,
};
use crate::sums::{sum3, sum_ips3, triple_int};
use crate::table::{
    lemma_get_index, lemma_get_upsert, lemma_upsert_cases, lemma_upsert_distinct,
    lemma_upsert_upsert, t_get, t_has, t_upsert,
};
use crate::settlement::{
    lemma_ips_rewards_untouched, lemma_settle_ips_props, lemma_settle_pairs_props,
    lemma_settle_stakers_props, lemma_staker_rewards_get, lemma_staker_rewards_untouched,
    settle3, settle_fits, settle_ips_rec, settle_pair, settle_tr, share_of,
};
use crate::transitions::{
    ips_or0, stake_err, stake_pair, stake_tr, unstake_all_amt, unstake_all_err, unstake_tr,
};
use crate::types::{AccountId, Balance, BlockNumber, EraStake, IpsId, IpsInfo};

verus! {

/// Balance identity: on every well-formed ledger — and well-formedness is
/// preserved by every handler and by the pre-block hook — the system
/// stake triple equals the pointwise sum of all per-account triples, and
/// also the pointwise sum of the stake fields of all IP-set records.
pub proof fn lemma_balance_identity(l: LedgerV)
    requires
        wf(l),
    ensures
        sum3(l.stakers) == triple_int(l.total_staked),
        sum_ips3(l.ips) == triple_int(l.total_staked),
{
}

/// Lock identity: on every well-formed ledger, each account's staking
/// lock equals its active stake plus its pending stake, minus its pending
/// unstake, plus its not-yet-matured unbonding entries.  Settlement moves
/// a promoted unstake from the triple into the queue term and releases it
/// only when its entry matures.
pub proof fn lemma_lock_monotonicity(l: LedgerV, a: AccountId)
    requires
        wf(l),
    ensures
        locked_of(l, a) == triple_or0(l.stakers, acct_key(a)).0 + triple_or0(
            l.stakers,
            acct_key(a),
        ).1 - triple_or0(l.stakers, acct_key(a)).2 + queue_sum(l.queue, a),
{
    assert(locked_of(l, a) == staker_net(l, a) + queue_sum(l.queue, a));
}

/// No ghost stake: a stored per-pair record always carries information —
/// a settled component, a pending stake or a pending unstake — and a pair
/// with none of the three has no record at all.
pub proof fn lemma_no_ghost_stake(l: LedgerV, a: AccountId, ips_id: IpsId)
    requires
        wf(l),
    ensures
        match t_get(l.pairs, pair_key(a, ips_id)) {
            Some(e) => !(e.0 is None && e.1 is None && e.2 is None),
            None => true,
        },
{
    if t_has(l.pairs, pair_key(a, ips_id)) {
        lemma_get_index(l.pairs, pair_key(a, ips_id));
    }
}

/// Era-boundary promotion: settlement folds every pending delta into its
/// active total and clears it, at every level — the system triple, each
/// per-account triple (records promoted to zero are removed), each IP-set
/// record, and each per-pair record with pending deltas (removed when the
/// promoted balance is zero; records without pending deltas keep their
/// settled component).
pub proof fn lemma_era_boundary_promotion(l: LedgerV, n: BlockNumber)
    requires
        wf(l),
        settle_fits(l),
        l.current_era < u32::MAX,
    ensures
        settle_tr(l, n).total_staked.0 as int == l.total_staked.0 + l.total_staked.1
            - l.total_staked.2,
        settle_tr(l, n).total_staked.1 == 0 && settle_tr(l, n).total_staked.2 == 0,
        forall|a: AccountId|
            #![trigger triple_or0(settle_tr(l, n).stakers, acct_key(a))]
            {
                let t0 = triple_or0(l.stakers, acct_key(a));
                let t1 = triple_or0(settle_tr(l, n).stakers, acct_key(a));
                t1.0 as int == t0.0 + t0.1 - t0.2 && t1.1 == 0 && t1.2 == 0
            },
        forall|i: IpsId|
            #![trigger t_get(settle_tr(l, n).ips, ips_key(i))]
            match t_get(l.ips, ips_key(i)) {
                Some(v) => {
                    &&& t_get(settle_tr(l, n).ips, ips_key(i)) == Some(settle_ips_rec(v))
                    &&& settle_ips_rec(v).total_stake as int == v.total_stake
                        + v.next_era_new_stake - v.next_era_new_unstake
                    &&& settle_ips_rec(v).next_era_new_stake == 0
                    &&& settle_ips_rec(v).next_era_new_unstake == 0
                },
                None => t_get(settle_tr(l, n).ips, ips_key(i)) is None,
            },
        forall|a: AccountId, i: IpsId|
            #![trigger t_get(settle_tr(l, n).pairs, pair_key(a, i))]
            match t_get(l.pairs, pair_key(a, i)) {
                Some(e) => if e.1 is Some || e.2 is Some {
                    if act_bal(e) + pend_p(e) - pend_m(e) == 0 {
                        t_get(settle_tr(l, n).pairs, pair_key(a, i)) is None
                    } else {
                        t_get(settle_tr(l, n).pairs, pair_key(a, i)) == Some(
                            (
                                Some(
                                    (
                                        (l.current_era + 1) as u32,
                                        (act_bal(e) + pend_p(e) - pend_m(e)) as u128,
                                    ),
                                ),
                                None::<Balance>,
                                None::<Balance>,
                            ),
                        )
                    }
                } else {
                    t_get(settle_tr(l, n).pairs, pair_key(a, i)) == Some(e)
                },
                None => t_get(settle_tr(l, n).pairs, pair_key(a, i)) is None,
            },
{
    let p = settle_tr(l, n);
    let new_era = (l.current_era + 1) as u32;
    lemma_settle_stakers_props(l.stakers);
    lemma_settle_ips_props(l.ips);
    lemma_settle_pairs_props(l.pairs, new_era);
    assert forall|a: AccountId|
        {
            let t0 = triple_or0(l.stakers, acct_key(a));
            let t1 = #[trigger] triple_or0(p.stakers, acct_key(a));
            t1.0 as int == t0.0 + t0.1 - t0.2 && t1.1 == 0 && t1.2 == 0
        } by {
        assert(t_get(p.stakers, acct_key(a)) == (match t_get(l.stakers, acct_key(a)) {
            Some(t) => if t.0 + t.1 - t.2 == 0 {
                None
            } else {
                Some(settle3(t))
            },
            None => None::<(Balance, Balance, Balance)>,
        }));
        if t_has(l.stakers, acct_key(a)) {
            lemma_get_index(l.stakers, acct_key(a));
        }
    }
    assert forall|i: IpsId|
        match t_get(l.ips, ips_key(i)) {
            Some(v) => {
                &&& #[trigger] t_get(p.ips, ips_key(i)) == Some(settle_ips_rec(v))
                &&& settle_ips_rec(v).total_stake as int == v.total_stake + v.next_era_new_stake
                    - v.next_era_new_unstake
                &&& settle_ips_rec(v).next_era_new_stake == 0
                &&& settle_ips_rec(v).next_era_new_unstake == 0
            },
            None => t_get(p.ips, ips_key(i)) is None,
        } by {
        assert(t_get(p.ips, ips_key(i)) == (match t_get(l.ips, ips_key(i)) {
            Some(v) => Some(settle_ips_rec(v)),
            None => None::<IpsInfo>,
        }));
        if t_has(l.ips, ips_key(i)) {
            lemma_get_index(l.ips, ips_key(i));
        }
    }
    assert forall|a: AccountId, i: IpsId|
        #![trigger t_get(p.pairs, pair_key(a, i))]
        match t_get(l.pairs, pair_key(a, i)) {
            Some(e) => if e.1 is Some || e.2 is Some {
                if act_bal(e) + pend_p(e) - pend_m(e) == 0 {
                    t_get(p.pairs, pair_key(a, i)) is None
                } else {
                    t_get(p.pairs, pair_key(a, i)) == Some(
                        (
                            Some((new_era, (act_bal(e) + pend_p(e) - pend_m(e)) as u128)),
                            None::<Balance>,
                            None::<Balance>,
                        ),
                    )
                }
            } else {
                t_get(p.pairs, pair_key(a, i)) == Some(e)
            },
            None => t_get(p.pairs, pair_key(a, i)) is None,
        } by {
        assert(t_get(p.pairs, pair_key(a, i)) == (match t_get(l.pairs, pair_key(a, i)) {
            Some(e) => if e.1 is None && e.2 is None {
                Some(e)
            } else if act_bal(e) + pend_p(e) - pend_m(e) == 0 {
                None
            } else {
                Some(settle_pair(e, new_era))
            },
            None => None::<EraStake>,
        }));
    }
}

/// Reward provenance, staking account: at settlement the claimable
/// rewards of an account that holds a per-account triple and is no IP
/// set's derived address grow by exactly its share of the staker pool,
/// computed from the active totals in effect during the settled era.
pub proof fn lemma_reward_provenance(l: LedgerV, n: BlockNumber, a: AccountId)
    requires
        wf(l),
        settle_fits(l),
        l.current_era < u32::MAX,
        t_has(l.stakers, acct_key(a)),
        forall|i: int| 0 <= i < l.ips.len() ==> (#[trigger] l.ips[i]).1.address != a,
    ensures
        val_or0(settle_tr(l, n).rewards, acct_key(a)) == val_or0(l.rewards, acct_key(a))
            + reward_of(
            t_get(l.stakers, acct_key(a)).unwrap().0 as int,
            l.total_staked.0 as int,
            share_of(l.cfg.staker_inflation_percentage, l.inflation_per_era) as int,
        ),
{
    let ishare = share_of(l.cfg.ips_inflation_percentage, l.inflation_per_era);
    let sshare = share_of(l.cfg.staker_inflation_percentage, l.inflation_per_era);
    let a_tot = l.total_staked.0;
    let mid = crate::settlement::ips_rewards(l.rewards, l.ips, a_tot, ishare);
    assert forall|i: int| 0 <= i < l.ips.len() implies acct_key((#[trigger] l.ips[i]).1.address)
        != acct_key(a) by {
        assert(l.ips[i].1.address != a);
    }
    lemma_ips_rewards_untouched(l.rewards, l.ips, a_tot, ishare, acct_key(a));
    lemma_staker_rewards_get(mid, l.stakers, a_tot, sshare, acct_key(a));
}

/// Reward provenance, IP-set address: at settlement the claimable
/// rewards of the derived multisig address of an actively staked IP set
/// — an address that no other IP-set record shares and that holds no
/// per-account triple of its own — grow by exactly that IP set's share
/// of the IP-set pool, computed from the active totals in effect during
/// the settled era.
pub proof fn lemma_ips_reward_provenance(l: LedgerV, n: BlockNumber, j: int)
    requires
        wf(l),
        settle_fits(l),
        l.current_era < u32::MAX,
        0 <= j < l.ips.len(),
        l.ips[j].1.total_stake > 0,
        forall|i: int|
            0 <= i < l.ips.len() && i != j ==> (#[trigger] l.ips[i]).1.address
                != l.ips[j].1.address,
        !t_has(l.stakers, acct_key(l.ips[j].1.address)),
    ensures
        val_or0(settle_tr(l, n).rewards, acct_key(l.ips[j].1.address)) == val_or0(
            l.rewards,
            acct_key(l.ips[j].1.address),
        ) + reward_of(
            l.ips[j].1.total_stake as int,
            l.total_staked.0 as int,
            share_of(l.cfg.ips_inflation_percentage, l.inflation_per_era) as int,
        ),
{
    let a = l.ips[j].1.address;
    let ishare = share_of(l.cfg.ips_inflation_percentage, l.inflation_per_era);
    let sshare = share_of(l.cfg.staker_inflation_percentage, l.inflation_per_era);
    let a_tot = l.total_staked.0;
    let mid = crate::settlement::ips_rewards(l.rewards, l.ips, a_tot, ishare);
    crate::settlement::lemma_ips_rewards_get(l.rewards, l.ips, a_tot, ishare, j);
    assert forall|i: int| 0 <= i < l.stakers.len() implies (#[trigger] l.stakers[i]).0
        != acct_key(a) by {
        crate::table::lemma_distinct_get_at(l.stakers, i);
    }
    lemma_staker_rewards_untouched(mid, l.stakers, a_tot, sshare, acct_key(a));
}

/// Reward provenance, bystander: an account with no per-account triple
/// that is no IP set's derived address sees its claimable rewards
/// untouched by settlement.
pub proof fn lemma_no_stake_no_reward(l: LedgerV, n: BlockNumber, a: AccountId)
    requires
        wf(l),
        settle_fits(l),
        l.current_era < u32::MAX,
        !t_has(l.stakers, acct_key(a)),
        forall|i: int| 0 <= i < l.ips.len() ==> (#[trigger] l.ips[i]).1.address != a,
    ensures
        val_or0(settle_tr(l, n).rewards, acct_key(a)) == val_or0(l.rewards, acct_key(a)),
{
    let ishare = share_of(l.cfg.ips_inflation_percentage, l.inflation_per_era);
    let sshare = share_of(l.cfg.staker_inflation_percentage, l.inflation_per_era);
    let a_tot = l.total_staked.0;
    let mid = crate::settlement::ips_rewards(l.rewards, l.ips, a_tot, ishare);
    assert forall|i: int| 0 <= i < l.ips.len() implies acct_key((#[trigger] l.ips[i]).1.address)
        != acct_key(a) by {
        assert(l.ips[i].1.address != a);
    }
    lemma_ips_rewards_untouched(l.rewards, l.ips, a_tot, ishare, acct_key(a));
    assert forall|i: int| 0 <= i < l.stakers.len() implies (#[trigger] l.stakers[i]).0
        != acct_key(a) by {
        crate::table::lemma_distinct_get_at(l.stakers, i);
    }
    lemma_staker_rewards_untouched(mid, l.stakers, a_tot, sshare, acct_key(a));
}

/// Round trip: a first stake on a pair, one era-boundary settlement, an
/// `unstake_all`, and the settlement of the era that includes it leave
/// the per-pair record absent.
pub proof fn lemma_stake_unstake_all_round_trip(
    l: LedgerV,
    who: AccountId,
    ips_id: IpsId,
    x: Balance,
    n1: BlockNumber,
    n2: BlockNumber,
)
    requires
        wf(l),
        t_get(l.pairs, pair_key(who, ips_id)) is None,
        stake_err(l, who, ips_id, x) is None,
        settle_fits(stake_tr(l, who, ips_id, x)),
        l.current_era < u32::MAX,
        unstake_all_err(
            settle_tr(stake_tr(l, who, ips_id, x), n1),
            who,
            ips_id,
        ) is None,
        settle_fits(
            unstake_tr(
                settle_tr(stake_tr(l, who, ips_id, x), n1),
                who,
                ips_id,
                unstake_all_amt(settle_tr(stake_tr(l, who, ips_id, x), n1), who, ips_id),
            ),
        ),
        settle_tr(stake_tr(l, who, ips_id, x), n1).current_era < u32::MAX,
    ensures
        t_get(
            settle_tr(
                unstake_tr(
                    settle_tr(stake_tr(l, who, ips_id, x), n1),
                    who,
                    ips_id,
                    unstake_all_amt(settle_tr(stake_tr(l, who, ips_id, x), n1), who, ips_id),
                ),
                n2,
            ).pairs,
            pair_key(who, ips_id),
        ) is None,
{
    let k = pair_key(who, ips_id);
    let l1 = stake_tr(l, who, ips_id, x);
    let e1: EraStake = (None, Some(x), None);
    assert(l1.pairs == t_upsert(l.pairs, k, e1));
    lemma_get_upsert(l.pairs, k, e1, k);
    // the stake respects the floor, so the record survives promotion
    assert(x >= l.cfg.min_staking_amount >= 1);
    lemma_upsert_distinct(l.pairs, k, e1);
    lemma_upsert_cases(l.pairs, k, e1);
    assert forall|j: int| 0 <= j < l1.pairs.len() implies pair_wf(
        (#[trigger] l1.pairs[j]).1,
    ) by {
        assert(pair_wf(e1));
    }
    let era1 = (l.current_era + 1) as u32;
    lemma_settle_pairs_props(l1.pairs, era1);
    let l2 = settle_tr(l1, n1);
    let e2: EraStake = (Some((era1, x)), None, None);
    assert(t_get(l2.pairs, k) == Some(e2));
    assert(unstake_all_amt(l2, who, ips_id) == x);
    let l3 = unstake_tr(l2, who, ips_id, x);
    let e3: EraStake = (Some((era1, x)), None, Some(x));
    assert(l3.pairs == t_upsert(l2.pairs, k, e3));
    lemma_get_upsert(l2.pairs, k, e3, k);
    lemma_upsert_distinct(l2.pairs, k, e3);
    lemma_upsert_cases(l2.pairs, k, e3);
    assert forall|j: int| 0 <= j < l3.pairs.len() implies pair_wf(
        (#[trigger] l3.pairs[j]).1,
    ) by {
        assert(pair_wf(e3));
    }
    let era2 = (l2.current_era + 1) as u32;
    lemma_settle_pairs_props(l3.pairs, era2);
    assert(act_bal(e3) + pend_p(e3) - pend_m(e3) == 0);
}

/// Additivity: two stakes by one account on one IP set within one era
/// compose by addition — whenever `stake(a)` then `stake(b)` are both
/// accepted, a single `stake(a + b)` is accepted on the same starting
/// ledger and yields the identical ledger.  The balance check counts the
/// lock the account already holds, which is what makes the two runs
/// interchangeable.
pub proof fn lemma_stake_additive(
    l: LedgerV,
    who: AccountId,
    ips_id: IpsId,
    a: Balance,
    b: Balance,
)
    requires
        wf(l),
        stake_err(l, who, ips_id, a) is None,
        stake_err(stake_tr(l, who, ips_id, a), who, ips_id, b) is None,
    ensures
        a + b <= u128::MAX,
        stake_err(l, who, ips_id, (a + b) as u128) is None,
        stake_tr(stake_tr(l, who, ips_id, a), who, ips_id, b) == stake_tr(
            l,
            who,
            ips_id,
            (a + b) as u128,
        ),
{
    let k = pair_key(who, ips_id);
    let ak = acct_key(who);
    let ik = ips_key(ips_id);
    let l1 = stake_tr(l, who, ips_id, a);
    assert(crate::transitions::stake_fits(l, who, ips_id, a));
    assert(crate::transitions::stake_fits(l1, who, ips_id, b));
    let e0 = t_get(l.pairs, k);
    let v1 = stake_pair(e0, a);
    lemma_get_upsert(l.pairs, k, v1, k);
    assert(t_get(l1.pairs, k) == Some(v1));
    assert(pend_p(v1) == pend_p(match e0 {
        Some(e) => e,
        None => (None, None, None),
    }) + a || e0 is None);
    // the accepted second call caps the combined lock below the free
    // balance, which bounds the sum itself
    let lk0 = val_or0(l.locks, ak);
    let lk1v = (lk0 + a) as u128;
    lemma_get_upsert(l.locks, ak, lk1v, ak);
    assert(val_or0(l1.locks, ak) == lk1v);
    assert(val_or0(l1.free, ak) == val_or0(l.free, ak));
    assert(lk1v == lk0 + a);
    assert(val_or0(l.free, ak) > lk0 + a + b);
    assert(a + b <= u128::MAX);
    let s = (a + b) as u128;
    assert(stake_err(l, who, ips_id, s) is None) by {
        assert(val_or0(l.free, ak) > val_or0(l.locks, ak) + s);
        assert(s >= l.cfg.min_staking_amount);
        assert(crate::transitions::stake_fits(l, who, ips_id, s)) by {
            assert(pend_p(v1) + b <= u128::MAX);
            assert(triple_or0(l1.stakers, ak).1 + b <= u128::MAX);
            assert(ips_or0(l1, ips_id).next_era_new_stake + b <= u128::MAX);
            assert(l1.total_staked.1 + b <= u128::MAX);
            lemma_get_upsert(
                l.stakers,
                ak,
                (
                    triple_or0(l.stakers, ak).0,
                    (triple_or0(l.stakers, ak).1 + a) as u128,
                    triple_or0(l.stakers, ak).2,
                ),
                ak,
            );
            lemma_get_upsert(
                l.ips,
                ik,
                crate::types::IpsStakeInfo {
                    next_era_new_stake: (ips_or0(l, ips_id).next_era_new_stake + a) as u128,
                    ..ips_or0(l, ips_id)
                },
                ik,
            );
        }
    }
    // pair record
    assert(stake_pair(Some(v1), b) == stake_pair(e0, s));
    lemma_upsert_upsert(l.pairs, k, v1, stake_pair(Some(v1), b));
    // account triple
    let t0 = triple_or0(l.stakers, ak);
    let t1v = (t0.0, (t0.1 + a) as u128, t0.2);
    lemma_get_upsert(l.stakers, ak, t1v, ak);
    assert(triple_or0(l1.stakers, ak) == t1v);
    lemma_upsert_upsert(l.stakers, ak, t1v, (t1v.0, (t1v.1 + b) as u128, t1v.2));
    // IP-set record
    let i0 = ips_or0(l, ips_id);
    let i1v = crate::types::IpsStakeInfo {
        next_era_new_stake: (i0.next_era_new_stake + a) as u128,
        ..i0
    };
    lemma_get_upsert(l.ips, ik, i1v, ik);
    assert(ips_or0(l1, ips_id) == i1v);
    lemma_upsert_upsert(
        l.ips,
        ik,
        i1v,
        crate::types::IpsStakeInfo {
            next_era_new_stake: (i1v.next_era_new_stake + b) as u128,
            ..i1v
        },
    );
    // staking lock
    let lk0 = val_or0(l.locks, ak);
    let lk1 = (lk0 + a) as u128;
    lemma_get_upsert(l.locks, ak, lk1, ak);
    assert(val_or0(l1.locks, ak) == lk1);
    lemma_upsert_upsert(l.locks, ak, lk1, (lk1 + b) as u128);
    assert(stake_tr(l1, who, ips_id, b) =~= stake_tr(l, who, ips_id, s));
}

} // verus!
