//! The abstract ledger state and its well-formedness invariant.

use vstd::prelude::*;
use crate::table::{t_distinct, t_get, Key};
use crate::sums::{sum3, sum_ips3, sum_val, triple_int};
use crate::types::{
    cfg_wf, AccountId, Balance, BlockNumber, Config, Era, EraStake, IpsId, IpsInfo,
};

verus! {

/// Mathematical model of the whole ledger: the staking storage, plus the
/// modelled collaborator state (free balances, the staking lock, the total
/// issuance, and the IP-set registry).
#[verifier::ext_equal]
pub struct LedgerV {
    pub cfg: Config,
    /// Block height the engine saw last.
    pub current_block: BlockNumber,
    /// System stake triple: active total, pending stake, pending unstake.
    pub total_staked: (Balance, Balance, Balance),
    pub current_era: Era,
    pub last_payout_block: BlockNumber,
    /// Registered IP sets, keyed by `ips_key`.
    pub ips: Seq<(Key, IpsInfo)>,
    /// Per-account stake triples, keyed by `acct_key`.
    pub stakers: Seq<(Key, (Balance, Balance, Balance))>,
    /// Per-(account, IP-set) era-stake records, keyed by `pair_key`.
    pub pairs: Seq<(Key, EraStake)>,
    /// Claimable rewards, keyed by `acct_key`; an absent entry means zero.
    pub rewards: Seq<(Key, Balance)>,
    pub inflation_per_era: Balance,
    pub last_recalc: BlockNumber,
    /// Unbonding queue: `(unlock era, account, amount)` entries in the order
    /// the unstakes were requested.
    pub queue: Seq<(Era, AccountId, Balance)>,
    /// Free balances of the currency collaborator, keyed by `acct_key`.
    pub free: Seq<(Key, Balance)>,
    /// Aggregate staking-lock amount per account, keyed by `acct_key`;
    /// an absent entry means the account holds no staking lock.
    pub locks: Seq<(Key, Balance)>,
    pub issuance: Balance,
    /// IP-set registry collaborator: derived multisig address per IP set,
    /// keyed by `ips_key`.
    pub registry: Seq<(Key, AccountId)>,
    pub next_ips_id: IpsId,
}

pub open spec fn acct_key(a: AccountId) -> Key {
    (a, 0u32)
}

pub open spec fn ips_key(i: IpsId) -> Key {
    (i as u128, 0u32)
}

pub open spec fn pair_key(a: AccountId, i: IpsId) -> Key {
    (a, i)
}

/// Value of a balance table at a key, zero when absent.
pub open spec fn val_or0(s: Seq<(Key, Balance)>, k: Key) -> int {
    match t_get(s, k) {
        Some(v) => v as int,
        None => 0,
    }
}

/// A per-account triple, all zero when absent.
pub open spec fn triple_or0(
    s: Seq<(Key, (Balance, Balance, Balance))>,
    k: Key,
) -> (Balance, Balance, Balance) {
    match t_get(s, k) {
        Some(t) => t,
        None => (0u128, 0u128, 0u128),
    }
}

/// The settled balance of a per-pair record.
pub open spec fn act_bal(es: EraStake) -> int {
    match es.0 {
        Some(t) => t.1 as int,
        None => 0,
    }
}

/// The pending stake of a per-pair record.
pub open spec fn pend_p(es: EraStake) -> int {
    match es.1 {
        Some(v) => v as int,
        None => 0,
    }
}

/// The pending unstake of a per-pair record.
pub open spec fn pend_m(es: EraStake) -> int {
    match es.2 {
        Some(v) => v as int,
        None => 0,
    }
}

/// Shape of a stored per-pair record.  A record carries some information
/// (no ghost stake); an unstake presupposes a settled balance; and the
/// accumulated pending unstake never exceeds the settled balance, so that
/// promotion can never underflow.
pub open spec fn pair_wf(es: EraStake) -> bool {
    &&& !(es.0 is None && es.1 is None && es.2 is None)
    &&& (es.0 is None ==> es.2 is None)
    &&& (es.2 is Some ==> 1 <= pend_m(es) <= act_bal(es))
}

/// A stake triple never promises to unstake more than it will hold.
pub open spec fn triple_wf(t: (Balance, Balance, Balance)) -> bool {
    t.2 <= t.0 + t.1
}

/// The same, for the stake fields of an IP-set record.
pub open spec fn ips_rec_wf(v: IpsInfo) -> bool {
    v.next_era_new_unstake <= v.total_stake + v.next_era_new_stake
}

/// Total amount an account holds in the unbonding queue.
pub open spec fn queue_sum(q: Seq<(Era, AccountId, Balance)>, a: AccountId) -> int
    decreases q.len(),
{
    if q.len() == 0 {
        0
    } else {
        (if q[0].1 == a {
            q[0].2 as int
        } else {
            0
        }) + queue_sum(q.skip(1), a)
    }
}

/// The staking lock held on an account's balance.
pub open spec fn locked_of(l: LedgerV, a: AccountId) -> int {
    val_or0(l.locks, acct_key(a))
}

/// The lock an account's stake accounts for before unbonding entries are
/// added: active plus pending stake minus pending unstake.
pub open spec fn staker_net(l: LedgerV, a: AccountId) -> int {
    let t = triple_or0(l.stakers, acct_key(a));
    t.0 + t.1 - t.2
}

/// Well-formedness of the ledger.  This is the conjunction of the engine's
/// universal invariants: unique keys everywhere, the record shapes above,
/// the balance identity (the system triple is the pointwise sum of the
/// per-account triples and of the IP-set records), and the lock identity
/// (each account's lock equals its net stake plus its unbonding entries).
pub open spec fn wf(l: LedgerV) -> bool {
    &&& cfg_wf(l.cfg)
    &&& t_distinct(l.ips)
    &&& t_distinct(l.stakers)
    &&& t_distinct(l.pairs)
    &&& t_distinct(l.rewards)
    &&& t_distinct(l.free)
    &&& t_distinct(l.locks)
    &&& t_distinct(l.registry)
    &&& forall|i: int| 0 <= i < l.pairs.len() ==> pair_wf((#[trigger] l.pairs[i]).1)
    &&& forall|i: int| 0 <= i < l.stakers.len() ==> triple_wf((#[trigger] l.stakers[i]).1)
    &&& forall|i: int| 0 <= i < l.ips.len() ==> ips_rec_wf((#[trigger] l.ips[i]).1)
    &&& triple_wf(l.total_staked)
    &&& sum3(l.stakers) == triple_int(l.total_staked)
    &&& sum_ips3(l.ips) == triple_int(l.total_staked)
    &&& forall|a: AccountId| #[trigger] locked_of(l, a) == staker_net(l, a) + queue_sum(l.queue, a)
    &&& forall|i: int| 0 <= i < l.locks.len() ==> (#[trigger] l.locks[i]).1 > 0
    &&& val_or0(l.free, acct_key(l.cfg.pot_account)) >= sum_val(l.rewards)
    &&& forall|i: int|
        0 <= i < l.registry.len() ==> {
            &&& (#[trigger] l.registry[i]).0.1 == 0
            &&& l.registry[i].0.0 < l.next_ips_id as u128
        }
    &&& l.last_recalc <= l.current_block
}

} // verus!
