//! The staking pallet: authoritative storage and the action handlers.

use vstd::prelude::*;
use crate::table::{
    lemma_get_index, lemma_get_none, lemma_get_upsert, lemma_push_distinct,
    lemma_upsert_cases, lemma_upsert_distinct, t_distinct, t_get, t_has, t_upsert, Key, Table,
};
use crate::state::{
    acct_key, ips_key, locked_of, pair_key, pair_wf, queue_sum, staker_net, triple_wf, val_or0,
    wf, LedgerV,
};
use crate::sums::{lemma_sum3_upsert, lemma_sum_ips3_push, lemma_sum_ips3_upsert, sum3, sum_ips3};
use crate::transitions::{
    claim_err, claim_tr, create_ips_tr, derived_account, ips_or0, lemma_queue_sum_push,
    register_err, register_tr, stake_err, stake_fits, stake_pair, stake_tr, unstake_all_amt,
    unstake_all_err, unstake_covered, unstake_err, unstake_err_at, unstake_fits, unstake_tr,
};
use crate::types::{
    cfg_wf, AccountId, Balance, BlockNumber, Config, Era, EraStake, Error, Event, GenesisConfig,
    IpsId, IpsInfo, IpsStakeInfo, MULTISIG_ACCOUNT_BASE,
};

verus! {

/// Sum of a genesis balance sheet.
pub open spec fn bal_sum(s: Seq<(AccountId, Balance)>) -> int
    decreases s.len(),
{
    if s.len() == 0 {
        0
    } else {
        s[0].1 + bal_sum(s.skip(1))
    }
}

/// No account appears twice in a genesis balance sheet.
pub open spec fn accts_distinct(s: Seq<(AccountId, Balance)>) -> bool {
    forall|i: int, j: int| 0 <= i < j < s.len() ==> (#[trigger] s[i]).0 != (#[trigger] s[j]).0
}

/// The free-balance table a genesis balance sheet builds.
pub open spec fn free_of(s: Seq<(AccountId, Balance)>) -> Seq<(Key, Balance)> {
    s.map_values(|e: (AccountId, Balance)| (acct_key(e.0), e.1))
}

pub proof fn lemma_bal_sum_nonneg(s: Seq<(AccountId, Balance)>)
    ensures
        bal_sum(s) >= 0,
    decreases s.len(),
{
    if s.len() == 0 {
    } else {
        lemma_bal_sum_nonneg(s.skip(1));
    }
}

pub proof fn lemma_free_of_distinct(s: Seq<(AccountId, Balance)>)
    requires
        accts_distinct(s),
    ensures
        t_distinct(free_of(s)),
    decreases s.len(),
{
    let r = free_of(s);
    if s.len() == 0 {
        assert(r =~= Seq::<(Key, Balance)>::empty());
    } else {
        assert(r[0] == (acct_key(s[0].0), s[0].1));
        assert(r.skip(1) =~= free_of(s.skip(1)));
        lemma_free_of_distinct(s.skip(1));
        assert forall|j: int| 0 <= j < free_of(s.skip(1)).len() implies (#[trigger] free_of(
            s.skip(1),
        )[j]).0 != acct_key(s[0].0) by {
            assert(free_of(s.skip(1))[j] == (acct_key(s.skip(1)[j].0), s.skip(1)[j].1));
            assert(s.skip(1)[j] == s[j + 1]);
        }
        lemma_get_none(free_of(s.skip(1)), acct_key(s[0].0));
    }
}

/// The accounts queued for unlocking at a given era.
pub open spec fn queue_accts(q: Seq<(Era, AccountId, Balance)>, era: Era) -> Seq<AccountId>
    decreases q.len(),
{
    if q.len() == 0 {
        Seq::empty()
    } else {
        (if q[0].0 == era {
            seq![q[0].1]
        } else {
            Seq::empty()
        }) + queue_accts(q.skip(1), era)
    }
}

/// The staking ledger and the modelled collaborator state, as one
/// deterministic machine.  All mutation goes through the action handlers
/// and the pre-block hook.
pub struct Pallet {
    pub cfg: Config,
    pub current_block: BlockNumber,
    pub total_staked: (Balance, Balance, Balance),
    pub current_era: Era,
    pub last_payout_block: BlockNumber,
    pub registered_ips: Table<IpsInfo>,
    pub ips_stakers: Table<(Balance, Balance, Balance)>,
    pub stake_by_era: Table<EraStake>,
    pub rewards_claimable: Table<Balance>,
    pub inflation_per_era: Balance,
    pub last_inflation_recalc_block: BlockNumber,
    pub unstake_queue: Vec<(Era, AccountId, Balance)>,
    pub free_balances: Table<Balance>,
    pub staking_locks: Table<Balance>,
    pub total_issuance: Balance,
    pub ips_registry: Table<AccountId>,
    pub next_ips_id: IpsId,
}

impl View for Pallet {
    type V = LedgerV;

    open spec fn view(&self) -> LedgerV {
        LedgerV {
            cfg: self.cfg,
            current_block: self.current_block,
            total_staked: self.total_staked,
            current_era: self.current_era,
            last_payout_block: self.last_payout_block,
            ips: self.registered_ips@,
            stakers: self.ips_stakers@,
            pairs: self.stake_by_era@,
            rewards: self.rewards_claimable@,
            inflation_per_era: self.inflation_per_era,
            last_recalc: self.last_inflation_recalc_block,
            queue: self.unstake_queue@,
            free: self.free_balances@,
            locks: self.staking_locks@,
            issuance: self.total_issuance,
            registry: self.ips_registry@,
            next_ips_id: self.next_ips_id,
        }
    }
}

impl Pallet {
    /// Build the ledger at genesis: the supplied initial scalar values, an
    /// empty staking state, and the genesis balance sheet of the currency
    /// collaborator.  The system triple starts zero because no per-account
    /// record exists yet, and the inflation recalculation clock starts at
    /// the genesis block.
    pub fn new(
        cfg: Config,
        genesis: GenesisConfig,
        start_block: BlockNumber,
        balances: Vec<(AccountId, Balance)>,
    ) -> (r: Pallet)
        requires
            cfg_wf(cfg),
            genesis.total_staked == (0u128, 0u128, 0u128),
            accts_distinct(balances@),
            bal_sum(balances@) <= u128::MAX,
        ensures
            wf(r@),
            r@ == (LedgerV {
                cfg,
                current_block: start_block,
                total_staked: genesis.total_staked,
                current_era: genesis.current_era,
                last_payout_block: genesis.last_payout_block,
                ips: Seq::empty(),
                stakers: Seq::empty(),
                pairs: Seq::empty(),
                rewards: Seq::empty(),
                inflation_per_era: genesis.initial_inflation_per_era,
                last_recalc: start_block,
                queue: Seq::empty(),
                free: free_of(balances@),
                locks: Seq::empty(),
                issuance: bal_sum(balances@) as u128,
                registry: Seq::empty(),
                next_ips_id: 0u32,
            }),
    {
        let n = balances.len();
        let mut free: Table<Balance> = Table::new();
        let mut issuance: Balance = 0;
        let mut i: usize = 0;
        proof {
            assert(balances@.skip(0) =~= balances@);
            assert(free_of(balances@.take(0)) =~= Seq::<(Key, Balance)>::empty());
        }
        while i < n
            invariant
                n == balances@.len(),
                i <= n,
                free@ == free_of(balances@.take(i as int)),
                issuance == bal_sum(balances@.take(i as int)),
                issuance + bal_sum(balances@.skip(i as int)) == bal_sum(balances@),
                bal_sum(balances@) <= u128::MAX,
            decreases n - i,
        {
            proof {
                assert(balances@.skip(i as int)[0] == balances@[i as int]);
                assert(balances@.skip(i as int).skip(1) =~= balances@.skip(i as int + 1));
                lemma_bal_sum_nonneg(balances@.skip(i as int + 1));
            }
            let (a, b) = balances[i];
            free.push((a, 0), b);
            issuance = issuance + b;
            proof {
                assert(balances@.take(i as int + 1) =~= balances@.take(i as int).push(
                    balances@[i as int],
                ));
                lemma_bal_sum_take_step(balances@, i as int);
                assert(free_of(balances@.take(i as int + 1)) =~= free_of(
                    balances@.take(i as int),
                ).push((acct_key(a), b)));
            }
            i += 1;
        }
        proof {
            assert(balances@.take(n as int) =~= balances@);
        }
        let r = Pallet {
            cfg,
            current_block: start_block,
            total_staked: genesis.total_staked,
            current_era: genesis.current_era,
            last_payout_block: genesis.last_payout_block,
            registered_ips: Table::new(),
            ips_stakers: Table::new(),
            stake_by_era: Table::new(),
            rewards_claimable: Table::new(),
            inflation_per_era: genesis.initial_inflation_per_era,
            last_inflation_recalc_block: start_block,
            unstake_queue: Vec::new(),
            free_balances: free,
            staking_locks: Table::new(),
            total_issuance: issuance,
            ips_registry: Table::new(),
            next_ips_id: 0,
        };
        proof {
            assert(r.unstake_queue@ =~= Seq::<(Era, AccountId, Balance)>::empty());
            lemma_free_of_distinct(balances@);
            assert(sum3(r@.stakers) == (0int, 0int, 0int));
            assert(sum_ips3(r@.ips) == (0int, 0int, 0int));
            assert(crate::sums::sum_val(r@.rewards) == 0);
            assert forall|a: AccountId| #[trigger] locked_of(r@, a) == staker_net(r@, a)
                + queue_sum(r@.queue, a) by {
                assert(t_get(r@.locks, acct_key(a)) == None::<Balance>);
                assert(t_get(r@.stakers, acct_key(a)) == None::<(Balance, Balance, Balance)>);
                assert(queue_sum(r@.queue, a) == 0);
            }
            assert(wf(r@));
        }
        r
    }

    /// The pot account of the subsystem, derived from the pallet identity.
    pub fn account_id(&self) -> (r: AccountId)
        ensures
            r == self@.cfg.pot_account,
    {
        self.cfg.pot_account
    }

    pub fn total_staked(&self) -> (r: (Balance, Balance, Balance))
        ensures
            r == self@.total_staked,
    {
        self.total_staked
    }

    pub fn current_era(&self) -> (r: Era)
        ensures
            r == self@.current_era,
    {
        self.current_era
    }

    pub fn current_block(&self) -> (r: BlockNumber)
        ensures
            r == self@.current_block,
    {
        self.current_block
    }

    pub fn last_payout_block(&self) -> (r: BlockNumber)
        ensures
            r == self@.last_payout_block,
    {
        self.last_payout_block
    }

    pub fn inflation_per_era(&self) -> (r: Balance)
        ensures
            r == self@.inflation_per_era,
    {
        self.inflation_per_era
    }

    pub fn last_inflation_recalc_block(&self) -> (r: BlockNumber)
        ensures
            r == self@.last_recalc,
    {
        self.last_inflation_recalc_block
    }

    pub fn registered_ips(&self, ips_id: IpsId) -> (r: Option<IpsInfo>)
        ensures
            r == t_get(self@.ips, ips_key(ips_id)),
    {
        self.registered_ips.get((ips_id as u128, 0))
    }

    pub fn ips_stakers(&self, account: AccountId) -> (r: Option<(Balance, Balance, Balance)>)
        ensures
            r == t_get(self@.stakers, acct_key(account)),
    {
        self.ips_stakers.get((account, 0))
    }

    pub fn stake_by_era(&self, account: AccountId, ips_id: IpsId) -> (r: Option<EraStake>)
        ensures
            r == t_get(self@.pairs, pair_key(account, ips_id)),
    {
        self.stake_by_era.get((account, ips_id))
    }

    pub fn rewards_claimable(&self, account: AccountId) -> (r: Balance)
        ensures
            r == val_or0(self@.rewards, acct_key(account)),
    {
        match self.rewards_claimable.get((account, 0)) {
            Some(v) => v,
            None => 0,
        }
    }

    /// Free balance of an account in the currency collaborator's books.
    pub fn free_balance(&self, account: AccountId) -> (r: Balance)
        ensures
            r == val_or0(self@.free, acct_key(account)),
    {
        match self.free_balances.get((account, 0)) {
            Some(v) => v,
            None => 0,
        }
    }

    pub fn total_issuance(&self) -> (r: Balance)
        ensures
            r == self@.issuance,
    {
        self.total_issuance
    }

    /// The aggregate staking lock on an account, `None` when no lock is in
    /// place.
    pub fn staking_lock(&self, account: AccountId) -> (r: Option<Balance>)
        ensures
            r == t_get(self@.locks, acct_key(account)),
    {
        self.staking_locks.get((account, 0))
    }

    /// The derived multisig address of an IP set in the registry, `None`
    /// when no such IP set exists.
    pub fn registry_address(&self, ips_id: IpsId) -> (r: Option<AccountId>)
        ensures
            r == t_get(self@.registry, ips_key(ips_id)),
    {
        self.ips_registry.get((ips_id as u128, 0))
    }

    /// The accounts whose unbonding entries mature at the given era.
    pub fn unstake_queue(&self, era: Era) -> (r: Vec<AccountId>)
        ensures
            r@ == queue_accts(self@.queue, era),
    {
        let n = self.unstake_queue.len();
        let mut r: Vec<AccountId> = Vec::new();
        let mut i: usize = 0;
        proof {
            assert(self@.queue.skip(0) =~= self@.queue);
            assert(r@ + queue_accts(self@.queue, era) =~= queue_accts(self@.queue, era));
        }
        while i < n
            invariant
                n == self@.queue.len(),
                i <= n,
                r@ + queue_accts(self@.queue.skip(i as int), era) =~= queue_accts(
                    self@.queue,
                    era,
                ),
            decreases n - i,
        {
            proof {
                assert(self@.queue.skip(i as int)[0] == self@.queue[i as int]);
                assert(self@.queue.skip(i as int).skip(1) =~= self@.queue.skip(i as int + 1));
            }
            let e = self.unstake_queue[i];
            if e.0 == era {
                r.push(e.1);
            }
            proof {
                assert(r@ + queue_accts(self@.queue.skip(i as int + 1), era) =~= queue_accts(
                    self@.queue,
                    era,
                ));
            }
            i += 1;
        }
        proof {
            assert(self@.queue.skip(n as int) =~= Seq::<(Era, AccountId, Balance)>::empty());
            assert(r@ =~= queue_accts(self@.queue, era));
        }
        r
    }

    /// Create a new IP set in the registry collaborator's model and hand
    /// back its id.  Stands for the registry's own creation call; the
    /// staking engine only ever reads the result.
    pub fn create_ips(&mut self) -> (r: IpsId)
        requires
            wf(old(self)@),
            old(self)@.next_ips_id < u32::MAX,
        ensures
            wf(final(self)@),
            r == old(self)@.next_ips_id,
            final(self)@ == create_ips_tr(old(self)@),
    {
        let id = self.next_ips_id;
        proof {
            assert forall|j: int| 0 <= j < self@.registry.len() implies (#[trigger] self@.registry[
                j
            ]).0 != ips_key(id) by {}
            lemma_get_none(self@.registry, ips_key(id));
            lemma_push_distinct(self@.registry, ips_key(id), derived_account(id));
        }
        self.ips_registry.push((id as u128, 0), MULTISIG_ACCOUNT_BASE + id as u128);
        self.next_ips_id = id + 1;
        proof {
            assert(final(self)@ =~= create_ips_tr(old(self)@));
            assert forall|a: AccountId| #[trigger] locked_of(final(self)@, a) == staker_net(
                final(self)@,
                a,
            ) + queue_sum(final(self)@.queue, a) by {
                assert(locked_of(old(self)@, a) == staker_net(old(self)@, a) + queue_sum(
                    old(self)@.queue,
                    a,
                ));
            }
            assert(wf(final(self)@));
        }
        id
    }

    /// Register an IP set for staking: a fresh record with zeroed stake
    /// fields.  The caller must be the IP set's derived multisig address,
    /// so registration can only arise from an IP-set-authorized call.  A
    /// restriction to top-level IP sets is anticipated but deliberately
    /// permissive for now, so no parentage is consulted.  An IP set that
    /// is already registered is refused: overwriting its record would
    /// silently wipe its stake fields out of sync with the system totals.
    pub fn register(&mut self, origin: AccountId, ips_id: IpsId) -> (r: Result<Event, Error>)
        requires
            wf(old(self)@),
        ensures
            wf(final(self)@),
            match r {
                Ok(ev) => {
                    &&& register_err(old(self)@, origin, ips_id) is None
                    &&& final(self)@ == register_tr(old(self)@, ips_id)
                    &&& ev == Event::IpsRegistered { ips_id }
                },
                Err(e) => {
                    &&& register_err(old(self)@, origin, ips_id) == Some(e)
                    &&& final(self)@ == old(self)@
                },
            },
    {
        let derived = match self.ips_registry.get((ips_id as u128, 0)) {
            None => {
                return Err(Error::IpDoesntExist);
            },
            Some(addr) => addr,
        };
        if origin != derived {
            return Err(Error::NoPermission);
        }
        if self.registered_ips.get((ips_id as u128, 0)).is_some() {
            return Err(Error::IpsAlreadyRegistered);
        }
        let rec = IpsStakeInfo {
            address: derived,
            total_stake: 0,
            next_era_new_stake: 0,
            next_era_new_unstake: 0,
            block_registered_at: self.current_block,
        };
        proof {
            lemma_push_distinct(self@.ips, ips_key(ips_id), rec);
            lemma_sum_ips3_push(self@.ips, ips_key(ips_id), rec);
        }
        self.registered_ips.push((ips_id as u128, 0), rec);
        proof {
            assert(final(self)@ =~= register_tr(old(self)@, ips_id));
            assert forall|a: AccountId| #[trigger] locked_of(final(self)@, a) == staker_net(
                final(self)@,
                a,
            ) + queue_sum(final(self)@.queue, a) by {
                assert(locked_of(old(self)@, a) == staker_net(old(self)@, a) + queue_sum(
                    old(self)@.queue,
                    a,
                ));
            }
            assert(wf(final(self)@));
        }
        Ok(Event::IpsRegistered { ips_id })
    }

    /// Stake towards an IP set.  The amount joins every pending-stake
    /// accumulator (pair record, account triple, IP-set record, system
    /// triple) and the staking lock grows by the amount; the new stake
    /// becomes active at the next era boundary.  The free balance must
    /// strictly exceed the lock the account would hold afterwards, so the
    /// lock never outgrows the balance and stakes within one era compose
    /// by addition.
    pub fn stake(&mut self, origin: AccountId, ips_id: IpsId, stake_amount: Balance) -> (r: Result<
        Event,
        Error,
    >)
        requires
            wf(old(self)@),
        ensures
            wf(final(self)@),
            match r {
                Ok(ev) => {
                    &&& stake_err(old(self)@, origin, ips_id, stake_amount) is None
                    &&& final(self)@ == stake_tr(old(self)@, origin, ips_id, stake_amount)
                    &&& ev == Event::NewStake { staker: origin, ips_id, stake_amount }
                },
                Err(e) => {
                    &&& stake_err(old(self)@, origin, ips_id, stake_amount) == Some(e)
                    &&& final(self)@ == old(self)@
                },
            },
    {
        let info = match self.registered_ips.get((ips_id as u128, 0)) {
            None => {
                return Err(Error::IpsNotRegistered);
            },
            Some(v) => v,
        };
        let free = self.free_balance(origin);
        let lock_old: Balance = match self.staking_locks.get((origin, 0)) {
            Some(v) => v,
            None => 0,
        };
        let lock1 = match lock_old.checked_add(stake_amount) {
            None => {
                return Err(Error::NotEnoughFreeBalance);
            },
            Some(v) => v,
        };
        if free <= lock1 {
            return Err(Error::NotEnoughFreeBalance);
        }
        if stake_amount < self.cfg.min_staking_amount {
            return Err(Error::BelowMinStakingAmount);
        }
        let cnt = self.stake_by_era.count_acct(origin);
        if cnt >= self.cfg.max_unique_stakes as usize {
            return Err(Error::MaxStakesAlreadyReached);
        }
        // Validation is eager: compute every new value before mutating, so
        // that a failing addition leaves the ledger untouched.
        let pair_old = self.stake_by_era.get((origin, ips_id));
        let p_base: Balance = match pair_old {
            Some(e) => match e.1 {
                Some(x) => x,
                None => 0,
            },
            None => 0,
        };
        let new_p = match p_base.checked_add(stake_amount) {
            None => {
                return Err(Error::Overflow);
            },
            Some(v) => v,
        };
        let t = match self.ips_stakers.get((origin, 0)) {
            Some(t) => t,
            None => (0, 0, 0),
        };
        let t1 = match t.1.checked_add(stake_amount) {
            None => {
                return Err(Error::Overflow);
            },
            Some(v) => v,
        };
        let ns = match info.next_era_new_stake.checked_add(stake_amount) {
            None => {
                return Err(Error::Overflow);
            },
            Some(v) => v,
        };
        let tot1 = match self.total_staked.1.checked_add(stake_amount) {
            None => {
                return Err(Error::Overflow);
            },
            Some(v) => v,
        };
        let new_pair: EraStake = match pair_old {
            None => (None, Some(stake_amount), None),
            Some(e) => (e.0, Some(new_p), e.2),
        };
        proof {
            assert(stake_fits(old(self)@, origin, ips_id, stake_amount));
            assert(new_pair == stake_pair(
                t_get(old(self)@.pairs, pair_key(origin, ips_id)),
                stake_amount,
            ));
        }
        self.stake_by_era.set((origin, ips_id), new_pair);
        self.ips_stakers.set((origin, 0), (t.0, t1, t.2));
        let new_info = IpsStakeInfo { next_era_new_stake: ns, ..info };
        self.registered_ips.set((ips_id as u128, 0), new_info);
        self.total_staked = (self.total_staked.0, tot1, self.total_staked.2);
        self.staking_locks.set((origin, 0), lock1);
        proof {
            let l0 = old(self)@;
            let l1 = final(self)@;
            assert(l1 =~= stake_tr(l0, origin, ips_id, stake_amount));
            // key uniqueness
            lemma_upsert_distinct(l0.pairs, pair_key(origin, ips_id), new_pair);
            lemma_upsert_distinct(l0.stakers, acct_key(origin), (t.0, t1, t.2));
            lemma_upsert_distinct(l0.ips, ips_key(ips_id), new_info);
            lemma_upsert_distinct(l0.locks, acct_key(origin), lock1);
            // record shapes, entry by entry
            lemma_upsert_cases(l0.pairs, pair_key(origin, ips_id), new_pair);
            if pair_old is Some {
                lemma_get_index(l0.pairs, pair_key(origin, ips_id));
            }
            assert(pair_wf(new_pair));
            lemma_upsert_cases(l0.stakers, acct_key(origin), (t.0, t1, t.2));
            if t_has(l0.stakers, acct_key(origin)) {
                lemma_get_index(l0.stakers, acct_key(origin));
            }
            assert(triple_wf((t.0, t1, t.2)));
            lemma_upsert_cases(l0.ips, ips_key(ips_id), new_info);
            lemma_upsert_cases(l0.locks, acct_key(origin), lock1);
            // balance identity
            lemma_sum3_upsert(l0.stakers, acct_key(origin), (t.0, t1, t.2));
            lemma_sum_ips3_upsert(l0.ips, ips_key(ips_id), new_info);
            if t_has(l0.ips, ips_key(ips_id)) {
                lemma_get_index(l0.ips, ips_key(ips_id));
            }
            // lock identity
            assert forall|a: AccountId| #[trigger] locked_of(l1, a) == staker_net(l1, a)
                + queue_sum(l1.queue, a) by {
                assert(locked_of(l0, a) == staker_net(l0, a) + queue_sum(l0.queue, a));
                lemma_get_upsert(l0.locks, acct_key(origin), lock1, acct_key(a));
                lemma_get_upsert(l0.stakers, acct_key(origin), (t.0, t1, t.2), acct_key(a));
            }
            assert(wf(l1));
        }
        Ok(Event::NewStake { staker: origin, ips_id, stake_amount })
    }

    /// The one unstake path: validate, then add the amount to every
    /// pending-unstake accumulator and enqueue the unbonding entry.  The
    /// minimum-amount floor is enforced for a plain unstake and bypassed
    /// for a full exit.
    fn do_unstake(
        &mut self,
        staker: AccountId,
        ips_id: IpsId,
        unstake_amount: Balance,
        enforce_min: bool,
    ) -> (r: Result<Event, Error>)
        requires
            wf(old(self)@),
            enforce_min || unstake_amount >= 1,
        ensures
            wf(final(self)@),
            match r {
                Ok(ev) => {
                    &&& unstake_err_at(old(self)@, staker, ips_id, unstake_amount, enforce_min)
                        is None
                    &&& final(self)@ == unstake_tr(old(self)@, staker, ips_id, unstake_amount)
                    &&& ev == Event::Unstake { staker, ips_id, unstake_amount }
                },
                Err(e) => {
                    &&& unstake_err_at(old(self)@, staker, ips_id, unstake_amount, enforce_min)
                        == Some(e)
                    &&& final(self)@ == old(self)@
                },
            },
    {
        let info = match self.registered_ips.get((ips_id as u128, 0)) {
            None => {
                return Err(Error::IpsNotRegistered);
            },
            Some(v) => v,
        };
        if enforce_min && unstake_amount < self.cfg.min_staking_amount {
            return Err(Error::BelowMinUnstakingAmount);
        }
        let e = match self.stake_by_era.get((staker, ips_id)) {
            None => {
                return Err(Error::AccountHasNoStake);
            },
            Some(e) => e,
        };
        let act = match e.0 {
            None => {
                return Err(Error::AccountHasNoStake);
            },
            Some(t) => t.1,
        };
        let m0: Balance = match e.2 {
            Some(v) => v,
            None => 0,
        };
        proof {
            lemma_get_index(old(self)@.pairs, pair_key(staker, ips_id));
            assert(pair_wf(e));
        }
        if unstake_amount > act {
            return Err(Error::UnstakeValueGreaterThanStakedAmount);
        }
        let residual = act - unstake_amount;
        if !(residual >= self.cfg.min_staking_amount || residual == 0) {
            return Err(Error::StakingAmountTooLow);
        }
        let t = match self.ips_stakers.get((staker, 0)) {
            Some(t) => t,
            None => (0, 0, 0),
        };
        let t2 = match t.2.checked_add(unstake_amount) {
            None => {
                return Err(Error::Overflow);
            },
            Some(v) => v,
        };
        let nu = match info.next_era_new_unstake.checked_add(unstake_amount) {
            None => {
                return Err(Error::Overflow);
            },
            Some(v) => v,
        };
        let tot2 = match self.total_staked.2.checked_add(unstake_amount) {
            None => {
                return Err(Error::Overflow);
            },
            Some(v) => v,
        };
        let unlock_base = match self.current_era.checked_add(self.cfg.unbonding_period) {
            None => {
                return Err(Error::Overflow);
            },
            Some(v) => v,
        };
        let unlock_era = match unlock_base.checked_add(1) {
            None => {
                return Err(Error::Overflow);
            },
            Some(v) => v,
        };
        // The accumulated pending unstake, at every level, must stay within
        // what will be held at the next boundary; on states the handlers
        // themselves built this follows from the checks above.
        let m2 = match m0.checked_add(unstake_amount) {
            None => {
                return Err(Error::UnstakeValueGreaterThanStakedAmount);
            },
            Some(v) => v,
        };
        if m2 > act {
            return Err(Error::UnstakeValueGreaterThanStakedAmount);
        }
        let acct_ok = match t.0.checked_add(t.1) {
            None => true,
            Some(cap) => t2 <= cap,
        };
        let ips_ok = match info.total_stake.checked_add(info.next_era_new_stake) {
            None => true,
            Some(cap) => nu <= cap,
        };
        let sys_ok = match self.total_staked.0.checked_add(self.total_staked.1) {
            None => true,
            Some(cap) => tot2 <= cap,
        };
        if !(acct_ok && ips_ok && sys_ok) {
            return Err(Error::UnstakeValueGreaterThanStakedAmount);
        }
        let new_pair: EraStake = (e.0, e.1, Some(m2));
        proof {
            assert(unstake_fits(old(self)@, staker, ips_id, unstake_amount));
            assert(unstake_covered(old(self)@, staker, ips_id, unstake_amount));
        }
        self.stake_by_era.set((staker, ips_id), new_pair);
        self.ips_stakers.set((staker, 0), (t.0, t.1, t2));
        let new_info = IpsStakeInfo { next_era_new_unstake: nu, ..info };
        self.registered_ips.set((ips_id as u128, 0), new_info);
        self.total_staked = (self.total_staked.0, self.total_staked.1, tot2);
        self.unstake_queue.push((unlock_era, staker, unstake_amount));
        proof {
            let l0 = old(self)@;
            let l1 = final(self)@;
            assert(l1 =~= unstake_tr(l0, staker, ips_id, unstake_amount));
            lemma_upsert_distinct(l0.pairs, pair_key(staker, ips_id), new_pair);
            lemma_upsert_distinct(l0.stakers, acct_key(staker), (t.0, t.1, t2));
            lemma_upsert_distinct(l0.ips, ips_key(ips_id), new_info);
            lemma_upsert_cases(l0.pairs, pair_key(staker, ips_id), new_pair);
            assert(pair_wf(new_pair));
            lemma_upsert_cases(l0.stakers, acct_key(staker), (t.0, t.1, t2));
            lemma_upsert_cases(l0.ips, ips_key(ips_id), new_info);
            lemma_sum3_upsert(l0.stakers, acct_key(staker), (t.0, t.1, t2));
            if t_has(l0.stakers, acct_key(staker)) {
                lemma_get_index(l0.stakers, acct_key(staker));
            }
            lemma_sum_ips3_upsert(l0.ips, ips_key(ips_id), new_info);
            if t_has(l0.ips, ips_key(ips_id)) {
                lemma_get_index(l0.ips, ips_key(ips_id));
            }
            assert forall|a: AccountId| #[trigger] locked_of(l1, a) == staker_net(l1, a)
                + queue_sum(l1.queue, a) by {
                assert(locked_of(l0, a) == staker_net(l0, a) + queue_sum(l0.queue, a));
                lemma_get_upsert(l0.stakers, acct_key(staker), (t.0, t.1, t2), acct_key(a));
                lemma_queue_sum_push(l0.queue, (unlock_era, staker, unstake_amount), a);
            }
            assert(wf(l1));
        }
        Ok(Event::Unstake { staker, ips_id, unstake_amount })
    }

    /// Unstake from an IP set.  The amount joins every pending-unstake
    /// accumulator and the account enters the unbonding queue; the lock
    /// itself is only released when the queue entry matures.
    pub fn unstake(&mut self, staker: AccountId, ips_id: IpsId, unstake_amount: Balance) -> (r:
        Result<Event, Error>)
        requires
            wf(old(self)@),
        ensures
            wf(final(self)@),
            match r {
                Ok(ev) => {
                    &&& unstake_err(old(self)@, staker, ips_id, unstake_amount) is None
                    &&& final(self)@ == unstake_tr(old(self)@, staker, ips_id, unstake_amount)
                    &&& ev == Event::Unstake { staker, ips_id, unstake_amount }
                },
                Err(e) => {
                    &&& unstake_err(old(self)@, staker, ips_id, unstake_amount) == Some(e)
                    &&& final(self)@ == old(self)@
                },
            },
    {
        self.do_unstake(staker, ips_id, unstake_amount, true)
    }

    /// Unstake a specific amount of tokens from an IP set.
    pub fn unstake_amount(&mut self, origin: AccountId, ips_id: IpsId, amount: Balance) -> (r:
        Result<Event, Error>)
        requires
            wf(old(self)@),
        ensures
            wf(final(self)@),
            match r {
                Ok(ev) => {
                    &&& unstake_err(old(self)@, origin, ips_id, amount) is None
                    &&& final(self)@ == unstake_tr(old(self)@, origin, ips_id, amount)
                    &&& ev == Event::Unstake { staker: origin, ips_id, unstake_amount: amount }
                },
                Err(e) => {
                    &&& unstake_err(old(self)@, origin, ips_id, amount) == Some(e)
                    &&& final(self)@ == old(self)@
                },
            },
    {
        self.unstake(origin, ips_id, amount)
    }

    /// Unstake the whole remaining settled balance from an IP set.
    pub fn unstake_all(&mut self, origin: AccountId, ips_id: IpsId) -> (r: Result<Event, Error>)
        requires
            wf(old(self)@),
        ensures
            wf(final(self)@),
            match r {
                Ok(ev) => {
                    &&& unstake_all_err(old(self)@, origin, ips_id) is None
                    &&& final(self)@ == unstake_tr(
                        old(self)@,
                        origin,
                        ips_id,
                        unstake_all_amt(old(self)@, origin, ips_id),
                    )
                    &&& ev == Event::Unstake {
                        staker: origin,
                        ips_id,
                        unstake_amount: unstake_all_amt(old(self)@, origin, ips_id),
                    }
                },
                Err(e) => {
                    &&& unstake_all_err(old(self)@, origin, ips_id) == Some(e)
                    &&& final(self)@ == old(self)@
                },
            },
    {
        let e = match self.stake_by_era.get((origin, ips_id)) {
            None => {
                return Err(Error::AccountHasNoStake);
            },
            Some(e) => e,
        };
        let act = match e.0 {
            None => {
                return Err(Error::AccountHasNoStake);
            },
            Some(t) => t.1,
        };
        let m0: Balance = match e.2 {
            Some(v) => v,
            None => 0,
        };
        proof {
            lemma_get_index(old(self)@.pairs, pair_key(origin, ips_id));
            assert(pair_wf(e));
        }
        let amount = act - m0;
        if amount == 0 {
            return Err(Error::AccountHasNoStake);
        }
        self.do_unstake(origin, ips_id, amount, false)
    }

    /// Claim the rewards earned from staking: the claimable balance is
    /// zeroed and paid out of the pot, which is allowed to drop to zero.
    pub fn claim(&mut self, origin: AccountId) -> (r: Result<Event, Error>)
        requires
            wf(old(self)@),
        ensures
            wf(final(self)@),
            match r {
                Ok(ev) => {
                    &&& claim_err(old(self)@, origin) is None
                    &&& final(self)@ == claim_tr(old(self)@, origin)
                    &&& ev == Event::RewardsClaimed {
                        claimer: origin,
                        reward_amount: val_or0(old(self)@.rewards, acct_key(origin)) as u128,
                    }
                },
                Err(e) => {
                    &&& claim_err(old(self)@, origin) == Some(e)
                    &&& final(self)@ == old(self)@
                },
            },
    {
        let amount = self.rewards_claimable(origin);
        if amount == 0 {
            return Err(Error::AccountHasNoClaim);
        }
        let pot = self.cfg.pot_account;
        let pot_free = self.free_balance(pot);
        proof {
            // the pot covers every single claim: its free balance is at
            // least the sum of all claimable rewards
            crate::sums::lemma_val_le_sum(old(self)@.rewards, acct_key(origin));
            assert(pot_free >= amount);
        }
        let pot_new = pot_free - amount;
        let who_free1: Balance = if origin == pot {
            pot_new
        } else {
            self.free_balance(origin)
        };
        proof {
            lemma_get_upsert(
                old(self)@.free,
                acct_key(pot),
                pot_new,
                acct_key(origin),
            );
        }
        let who_new = match who_free1.checked_add(amount) {
            None => {
                return Err(Error::Overflow);
            },
            Some(v) => v,
        };
        self.free_balances.set((pot, 0), pot_new);
        self.free_balances.set((origin, 0), who_new);
        self.rewards_claimable.set((origin, 0), 0);
        proof {
            let l0 = old(self)@;
            let l1 = final(self)@;
            assert(l1 =~= claim_tr(l0, origin));
            lemma_upsert_distinct(l0.free, acct_key(pot), pot_new);
            lemma_upsert_distinct(
                t_upsert(l0.free, acct_key(pot), pot_new),
                acct_key(origin),
                who_new,
            );
            lemma_upsert_distinct(l0.rewards, acct_key(origin), 0u128);
            assert forall|a: AccountId| #[trigger] locked_of(l1, a) == staker_net(l1, a)
                + queue_sum(l1.queue, a) by {
                assert(locked_of(l0, a) == staker_net(l0, a) + queue_sum(l0.queue, a));
            }
            // the pot still covers what is left to claim
            crate::sums::lemma_sum_val_upsert(l0.rewards, acct_key(origin), 0u128);
            lemma_get_upsert(l0.free, acct_key(pot), pot_new, acct_key(pot));
            lemma_get_upsert(
                t_upsert(l0.free, acct_key(pot), pot_new),
                acct_key(origin),
                who_new,
                acct_key(pot),
            );
            assert(wf(l1));
        }
        Ok(Event::RewardsClaimed { claimer: origin, reward_amount: amount })
    }

    /// Unregistering has no settled semantics yet: the call succeeds and
    /// leaves the ledger untouched.
    pub fn unregister(&mut self, _origin: AccountId, _ips_id: IpsId) -> (r: Result<(), Error>)
        requires
            wf(old(self)@),
        ensures
            wf(final(self)@),
            final(self)@ == old(self)@,
            r is Ok,
    {
        Ok(())
    }
}

/// One step of a genesis balance sum.
pub proof fn lemma_bal_sum_take_step(s: Seq<(AccountId, Balance)>, i: int)
    requires
        0 <= i < s.len(),
    ensures
        bal_sum(s.take(i + 1)) == bal_sum(s.take(i)) + s[i].1,
    decreases i,
{
    if i == 0 {
        assert(s.take(1)[0] == s[0]);
        assert(s.take(1).skip(1) =~= Seq::<(AccountId, Balance)>::empty());
        assert(s.take(0) =~= Seq::<(AccountId, Balance)>::empty());
    } else {
        assert(s.take(i + 1)[0] == s[0]);
        assert(s.take(i)[0] == s[0]);
        assert(s.take(i + 1).skip(1) =~= s.skip(1).take(i));
        assert(s.take(i).skip(1) =~= s.skip(1).take(i - 1));
        assert(s.skip(1)[i - 1] == s[i]);
        lemma_bal_sum_take_step(s.skip(1), i - 1);
    }
}

} // verus!
