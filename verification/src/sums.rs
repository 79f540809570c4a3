//! Pointwise sums over ledger tables.
//!
//! The balance identity of the system says that the system stake triple is
//! the pointwise sum of all per-account triples and also of all IP-set
//! records' stake fields.  These spec functions define those sums and the
//! lemmas track them through single-entry updates.

use vstd::prelude::*;
use crate::table::{t_get, t_upsert, Key};
use crate::types::{Balance, IpsInfo};

verus! {

/// A stake triple as mathematical integers.
pub open spec fn triple_int(t: (Balance, Balance, Balance)) -> (int, int, int) {
    (t.0 as int, t.1 as int, t.2 as int)
}

/// The stake fields of an IP-set record as mathematical integers.
pub open spec fn ips_triple(v: IpsInfo) -> (int, int, int) {
    (v.total_stake as int, v.next_era_new_stake as int, v.next_era_new_unstake as int)
}

pub open spec fn add3(a: (int, int, int), b: (int, int, int)) -> (int, int, int) {
    (a.0 + b.0, a.1 + b.1, a.2 + b.2)
}

/// Pointwise sum of all per-account triples.
pub open spec fn sum3(s: Seq<(Key, (Balance, Balance, Balance))>) -> (int, int, int)
    decreases s.len(),
{
    if s.len() == 0 {
        (0int, 0int, 0int)
    } else {
        add3(triple_int(s[0].1), sum3(s.skip(1)))
    }
}

/// Pointwise sum of all IP-set records' stake fields.
pub open spec fn sum_ips3(s: Seq<(Key, IpsInfo)>) -> (int, int, int)
    decreases s.len(),
{
    if s.len() == 0 {
        (0int, 0int, 0int)
    } else {
        add3(ips_triple(s[0].1), sum_ips3(s.skip(1)))
    }
}

/// Sum of all values of a balance table.
pub open spec fn sum_val(s: Seq<(Key, Balance)>) -> int
    decreases s.len(),
{
    if s.len() == 0 {
        0
    } else {
        s[0].1 + sum_val(s.skip(1))
    }
}

/// The triple an optional table entry contributes to a sum.
pub open spec fn opt3(o: Option<(Balance, Balance, Balance)>) -> (int, int, int) {
    match o {
        Some(t) => triple_int(t),
        None => (0int, 0int, 0int),
    }
}

/// The triple an optional IP-set record contributes to a sum.
pub open spec fn opt_ips3(o: Option<IpsInfo>) -> (int, int, int) {
    match o {
        Some(v) => ips_triple(v),
        None => (0int, 0int, 0int),
    }
}

pub proof fn lemma_sum3_nonneg(s: Seq<(Key, (Balance, Balance, Balance))>)
    ensures
        sum3(s).0 >= 0 && sum3(s).1 >= 0 && sum3(s).2 >= 0,
    decreases s.len(),
{
    if s.len() == 0 {
    } else {
        lemma_sum3_nonneg(s.skip(1));
    }
}

pub proof fn lemma_sum_ips3_nonneg(s: Seq<(Key, IpsInfo)>)
    ensures
        sum_ips3(s).0 >= 0 && sum_ips3(s).1 >= 0 && sum_ips3(s).2 >= 0,
    decreases s.len(),
{
    if s.len() == 0 {
    } else {
        lemma_sum_ips3_nonneg(s.skip(1));
    }
}

pub proof fn lemma_sum_val_nonneg(s: Seq<(Key, Balance)>)
    ensures
        sum_val(s) >= 0,
    decreases s.len(),
{
    if s.len() == 0 {
    } else {
        lemma_sum_val_nonneg(s.skip(1));
    }
}

/// Each entry's triple is bounded by the sum of all triples.
pub proof fn lemma_sum3_entry_le(s: Seq<(Key, (Balance, Balance, Balance))>, i: int)
    requires
        0 <= i < s.len(),
    ensures
        s[i].1.0 <= sum3(s).0,
        s[i].1.1 <= sum3(s).1,
        s[i].1.2 <= sum3(s).2,
    decreases s.len(),
{
    lemma_sum3_nonneg(s.skip(1));
    if i == 0 {
    } else {
        lemma_sum3_entry_le(s.skip(1), i - 1);
    }
}

/// Each IP-set record's triple is bounded by the sum of all records'.
pub proof fn lemma_sum_ips3_entry_le(s: Seq<(Key, IpsInfo)>, i: int)
    requires
        0 <= i < s.len(),
    ensures
        ips_triple(s[i].1).0 <= sum_ips3(s).0,
        ips_triple(s[i].1).1 <= sum_ips3(s).1,
        ips_triple(s[i].1).2 <= sum_ips3(s).2,
    decreases s.len(),
{
    lemma_sum_ips3_nonneg(s.skip(1));
    if i == 0 {
    } else {
        lemma_sum_ips3_entry_le(s.skip(1), i - 1);
    }
}

/// An upsert changes the sum by the new triple minus the replaced one.
pub proof fn lemma_sum3_upsert(
    s: Seq<(Key, (Balance, Balance, Balance))>,
    k: Key,
    v: (Balance, Balance, Balance),
)
    ensures
        sum3(t_upsert(s, k, v)) == add3(
            (
                sum3(s).0 - opt3(t_get(s, k)).0,
                sum3(s).1 - opt3(t_get(s, k)).1,
                sum3(s).2 - opt3(t_get(s, k)).2,
            ),
            triple_int(v),
        ),
    decreases s.len(),
{
    let r = t_upsert(s, k, v);
    if s.len() == 0 {
        assert(r == seq![(k, v)]);
        assert(r.skip(1) =~= Seq::<(Key, (Balance, Balance, Balance))>::empty());
        assert(sum3(r.skip(1)) == (0int, 0int, 0int));
    } else if s[0].0 == k {
        assert(r == seq![(k, v)] + s.skip(1));
        assert(r[0] == (k, v));
        assert(r.skip(1) =~= s.skip(1));
    } else {
        assert(r == seq![s[0]] + t_upsert(s.skip(1), k, v));
        assert(r[0] == s[0]);
        assert(r.skip(1) =~= t_upsert(s.skip(1), k, v));
        lemma_sum3_upsert(s.skip(1), k, v);
    }
}

/// An upsert changes the IP-set sum by the new record minus the replaced one.
pub proof fn lemma_sum_ips3_upsert(s: Seq<(Key, IpsInfo)>, k: Key, v: IpsInfo)
    ensures
        sum_ips3(t_upsert(s, k, v)) == add3(
            (
                sum_ips3(s).0 - opt_ips3(t_get(s, k)).0,
                sum_ips3(s).1 - opt_ips3(t_get(s, k)).1,
                sum_ips3(s).2 - opt_ips3(t_get(s, k)).2,
            ),
            ips_triple(v),
        ),
    decreases s.len(),
{
    let r = t_upsert(s, k, v);
    if s.len() == 0 {
        assert(r == seq![(k, v)]);
        assert(r.skip(1) =~= Seq::<(Key, IpsInfo)>::empty());
        assert(sum_ips3(r.skip(1)) == (0int, 0int, 0int));
    } else if s[0].0 == k {
        assert(r == seq![(k, v)] + s.skip(1));
        assert(r[0] == (k, v));
        assert(r.skip(1) =~= s.skip(1));
    } else {
        assert(r == seq![s[0]] + t_upsert(s.skip(1), k, v));
        assert(r[0] == s[0]);
        assert(r.skip(1) =~= t_upsert(s.skip(1), k, v));
        lemma_sum_ips3_upsert(s.skip(1), k, v);
    }
}

/// An upsert changes a balance sum by the new value minus the replaced one.
pub proof fn lemma_sum_val_upsert(s: Seq<(Key, Balance)>, k: Key, v: Balance)
    ensures
        sum_val(t_upsert(s, k, v)) == sum_val(s) - (match t_get(s, k) {
            Some(o) => o as int,
            None => 0int,
        }) + v,
    decreases s.len(),
{
    let r = t_upsert(s, k, v);
    if s.len() == 0 {
        assert(r == seq![(k, v)]);
        assert(r.skip(1) =~= Seq::<(Key, Balance)>::empty());
        assert(sum_val(r.skip(1)) == 0);
    } else if s[0].0 == k {
        assert(r == seq![(k, v)] + s.skip(1));
        assert(r[0] == (k, v));
        assert(r.skip(1) =~= s.skip(1));
    } else {
        assert(r == seq![s[0]] + t_upsert(s.skip(1), k, v));
        assert(r[0] == s[0]);
        assert(r.skip(1) =~= t_upsert(s.skip(1), k, v));
        lemma_sum_val_upsert(s.skip(1), k, v);
    }
}

/// No single claimable balance exceeds the total of all of them.
pub proof fn lemma_val_le_sum(s: Seq<(Key, Balance)>, k: Key)
    ensures
        (match t_get(s, k) {
            Some(v) => v as int,
            None => 0int,
        }) <= sum_val(s),
    decreases s.len(),
{
    if s.len() == 0 {
    } else {
        lemma_sum_val_nonneg(s.skip(1));
        if s[0].0 == k {
        } else {
            lemma_val_le_sum(s.skip(1), k);
        }
    }
}

/// A pushed entry adds its triple to the sum.
pub proof fn lemma_sum_ips3_push(s: Seq<(Key, IpsInfo)>, k: Key, v: IpsInfo)
    ensures
        sum_ips3(s.push((k, v))) == add3(sum_ips3(s), ips_triple(v)),
    decreases s.len(),
{
    let r = s.push((k, v));
    if s.len() == 0 {
        assert(r[0] == (k, v));
        assert(r.skip(1) =~= Seq::<(Key, IpsInfo)>::empty());
        assert(sum_ips3(r.skip(1)) == (0int, 0int, 0int));
    } else {
        assert(r[0] == s[0]);
        assert(r.skip(1) =~= s.skip(1).push((k, v)));
        lemma_sum_ips3_push(s.skip(1), k, v);
    }
}

} // verus!
