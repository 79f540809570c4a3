//! Deterministic key/value tables for the ledger.
//!
//! Every storage map of the engine is an association list with unique keys.
//! Iteration order is the insertion order, so every node replaying the same
//! block sequence walks the entries in the same order and reaches the same
//! state.  The spec-level model is the sequence of entries itself; lookup,
//! upsert and removal have recursive spec counterparts that the lemmas below
//! relate to pointwise facts.

use vstd::prelude::*;
use vstd::pervasive::VecAdditionalExecFns;

verus! {

/// Key of every ledger table: an account id paired with an IP-set id.
/// Account-keyed tables use `(account, 0)`, IP-set-keyed tables use
/// `(id as u128, 0)`, and the per-(account, IP-set) table uses both parts.
pub type Key = (u128, u32);

/// Lookup: the value of the first entry whose key is `k`.
pub open spec fn t_get<V>(s: Seq<(Key, V)>, k: Key) -> Option<V>
    decreases s.len(),
{
    if s.len() == 0 {
        None
    } else if s[0].0 == k {
        Some(s[0].1)
    } else {
        t_get(s.skip(1), k)
    }
}

/// Whether some entry has key `k`.
pub open spec fn t_has<V>(s: Seq<(Key, V)>, k: Key) -> bool {
    t_get(s, k) is Some
}

/// Key uniqueness.
pub open spec fn t_distinct<V>(s: Seq<(Key, V)>) -> bool
    decreases s.len(),
{
    if s.len() == 0 {
        true
    } else {
        !t_has(s.skip(1), s[0].0) && t_distinct(s.skip(1))
    }
}

/// Replace the value of the entry keyed `k`, or append a new entry.
pub open spec fn t_upsert<V>(s: Seq<(Key, V)>, k: Key, v: V) -> Seq<(Key, V)>
    decreases s.len(),
{
    if s.len() == 0 {
        seq![(k, v)]
    } else if s[0].0 == k {
        seq![(k, v)] + s.skip(1)
    } else {
        seq![s[0]] + t_upsert(s.skip(1), k, v)
    }
}

/// Drop every entry keyed `k`, keeping the order of the rest.
pub open spec fn t_removed<V>(s: Seq<(Key, V)>, k: Key) -> Seq<(Key, V)>
    decreases s.len(),
{
    if s.len() == 0 {
        s
    } else if s[0].0 == k {
        t_removed(s.skip(1), k)
    } else {
        seq![s[0]] + t_removed(s.skip(1), k)
    }
}

/// How many entries carry account id `a` as the first key part.
pub open spec fn t_count_acct<V>(s: Seq<(Key, V)>, a: u128) -> nat
    decreases s.len(),
{
    if s.len() == 0 {
        0
    } else {
        (if s[0].0.0 == a {
            1nat
        } else {
            0nat
        }) + t_count_acct(s.skip(1), a)
    }
}

pub proof fn lemma_get_found<V>(s: Seq<(Key, V)>, k: Key, i: int)
    requires
        0 <= i < s.len(),
        s[i].0 == k,
        forall|j: int| 0 <= j < i ==> (#[trigger] s[j]).0 != k,
    ensures
        t_get(s, k) == Some(s[i].1),
    decreases i,
{
    if i == 0 {
    } else {
        assert(s[0].0 != k);
        lemma_get_found(s.skip(1), k, i - 1);
    }
}

pub proof fn lemma_get_none<V>(s: Seq<(Key, V)>, k: Key)
    requires
        forall|j: int| 0 <= j < s.len() ==> (#[trigger] s[j]).0 != k,
    ensures
        t_get(s, k) == None::<V>,
    decreases s.len(),
{
    if s.len() == 0 {
    } else {
        assert(s[0].0 != k);
        lemma_get_none(s.skip(1), k);
    }
}

pub proof fn lemma_upsert_found<V>(s: Seq<(Key, V)>, k: Key, v: V, i: int)
    requires
        0 <= i < s.len(),
        s[i].0 == k,
        forall|j: int| 0 <= j < i ==> (#[trigger] s[j]).0 != k,
    ensures
        t_upsert(s, k, v) == s.update(i, (k, v)),
    decreases i,
{
    if i == 0 {
        assert(t_upsert(s, k, v) =~= s.update(0, (k, v)));
    } else {
        assert(s[0].0 != k);
        lemma_upsert_found(s.skip(1), k, v, i - 1);
        assert(t_upsert(s, k, v) =~= s.update(i, (k, v)));
    }
}

pub proof fn lemma_upsert_none<V>(s: Seq<(Key, V)>, k: Key, v: V)
    requires
        forall|j: int| 0 <= j < s.len() ==> (#[trigger] s[j]).0 != k,
    ensures
        t_upsert(s, k, v) == s.push((k, v)),
    decreases s.len(),
{
    if s.len() == 0 {
        assert(t_upsert(s, k, v) =~= s.push((k, v)));
    } else {
        assert(s[0].0 != k);
        lemma_upsert_none(s.skip(1), k, v);
        assert(t_upsert(s, k, v) =~= s.push((k, v)));
    }
}

pub proof fn lemma_removed_found<V>(s: Seq<(Key, V)>, k: Key, i: int)
    requires
        t_distinct(s),
        0 <= i < s.len(),
        s[i].0 == k,
        forall|j: int| 0 <= j < i ==> (#[trigger] s[j]).0 != k,
    ensures
        t_removed(s, k) == s.remove(i),
    decreases i,
{
    if i == 0 {
        assert(!t_has(s.skip(1), k));
        lemma_removed_none(s.skip(1), k);
        assert(t_removed(s, k) =~= s.remove(0));
    } else {
        assert(s[0].0 != k);
        lemma_removed_found(s.skip(1), k, i - 1);
        assert(t_removed(s, k) =~= s.remove(i));
    }
}

pub proof fn lemma_removed_none<V>(s: Seq<(Key, V)>, k: Key)
    requires
        !t_has(s, k),
    ensures
        t_removed(s, k) == s,
    decreases s.len(),
{
    if s.len() == 0 {
    } else {
        assert(s[0].0 != k);
        lemma_removed_none(s.skip(1), k);
        assert(t_removed(s, k) =~= s);
    }
}

/// Entries with other keys keep their values through an upsert.
pub proof fn lemma_get_upsert<V>(s: Seq<(Key, V)>, k: Key, v: V, q: Key)
    ensures
        t_get(t_upsert(s, k, v), q) == if q == k {
            Some(v)
        } else {
            t_get(s, q)
        },
    decreases s.len(),
{
    if s.len() == 0 {
        assert(t_upsert(s, k, v) == seq![(k, v)]);
        assert(t_upsert(s, k, v).skip(1) =~= Seq::<(Key, V)>::empty());
        assert(t_get(Seq::<(Key, V)>::empty(), q) == None::<V>);
    } else if s[0].0 == k {
        let r = t_upsert(s, k, v);
        assert(r == seq![(k, v)] + s.skip(1));
        assert(r.skip(1) =~= s.skip(1));
    } else {
        let r = t_upsert(s, k, v);
        assert(r == seq![s[0]] + t_upsert(s.skip(1), k, v));
        assert(r[0] == s[0]);
        assert(r.skip(1) =~= t_upsert(s.skip(1), k, v));
        lemma_get_upsert(s.skip(1), k, v, q);
    }
}

/// Entries with other keys keep their values through a removal.
pub proof fn lemma_get_removed<V>(s: Seq<(Key, V)>, k: Key, q: Key)
    ensures
        t_get(t_removed(s, k), q) == if q == k {
            None::<V>
        } else {
            t_get(s, q)
        },
    decreases s.len(),
{
    if s.len() == 0 {
    } else if s[0].0 == k {
        lemma_get_removed(s.skip(1), k, q);
    } else {
        let r = t_removed(s, k);
        assert(r == seq![s[0]] + t_removed(s.skip(1), k));
        assert(r[0] == s[0]);
        assert(r.skip(1) =~= t_removed(s.skip(1), k));
        lemma_get_removed(s.skip(1), k, q);
    }
}

pub proof fn lemma_upsert_distinct<V>(s: Seq<(Key, V)>, k: Key, v: V)
    requires
        t_distinct(s),
    ensures
        t_distinct(t_upsert(s, k, v)),
    decreases s.len(),
{
    if s.len() == 0 {
        let r = t_upsert(s, k, v);
        assert(r.skip(1) =~= Seq::<(Key, V)>::empty());
        assert(t_distinct(Seq::<(Key, V)>::empty()));
        assert(t_get(Seq::<(Key, V)>::empty(), k) == None::<V>);
    } else if s[0].0 == k {
        let r = t_upsert(s, k, v);
        assert(r.skip(1) =~= s.skip(1));
    } else {
        let r = t_upsert(s, k, v);
        assert(r[0] == s[0]);
        assert(r.skip(1) =~= t_upsert(s.skip(1), k, v));
        lemma_upsert_distinct(s.skip(1), k, v);
        lemma_get_upsert(s.skip(1), k, v, s[0].0);
    }
}

pub proof fn lemma_removed_distinct<V>(s: Seq<(Key, V)>, k: Key)
    requires
        t_distinct(s),
    ensures
        t_distinct(t_removed(s, k)),
    decreases s.len(),
{
    if s.len() == 0 {
    } else if s[0].0 == k {
        lemma_removed_distinct(s.skip(1), k);
    } else {
        let r = t_removed(s, k);
        assert(r[0] == s[0]);
        assert(r.skip(1) =~= t_removed(s.skip(1), k));
        lemma_removed_distinct(s.skip(1), k);
        lemma_get_removed(s.skip(1), k, s[0].0);
    }
}

/// A pushed entry with a fresh key keeps the table distinct.
pub proof fn lemma_push_distinct<V>(s: Seq<(Key, V)>, k: Key, v: V)
    requires
        t_distinct(s),
        !t_has(s, k),
    ensures
        t_distinct(s.push((k, v))),
    decreases s.len(),
{
    let r = s.push((k, v));
    if s.len() == 0 {
        assert(r.skip(1) =~= Seq::<(Key, V)>::empty());
        assert(t_distinct(Seq::<(Key, V)>::empty()));
        assert(t_get(Seq::<(Key, V)>::empty(), k) == None::<V>);
    } else {
        assert(s[0].0 != k);
        assert(r[0] == s[0]);
        assert(r.skip(1) =~= s.skip(1).push((k, v)));
        lemma_push_distinct(s.skip(1), k, v);
        lemma_get_push(s.skip(1), k, v, s[0].0);
    }
}

/// Lookup in a pushed table.
pub proof fn lemma_get_push<V>(s: Seq<(Key, V)>, k: Key, v: V, q: Key)
    requires
        !t_has(s, k),
    ensures
        t_get(s.push((k, v)), q) == if q == k {
            Some(v)
        } else {
            t_get(s, q)
        },
    decreases s.len(),
{
    let r = s.push((k, v));
    if s.len() == 0 {
        assert(r.skip(1) =~= Seq::<(Key, V)>::empty());
        assert(t_get(Seq::<(Key, V)>::empty(), q) == None::<V>);
    } else {
        assert(r[0] == s[0]);
        assert(r.skip(1) =~= s.skip(1).push((k, v)));
        lemma_get_push(s.skip(1), k, v, q);
    }
}

/// Distinctness, read off by index pairs.
pub proof fn lemma_distinct_index<V>(s: Seq<(Key, V)>)
    requires
        t_distinct(s),
    ensures
        forall|i: int, j: int|
            0 <= i < j < s.len() ==> (#[trigger] s[i]).0 != (#[trigger] s[j]).0,
    decreases s.len(),
{
    if s.len() == 0 {
    } else {
        lemma_distinct_index(s.skip(1));
        assert forall|i: int, j: int| 0 <= i < j < s.len() implies (#[trigger] s[i]).0 != (
        #[trigger] s[j]).0 by {
            if i == 0 {
                lemma_distinct_get_at(s.skip(1), j - 1);
                assert(s.skip(1)[j - 1] == s[j]);
                if s[i].0 == s[j].0 {
                    assert(t_has(s.skip(1), s[0].0));
                    assert(false);
                }
            } else {
                assert(s.skip(1)[i - 1] == s[i]);
                assert(s.skip(1)[j - 1] == s[j]);
            }
        }
    }
}

/// Every entry of a removal result is an entry of the original table.
pub proof fn lemma_removed_cases<V>(s: Seq<(Key, V)>, k: Key)
    ensures
        forall|j: int|
            0 <= j < t_removed(s, k).len() ==> exists|i: int|
                0 <= i < s.len() && (#[trigger] t_removed(s, k)[j]) == s[i],
    decreases s.len(),
{
    let r = t_removed(s, k);
    if s.len() == 0 {
    } else if s[0].0 == k {
        lemma_removed_cases(s.skip(1), k);
        assert forall|j: int| 0 <= j < r.len() implies exists|i: int|
            0 <= i < s.len() && (#[trigger] r[j]) == s[i] by {
            let i0 = choose|i0: int|
                0 <= i0 < s.skip(1).len() && (#[trigger] t_removed(s.skip(1), k)[j]) == s.skip(
                    1,
                )[i0];
            assert(r[j] == s[i0 + 1]);
        }
    } else {
        assert(r == seq![s[0]] + t_removed(s.skip(1), k));
        lemma_removed_cases(s.skip(1), k);
        assert forall|j: int| 0 <= j < r.len() implies exists|i: int|
            0 <= i < s.len() && (#[trigger] r[j]) == s[i] by {
            if j == 0 {
                assert(r[0] == s[0]);
            } else {
                assert(r[j] == t_removed(s.skip(1), k)[j - 1]);
                let i0 = choose|i0: int|
                    0 <= i0 < s.skip(1).len() && (#[trigger] t_removed(s.skip(1), k)[j - 1])
                        == s.skip(1)[i0];
                assert(r[j] == s[i0 + 1]);
            }
        }
    }
}

/// Every entry of an upsert result is either the new entry or an entry of
/// the original table at the same position.
pub proof fn lemma_upsert_cases<V>(s: Seq<(Key, V)>, k: Key, v: V)
    ensures
        forall|j: int|
            0 <= j < t_upsert(s, k, v).len() ==> ((#[trigger] t_upsert(s, k, v)[j]) == (k, v) || (
            0 <= j < s.len() && t_upsert(s, k, v)[j] == s[j])),
    decreases s.len(),
{
    let r = t_upsert(s, k, v);
    if s.len() == 0 {
    } else if s[0].0 == k {
        assert(r == seq![(k, v)] + s.skip(1));
        assert forall|j: int| 0 <= j < r.len() implies ((#[trigger] r[j]) == (k, v) || (0 <= j
            < s.len() && r[j] == s[j])) by {
            if j > 0 {
                assert(r[j] == s.skip(1)[j - 1]);
                assert(s.skip(1)[j - 1] == s[j]);
            }
        }
    } else {
        assert(r == seq![s[0]] + t_upsert(s.skip(1), k, v));
        lemma_upsert_cases(s.skip(1), k, v);
        assert forall|j: int| 0 <= j < r.len() implies ((#[trigger] r[j]) == (k, v) || (0 <= j
            < s.len() && r[j] == s[j])) by {
            if j > 0 {
                assert(r[j] == t_upsert(s.skip(1), k, v)[j - 1]);
                if t_upsert(s.skip(1), k, v)[j - 1] == (k, v) {
                } else {
                    assert(t_upsert(s.skip(1), k, v)[j - 1] == s.skip(1)[j - 1]);
                    assert(s.skip(1)[j - 1] == s[j]);
                }
            }
        }
    }
}

/// Two upserts at one key collapse to the last one.
pub proof fn lemma_upsert_upsert<V>(s: Seq<(Key, V)>, k: Key, v: V, w: V)
    ensures
        t_upsert(t_upsert(s, k, v), k, w) == t_upsert(s, k, w),
    decreases s.len(),
{
    let r1 = t_upsert(s, k, v);
    if s.len() == 0 {
        assert(r1 == seq![(k, v)]);
        assert(t_upsert(r1, k, w) =~= t_upsert(s, k, w));
    } else if s[0].0 == k {
        assert(r1 == seq![(k, v)] + s.skip(1));
        assert(r1[0] == (k, v));
        assert(r1.skip(1) =~= s.skip(1));
        assert(t_upsert(r1, k, w) =~= t_upsert(s, k, w));
    } else {
        assert(r1 == seq![s[0]] + t_upsert(s.skip(1), k, v));
        assert(r1[0] == s[0]);
        assert(r1.skip(1) =~= t_upsert(s.skip(1), k, v));
        lemma_upsert_upsert(s.skip(1), k, v, w);
        assert(t_upsert(r1, k, w) =~= t_upsert(s, k, w));
    }
}

/// A found value sits in the table as a full entry.
pub proof fn lemma_get_index<V>(s: Seq<(Key, V)>, k: Key)
    requires
        t_has(s, k),
    ensures
        exists|i: int| 0 <= i < s.len() && (#[trigger] s[i]) == (k, t_get(s, k).unwrap()),
    decreases s.len(),
{
    if s[0].0 == k {
        assert(s[0] == (k, t_get(s, k).unwrap()));
    } else {
        lemma_get_index(s.skip(1), k);
        let i = choose|i: int|
            0 <= i < s.skip(1).len() && (#[trigger] s.skip(1)[i]) == (
                k,
                t_get(s.skip(1), k).unwrap(),
            );
        assert(s[i + 1] == (k, t_get(s, k).unwrap()));
    }
}

/// In a distinct table, each entry is the one `t_get` finds for its key.
pub proof fn lemma_distinct_get_at<V>(s: Seq<(Key, V)>, i: int)
    requires
        t_distinct(s),
        0 <= i < s.len(),
    ensures
        t_get(s, s[i].0) == Some(s[i].1),
    decreases i,
{
    if i == 0 {
    } else {
        lemma_distinct_get_at(s.skip(1), i - 1);
        if s[0].0 == s[i].0 {
            lemma_distinct_get_at(s.skip(1), i - 1);
            assert(t_has(s.skip(1), s[0].0));
            assert(false);
        }
    }
}

/// An association table with unique keys, iterated in insertion order.
pub struct Table<V> {
    pub entries: Vec<(Key, V)>,
}

impl<V> View for Table<V> {
    type V = Seq<(Key, V)>;

    open spec fn view(&self) -> Seq<(Key, V)> {
        self.entries@
    }
}

impl<V: Copy> Table<V> {
    pub fn new() -> (r: Self)
        ensures
            r@ == Seq::<(Key, V)>::empty(),
            t_distinct(r@),
    {
        let r = Table { entries: Vec::new() };
        proof {
            assert(r@ =~= Seq::<(Key, V)>::empty());
        }
        r
    }

    pub fn len(&self) -> (n: usize)
        ensures
            n == self@.len(),
    {
        self.entries.len()
    }

    pub fn entry_at(&self, i: usize) -> (e: (Key, V))
        requires
            i < self@.len(),
        ensures
            e == self@[i as int],
    {
        self.entries[i]
    }

    pub fn get(&self, k: Key) -> (r: Option<V>)
        ensures
            r == t_get(self@, k),
    {
        let n = self.entries.len();
        let mut i: usize = 0;
        while i < n
            invariant
                n == self@.len(),
                i <= n,
                forall|j: int| 0 <= j < i ==> (#[trigger] self@[j]).0 != k,
            decreases n - i,
        {
            let e = self.entries[i];
            if e.0.0 == k.0 && e.0.1 == k.1 {
                proof {
                    lemma_get_found(self@, k, i as int);
                }
                return Some(e.1);
            }
            i += 1;
        }
        proof {
            lemma_get_none(self@, k);
        }
        None
    }

    /// Insert or replace the entry keyed `k`.
    pub fn set(&mut self, k: Key, v: V)
        ensures
            final(self)@ == t_upsert(old(self)@, k, v),
    {
        let n = self.entries.len();
        let mut i: usize = 0;
        while i < n
            invariant
                self@ == old(self)@,
                n == self@.len(),
                i <= n,
                forall|j: int| 0 <= j < i ==> (#[trigger] self@[j]).0 != k,
            decreases n - i,
        {
            let e = self.entries[i];
            if e.0.0 == k.0 && e.0.1 == k.1 {
                proof {
                    lemma_upsert_found(old(self)@, k, v, i as int);
                }
                self.entries.set(i, (k, v));
                return;
            }
            i += 1;
        }
        proof {
            lemma_upsert_none(old(self)@, k, v);
        }
        self.entries.push((k, v));
    }

    /// Remove the entry keyed `k`, if present.
    pub fn unset(&mut self, k: Key)
        requires
            t_distinct(old(self)@),
        ensures
            final(self)@ == t_removed(old(self)@, k),
    {
        let n = self.entries.len();
        let mut i: usize = 0;
        while i < n
            invariant
                self@ == old(self)@,
                t_distinct(old(self)@),
                n == self@.len(),
                i <= n,
                forall|j: int| 0 <= j < i ==> (#[trigger] self@[j]).0 != k,
            decreases n - i,
        {
            let e = self.entries[i];
            if e.0.0 == k.0 && e.0.1 == k.1 {
                proof {
                    lemma_removed_found(old(self)@, k, i as int);
                }
                self.entries.remove(i);
                return;
            }
            i += 1;
        }
        proof {
            lemma_get_none(old(self)@, k);
            lemma_removed_none(old(self)@, k);
        }
    }

    /// Append an entry whose key is known to be absent.
    pub fn push(&mut self, k: Key, v: V)
        ensures
            final(self)@ == old(self)@.push((k, v)),
    {
        self.entries.push((k, v));
    }

    pub fn count_acct(&self, a: u128) -> (n: usize)
        ensures
            n == t_count_acct(self@, a),
    {
        let len = self.entries.len();
        let mut i: usize = 0;
        let mut n: usize = 0;
        proof {
            assert(self@.skip(0) =~= self@);
        }
        while i < len
            invariant
                len == self@.len(),
                i <= len,
                n <= i,
                n + t_count_acct(self@.skip(i as int), a) == t_count_acct(self@, a),
            decreases len - i,
        {
            proof {
                assert(self@.skip(i as int)[0] == self@[i as int]);
                assert(self@.skip(i as int).skip(1) =~= self@.skip(i as int + 1));
            }
            let e = self.entries[i];
            if e.0.0 == a {
                n += 1;
            }
            i += 1;
        }
        proof {
            assert(self@.skip(len as int) =~= Seq::<(Key, V)>::empty());
        }
        n
    }

    /// An order-preserving copy.
    pub fn duplicate(&self) -> (r: Self)
        ensures
            r@ == self@,
    {
        let n = self.entries.len();
        let mut v: Vec<(Key, V)> = Vec::new();
        let mut i: usize = 0;
        while i < n
            invariant
                n == self@.len(),
                i <= n,
                v@ == self@.take(i as int),
            decreases n - i,
        {
            v.push(self.entries[i]);
            proof {
                assert(v@ =~= self@.take(i as int + 1));
            }
            i += 1;
        }
        proof {
            assert(self@.take(n as int) =~= self@);
        }
        Table { entries: v }
    }
}

} // verus!
