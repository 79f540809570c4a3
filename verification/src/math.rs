//! Bounded rational arithmetic in parts per billion.
//!
//! Fractions of a balance are taken the way the host runtime's per-thing
//! arithmetic takes them: a ratio is first reduced to an integer number of
//! parts per billion, rounding toward zero, and a fraction of a balance is
//! the product with the parts divided by one billion, again rounding toward
//! zero.  Both steps are exact integer floors, so every node computes the
//! same rewards.

use vstd::prelude::*;
use vstd::arithmetic::div_mod::{
    lemma_div_is_ordered, lemma_div_multiples_vanish, lemma_div_pos_is_pos,
    lemma_fundamental_div_mod, lemma_hoist_over_denominator,
};
use vstd::arithmetic::mul::{
    lemma_mul_inequality, lemma_mul_is_commutative, lemma_mul_is_distributive_add,
    lemma_mul_is_distributive_add_other_way, lemma_mul_nonnegative, lemma_mul_upper_bound,
};
use crate::types::{Balance, Error, PERBILL_ONE};

verus! {

/// The floor of `b * parts / one_billion`.
pub open spec fn pb_mul(parts: int, b: int) -> int {
    (b * parts) / (PERBILL_ONE as int)
}

/// The ratio `x / y` as a floor number of parts per billion.
/// A zero denominator counts as zero parts, as the host arithmetic's
/// rational constructor treats it.
pub open spec fn pb_parts(x: int, y: int) -> int {
    if y == 0 {
        0
    } else {
        (x * (PERBILL_ONE as int)) / y
    }
}

/// The reward earned by `stake` out of a pool of `share` when the total
/// active stake is `total`: the stake's share of the pool, floored twice
/// through the parts-per-billion representation.
pub open spec fn reward_of(stake: int, total: int, share: int) -> int {
    pb_mul(pb_parts(stake, total), share)
}

/// `b * parts / one_billion`, computed without intermediate overflow.
pub fn perbill_mul(parts: u128, b: u128) -> (r: u128)
    requires
        parts <= PERBILL_ONE as u128,
    ensures
        r == pb_mul(parts as int, b as int),
        r <= b,
{
    let bil: u128 = 1_000_000_000;
    let q = b / bil;
    let rem = b % bil;
    proof {
        lemma_fundamental_div_mod(b as int, bil as int);
        lemma_mul_inequality(parts as int, bil as int, q as int);
        lemma_mul_is_commutative(q as int, parts as int);
        lemma_mul_is_commutative(q as int, bil as int);
        assert(q * parts <= q * bil <= b);
        lemma_mul_upper_bound(rem as int, (bil - 1) as int, parts as int, bil as int);
    }
    let hi = q * parts;
    let lo = (rem * parts) / bil;
    proof {
        lemma_mul_inequality(parts as int, bil as int, rem as int);
        lemma_mul_is_commutative(rem as int, parts as int);
        lemma_mul_is_commutative(rem as int, bil as int);
        lemma_div_is_ordered(rem * parts, rem * bil, bil as int);
        lemma_div_multiples_vanish(rem as int, bil as int);
        assert(lo <= rem);
        // b * parts == (q * parts) * bil + rem * parts
        lemma_mul_is_distributive_add_other_way(parts as int, (q * bil) as int, rem as int);
        vstd::arithmetic::mul::lemma_mul_is_associative(q as int, bil as int, parts as int);
        vstd::arithmetic::mul::lemma_mul_is_commutative(bil as int, parts as int);
        vstd::arithmetic::mul::lemma_mul_is_associative(q as int, parts as int, bil as int);
        assert(b * parts == rem * parts + (q * parts) * (bil as int)) by {
            assert(b == q * bil + rem);
            assert(b * parts == (q * bil + rem) * parts);
            assert((q * bil + rem) * parts == (q * bil) * parts + rem * parts);
            assert((q * bil) * parts == q * (bil * parts));
            assert(bil * parts == parts * bil);
            assert(q * (parts * bil) == (q * parts) * (bil as int));
        }
        lemma_hoist_over_denominator(rem * parts, (q * parts) as int, bil as nat);
        assert(hi + lo == (b * parts) / (bil as int));
    }
    hi + lo
}

/// `x / y` in parts per billion, rounding down; `x` must not exceed `y`.
/// Fails with `Overflow` exactly when `x` times one billion does not fit
/// the balance type.
pub fn perbill_from_rational(x: u128, y: u128) -> (r: Result<u128, Error>)
    requires
        x <= y,
    ensures
        match r {
            Ok(p) => p == pb_parts(x as int, y as int) && p <= PERBILL_ONE as u128,
            Err(e) => e == Error::Overflow,
        },
        r is Err <==> x * (PERBILL_ONE as int) > u128::MAX,
{
    let bil: u128 = 1_000_000_000;
    if y == 0 {
        Ok(0)
    } else {
        match x.checked_mul(bil) {
            None => Err(Error::Overflow),
            Some(n) => {
                let p = n / y;
                proof {
                    lemma_mul_inequality(x as int, y as int, bil as int);
                    lemma_div_is_ordered(x * bil, y * bil, y as int);
                    lemma_mul_is_commutative(y as int, bil as int);
                    lemma_div_multiples_vanish(bil as int, y as int);
                    assert(p <= bil);
                }
                Ok(p)
            },
        }
    }
}

/// Floor division distributes superadditively over addition.
pub proof fn lemma_div_superadd(a: int, b: int, d: int)
    requires
        a >= 0,
        b >= 0,
        d > 0,
    ensures
        a / d + b / d <= (a + b) / d,
{
    lemma_fundamental_div_mod(a, d);
    lemma_fundamental_div_mod(b, d);
    let ra = a % d;
    let rb = b % d;
    lemma_hoist_over_denominator(ra + rb, a / d + b / d, d as nat);
    assert(a + b == (ra + rb) + (a / d + b / d) * d) by {
        lemma_mul_is_distributive_add_other_way(d, a / d, b / d);
        lemma_mul_is_commutative(d, a / d);
        lemma_mul_is_commutative(d, b / d);
    }
    lemma_div_pos_is_pos(ra + rb, d);
}

pub proof fn lemma_pb_mul_nonneg(p: int, b: int)
    requires
        p >= 0,
        b >= 0,
    ensures
        pb_mul(p, b) >= 0,
{
    lemma_mul_nonnegative(b, p);
    lemma_div_pos_is_pos(b * p, PERBILL_ONE as int);
}

pub proof fn lemma_pb_parts_nonneg(x: int, y: int)
    requires
        x >= 0,
        y >= 0,
    ensures
        pb_parts(x, y) >= 0,
{
    if y != 0 {
        lemma_mul_nonnegative(x, PERBILL_ONE as int);
        lemma_div_pos_is_pos(x * (PERBILL_ONE as int), y);
    }
}

/// Two fractions of one pool never exceed the fraction of the summed
/// parts.
pub proof fn lemma_pb_mul_superadd(p1: int, p2: int, b: int)
    requires
        p1 >= 0,
        p2 >= 0,
        b >= 0,
    ensures
        pb_mul(p1, b) + pb_mul(p2, b) <= pb_mul(p1 + p2, b),
{
    lemma_mul_is_distributive_add(b, p1, p2);
    lemma_mul_nonnegative(b, p1);
    lemma_mul_nonnegative(b, p2);
    lemma_div_superadd(b * p1, b * p2, PERBILL_ONE as int);
}

pub proof fn lemma_pb_mul_mono(p1: int, p2: int, b: int)
    requires
        0 <= p1 <= p2,
        b >= 0,
    ensures
        pb_mul(p1, b) <= pb_mul(p2, b),
{
    lemma_mul_inequality(p1, p2, b);
    lemma_mul_is_commutative(p1, b);
    lemma_mul_is_commutative(p2, b);
    lemma_div_is_ordered(b * p1, b * p2, PERBILL_ONE as int);
}

/// A full billion parts of a pool is the pool.
pub proof fn lemma_pb_mul_one(b: int)
    requires
        b >= 0,
    ensures
        pb_mul(PERBILL_ONE as int, b) == b,
{
    lemma_mul_is_commutative(b, PERBILL_ONE as int);
    lemma_div_multiples_vanish(b, PERBILL_ONE as int);
}

/// Parts of two summands never exceed the parts of their sum.
pub proof fn lemma_pb_parts_superadd(x1: int, x2: int, y: int)
    requires
        x1 >= 0,
        x2 >= 0,
        y >= 0,
    ensures
        pb_parts(x1, y) + pb_parts(x2, y) <= pb_parts(x1 + x2, y),
{
    if y != 0 {
        lemma_mul_is_distributive_add_other_way(PERBILL_ONE as int, x1, x2);
        lemma_mul_nonnegative(x1, PERBILL_ONE as int);
        lemma_mul_nonnegative(x2, PERBILL_ONE as int);
        lemma_div_superadd(x1 * (PERBILL_ONE as int), x2 * (PERBILL_ONE as int), y);
    }
}

/// A part never exceeds the whole.
pub proof fn lemma_pb_parts_le_one(x: int, y: int)
    requires
        0 <= x <= y,
    ensures
        pb_parts(x, y) <= PERBILL_ONE as int,
{
    if y != 0 {
        lemma_mul_inequality(x, y, PERBILL_ONE as int);
        lemma_div_is_ordered(x * (PERBILL_ONE as int), y * (PERBILL_ONE as int), y);
        lemma_mul_is_commutative(y, PERBILL_ONE as int);
        lemma_div_multiples_vanish(PERBILL_ONE as int, y);
    }
}

/// The reward for `stake` out of `share` at total active stake `total`.
pub fn reward_for(stake: u128, total: u128, share: u128) -> (r: Result<u128, Error>)
    requires
        stake <= total,
    ensures
        match r {
            Ok(v) => v == reward_of(stake as int, total as int, share as int) && v <= share,
            Err(e) => e == Error::Overflow,
        },
        r is Err <==> stake * (PERBILL_ONE as int) > u128::MAX,
{
    match perbill_from_rational(stake, total) {
        Err(e) => Err(e),
        Ok(parts) => Ok(perbill_mul(parts, share)),
    }
}

} // verus!
