//! Distribution of the remaining main-axis space among growing items.
//!
//! Item `k` receives the part of the remaining space that lies between the
//! rounded-down shares of the growth factors before it and up to it. Each
//! item is thereby within one pixel of `factor / total * remaining`, and the
//! parts add up to the remaining space exactly.

use vstd::prelude::*;
use vstd::arithmetic::div_mod::{lemma_div_is_ordered, lemma_div_multiples_vanish, lemma_div_pos_is_pos};
use crate::units::MAX_LENGTH;

verus! {

/// Sum of the first `k` entries of `s`.
pub open spec fn prefix_sum(s: Seq<int>, k: int) -> int
    decreases k,
{
    if k <= 0 {
        0
    } else {
        prefix_sum(s, k - 1) + s[k - 1]
    }
}

/// What an item of growth factor `factor` receives of `remaining`, when the
/// factors before it add up to `before` and all factors to `total`.
pub open spec fn flex_share(before: int, factor: int, total: int, remaining: int) -> int {
    if total > 0 {
        (before + factor) * remaining / total - before * remaining / total
    } else {
        0
    }
}

/// What the first `k` items receive together.
pub open spec fn shares_sum(factors: Seq<int>, remaining: int, k: int) -> int
    decreases k,
{
    if k <= 0 {
        0
    } else {
        shares_sum(factors, remaining, k - 1) + flex_share(
            prefix_sum(factors, k - 1),
            factors[k - 1],
            prefix_sum(factors, factors.len() as int),
            remaining,
        )
    }
}

/// A share is never negative and never more than what remains.
pub proof fn lemma_flex_share_bounds(before: int, factor: int, total: int, remaining: int)
    requires
        0 <= before,
        0 <= factor,
        before + factor <= total,
        0 <= remaining,
    ensures
        0 <= flex_share(before, factor, total, remaining) <= remaining,
        total > 0 ==> 0 <= before * remaining / total <= (before + factor) * remaining / total
            <= remaining,
{
    if total > 0 {
        assert(0 <= before * remaining <= (before + factor) * remaining <= total * remaining)
            by (nonlinear_arith)
            requires
                0 <= before,
                0 <= factor,
                before + factor <= total,
                0 <= remaining,
        ;
        lemma_div_pos_is_pos(before * remaining, total);
        lemma_div_is_ordered(before * remaining, (before + factor) * remaining, total);
        lemma_div_is_ordered((before + factor) * remaining, total * remaining, total);
        assert(total * remaining == remaining * total) by (nonlinear_arith);
        lemma_div_multiples_vanish(remaining, total);
    }
}

/// The first `k` items together receive the rounded-down share of the
/// factors up to `k`.
pub proof fn lemma_shares_telescope(factors: Seq<int>, remaining: int, k: int)
    requires
        0 <= k <= factors.len(),
        prefix_sum(factors, factors.len() as int) > 0,
    ensures
        shares_sum(factors, remaining, k) == prefix_sum(factors, k) * remaining / prefix_sum(
            factors,
            factors.len() as int,
        ),
    decreases k,
{
    let total = prefix_sum(factors, factors.len() as int);
    if k > 0 {
        lemma_shares_telescope(factors, remaining, k - 1);
    } else {
        assert(0 * remaining == 0) by (nonlinear_arith);
        vstd::arithmetic::div_mod::lemma_div_basics(total);
    }
}

/// Growing items share out the remaining space with nothing left over and
/// nothing added: with a positive total growth factor, the parts handed to
/// the items add up to the remaining space.
pub proof fn lemma_flex_conservation(factors: Seq<int>, remaining: int)
    requires
        forall|i: int| 0 <= i < factors.len() ==> factors[i] >= 0,
        prefix_sum(factors, factors.len() as int) > 0,
        remaining >= 0,
    ensures
        shares_sum(factors, remaining, factors.len() as int) == remaining,
{
    let total = prefix_sum(factors, factors.len() as int);
    lemma_shares_telescope(factors, remaining, factors.len() as int);
    assert(total * remaining == remaining * total) by (nonlinear_arith);
    lemma_div_multiples_vanish(remaining, total);
}

/// The part of `remaining` that falls to one item.
pub fn flex_share_of(before: u64, factor: u32, total: u64, remaining: i64) -> (r: i64)
    requires
        before + factor <= total,
        0 <= remaining <= MAX_LENGTH,
    ensures
        r == flex_share(before as int, factor as int, total as int, remaining as int),
        0 <= r <= remaining,
{
    if total == 0 {
        return 0;
    }
    proof {
        lemma_flex_share_bounds(before as int, factor as int, total as int, remaining as int);
        assert(0 <= (before as int) * (remaining as int) <= (before as int + factor as int) * (
        remaining as int) <= 0x1_0000_0000_0000_0000 * 0x1_0000_0000) by (nonlinear_arith)
            requires
                0 <= before <= before + factor <= 0x1_0000_0000_0000_0000,
                0 <= remaining <= 0x1_0000_0000,
        ;
    }
    let upto: u128 = (before as u128 + factor as u128) * (remaining as u128) / (total as u128);
    let from: u128 = (before as u128) * (remaining as u128) / (total as u128);
    (upto - from) as i64
}

} // verus!
