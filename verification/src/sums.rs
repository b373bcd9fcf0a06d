//! Sums of sequences of natural numbers, and the facts about them that the
//! ledger's bookkeeping rests on.

use vstd::prelude::*;
use crate::arith::lemma_mul_div_superadditive;
use crate::arith::mul_div;

verus! {

/// The sum of all elements of `s`.
pub open spec fn sum(s: Seq<nat>) -> nat
    decreases s.len(),
{
    if s.len() == 0 {
        0
    } else {
        sum(s.drop_last()) + s.last()
    }
}

/// Appending an element adds it to the sum.
pub proof fn lemma_sum_push(s: Seq<nat>, x: nat)
    ensures
        sum(s.push(x)) == sum(s) + x,
{
    assert(s.push(x).drop_last() =~= s);
}

/// The sum of the first `k + 1` elements is that of the first `k` plus the
/// element at `k`.
pub proof fn lemma_sum_take_next(s: Seq<nat>, k: int)
    requires
        0 <= k < s.len(),
    ensures
        sum(s.take(k + 1)) == sum(s.take(k)) + s[k],
{
    assert(s.take(k + 1).drop_last() =~= s.take(k));
}

/// The sum of no elements is zero, and taking all elements takes the whole.
pub proof fn lemma_sum_take_ends(s: Seq<nat>)
    ensures
        sum(s.take(0)) == 0,
        sum(s.take(s.len() as int)) == sum(s),
{
    assert(s.take(s.len() as int) =~= s);
}

/// A prefix sums to no more than the whole.
pub proof fn lemma_sum_prefix_le(s: Seq<nat>, k: int)
    requires
        0 <= k <= s.len(),
    ensures
        sum(s.take(k)) <= sum(s),
    decreases s.len() - k,
{
    if k == s.len() {
        lemma_sum_take_ends(s);
    } else {
        lemma_sum_take_next(s, k);
        lemma_sum_prefix_le(s, k + 1);
    }
}

/// No element exceeds the sum.
pub proof fn lemma_sum_bounds_element(s: Seq<nat>, i: int)
    requires
        0 <= i < s.len(),
    ensures
        s[i] <= sum(s),
{
    lemma_sum_take_next(s, i);
    lemma_sum_prefix_le(s, i + 1);
}

/// Replacing one element changes the sum by the difference.
pub proof fn lemma_sum_update(s: Seq<nat>, i: int, x: nat)
    requires
        0 <= i < s.len(),
    ensures
        sum(s.update(i, x)) + s[i] == sum(s) + x,
    decreases s.len(),
{
    if i == s.len() - 1 {
        assert(s.update(i, x).drop_last() =~= s.drop_last());
    } else {
        lemma_sum_update(s.drop_last(), i, x);
        assert(s.update(i, x).drop_last() =~= s.drop_last().update(i, x));
    }
}

/// Removing the element at `i` by moving the last element into its place
/// takes that element out of the sum.
pub proof fn lemma_sum_swap_remove(s: Seq<nat>, i: int)
    requires
        0 <= i < s.len(),
    ensures
        sum(s.update(i, s.last()).drop_last()) + s[i] == sum(s),
{
    if i == s.len() - 1 {
        assert(s.update(i, s.last()).drop_last() =~= s.drop_last());
    } else {
        lemma_sum_update(s.drop_last(), i, s.last());
        assert(s.update(i, s.last()).drop_last() =~= s.drop_last().update(i, s.last()));
    }
}

/// A sequence of zeros sums to zero.
pub proof fn lemma_sum_of_zeros(s: Seq<nat>)
    requires
        forall|i: int| 0 <= i < s.len() ==> s[i] == 0,
    ensures
        sum(s) == 0,
    decreases s.len(),
{
    if s.len() > 0 {
        lemma_sum_of_zeros(s.drop_last());
    }
}

/// Adding two sequences element by element adds their sums.
pub proof fn lemma_sum_add(a: Seq<nat>, b: Seq<nat>, both: Seq<nat>)
    requires
        a.len() == b.len(),
        both.len() == a.len(),
        forall|i: int| 0 <= i < a.len() ==> both[i] == a[i] + b[i],
    ensures
        sum(both) == sum(a) + sum(b),
    decreases a.len(),
{
    if a.len() > 0 {
        lemma_sum_add(a.drop_last(), b.drop_last(), both.drop_last());
    }
}

/// If each share is at most the rounded-down proportional part of `amount`
/// that its points call for, the shares sum to no more than the rounded-down
/// part that all the points together call for.
pub proof fn lemma_sum_of_shares(points: Seq<nat>, shares: Seq<nat>, amount: nat, total: nat)
    requires
        total > 0,
        shares.len() == points.len(),
        forall|i: int|
            0 <= i < points.len() ==> shares[i] <= mul_div(
                amount as int,
                points[i] as int,
                total as int,
            ),
    ensures
        sum(shares) <= mul_div(amount as int, sum(points) as int, total as int),
    decreases points.len(),
{
    if points.len() == 0 {
        assert(amount * 0 == 0) by (nonlinear_arith);
        assert(0int / (total as int) == 0) by (nonlinear_arith)
            requires
                total > 0,
        ;
    } else {
        lemma_sum_of_shares(points.drop_last(), shares.drop_last(), amount, total);
        lemma_mul_div_superadditive(
            amount as int,
            sum(points.drop_last()) as int,
            points.last() as int,
            total as int,
        );
    }
}

} // verus!
