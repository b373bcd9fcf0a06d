//! Exact proportional arithmetic on 128-bit quantities.
//!
//! A reward share is `release * points / total_points`, rounded down. The
//! product of two 128-bit numbers needs up to 256 bits, so the quotient is
//! built by halving one factor: no intermediate value leaves the 128-bit range
//! unless the quotient itself does.

use vstd::prelude::*;
use vstd::arithmetic::div_mod::lemma_div_is_ordered;
use vstd::arithmetic::div_mod::lemma_fundamental_div_mod;
use vstd::arithmetic::div_mod::lemma_fundamental_div_mod_converse;

verus! {

/// The quotient of `a * b` by `d`, rounded down, over the unbounded integers.
pub open spec fn mul_div(a: int, b: int, d: int) -> int {
    (a * b) / d
}

/// A product of non-negative factors grows with its second factor.
pub proof fn lemma_product_grows(a: int, b1: int, b2: int)
    by (nonlinear_arith)
    requires
        0 <= a,
        0 <= b1 <= b2,
    ensures
        0 <= a * b1 <= a * b2,
{
}

/// `mul_div` is monotone in its second factor.
pub proof fn lemma_mul_div_monotone(a: int, b1: int, b2: int, d: int)
    requires
        0 <= a,
        0 <= b1 <= b2,
        0 < d,
    ensures
        0 <= mul_div(a, b1, d) <= mul_div(a, b2, d),
{
    lemma_product_grows(a, b1, b2);
    lemma_div_is_ordered(a * b1, a * b2, d);
    lemma_div_is_ordered(0, a * b1, d);
}

/// A share never exceeds the amount it is a share of.
pub proof fn lemma_mul_div_bounded(a: int, b: int, d: int)
    requires
        0 <= a,
        0 <= b <= d,
        0 < d,
    ensures
        0 <= mul_div(a, b, d) <= a,
{
    lemma_mul_div_monotone(a, b, d, d);
    lemma_mul_div_monotone(a, 0, b, d);
    assert(a * d == d * a) by (nonlinear_arith);
    vstd::arithmetic::div_mod::lemma_div_multiples_vanish(a, d);
}

/// Shares of disjoint parts add up to no more than the share of the whole:
/// `a * b1 / d + a * b2 / d <= a * (b1 + b2) / d`.
pub proof fn lemma_mul_div_superadditive(a: int, b1: int, b2: int, d: int)
    requires
        0 <= a,
        0 <= b1,
        0 <= b2,
        0 < d,
    ensures
        mul_div(a, b1, d) + mul_div(a, b2, d) <= mul_div(a, b1 + b2, d),
{
    let x1 = a * b1;
    let x2 = a * b2;
    lemma_product_grows(a, 0, b1);
    lemma_product_grows(a, 0, b2);
    assert(a * (b1 + b2) == x1 + x2) by (nonlinear_arith)
        requires
            x1 == a * b1,
            x2 == a * b2,
    ;
    lemma_fundamental_div_mod(x1, d);
    lemma_fundamental_div_mod(x2, d);
    let q = x1 / d + x2 / d;
    let r = x1 % d + x2 % d;
    assert(0 <= x1 % d < d && 0 <= x2 % d < d) by (nonlinear_arith)
        requires
            0 < d,
    ;
    assert(x1 + x2 == q * d + r) by (nonlinear_arith)
        requires
            x1 == d * (x1 / d) + (x1 % d),
            x2 == d * (x2 / d) + (x2 % d),
            q == x1 / d + x2 / d,
            r == x1 % d + x2 % d,
    ;
    if r < d {
        lemma_fundamental_div_mod_converse(x1 + x2, d, q, r);
    } else {
        assert(x1 + x2 == (q + 1) * d + (r - d)) by (nonlinear_arith)
            requires
                x1 + x2 == q * d + r,
        ;
        lemma_fundamental_div_mod_converse(x1 + x2, d, q + 1, r - d);
    }
}

/// Quotient and remainder of `a * b` by `d`, or `None` where the quotient
/// does not fit in 128 bits.
fn mul_div_rem(a: u128, b: u128, d: u128) -> (out: Option<(u128, u128)>)
    requires
        d > 0,
    ensures
        match out {
            Some((q, r)) => q == (a * b) / (d as int) && r == (a * b) % (d as int),
            None => (a * b) / (d as int) > u128::MAX,
        },
    decreases b,
{
    if b == 0 {
        proof {
            assert(a * b == 0) by (nonlinear_arith)
                requires
                    b == 0,
            ;
            lemma_fundamental_div_mod_converse(0, d as int, 0, 0);
        }
        return Some((0, 0));
    }
    let half: u128 = b / 2;
    let bit: u128 = b % 2;
    let ghost whole: int = a * b;
    let ghost part: int = a * half;
    proof {
        assert(whole == 2 * part + bit * a && 0 <= part) by (nonlinear_arith)
            requires
                whole == a * b,
                part == a * half,
                b == 2 * half + bit,
                0 <= a,
                0 <= half,
        ;
    }
    match mul_div_rem(a, half, d) {
        None => {
            proof {
                assert(part <= whole) by (nonlinear_arith)
                    requires
                        whole == 2 * part + bit * a,
                        0 <= part,
                        0 <= bit,
                        0 <= a,
                ;
                lemma_div_is_ordered(part, whole, d as int);
            }
            None
        },
        Some((q, r)) => {
            proof {
                lemma_fundamental_div_mod(part, d as int);
                assert(0 <= r < d) by (nonlinear_arith)
                    requires
                        r == part % (d as int),
                        d > 0,
                ;
            }
            // Twice the partial product: quotient 2q + carry, remainder r2.
            let carry: u128 = if r >= d - r { 1 } else { 0 };
            let r2: u128 = if r >= d - r { r - (d - r) } else { r + r };
            let ghost q2: int = 2 * q + carry;
            proof {
                assert(2 * part == q2 * d + r2) by (nonlinear_arith)
                    requires
                        part == d * q + r,
                        q2 == 2 * q + carry,
                        r2 == 2 * r - carry * d,
                ;
            }
            // The odd bit adds `a` once more: quotient qa, remainder ra.
            let qa: u128 = if bit == 1 { a / d } else { 0 };
            let ra: u128 = if bit == 1 { a % d } else { 0 };
            proof {
                lemma_fundamental_div_mod(a as int, d as int);
                assert(bit * a == d * qa + ra) by (nonlinear_arith)
                    requires
                        bit == 0 || bit == 1,
                        bit == 1 ==> a == d * qa + ra,
                        bit == 0 ==> qa == 0 && ra == 0,
                ;
            }
            let carry2: u128 = if r2 >= d - ra { 1 } else { 0 };
            let r3: u128 = if r2 >= d - ra { r2 - (d - ra) } else { r2 + ra };
            let ghost q3: int = q2 + qa + carry2;
            proof {
                assert(whole == q3 * d + r3) by (nonlinear_arith)
                    requires
                        whole == 2 * part + bit * a,
                        2 * part == q2 * d + r2,
                        bit * a == d * qa + ra,
                        q3 == q2 + qa + carry2,
                        r3 == r2 + ra - carry2 * d,
                ;
                lemma_fundamental_div_mod_converse(whole, d as int, q3, r3 as int);
            }
            if q > (u128::MAX - carry) / 2 {
                return None;
            }
            let doubled: u128 = 2 * q + carry;
            if qa > u128::MAX - doubled {
                return None;
            }
            let sum: u128 = doubled + qa;
            if carry2 > u128::MAX - sum {
                return None;
            }
            Some((sum + carry2, r3))
        },
    }
}

/// `a * b / d`, rounded down, computed without overflow of the product.
///
/// `None` exactly when `d` is zero or the quotient exceeds `u128::MAX`.
pub fn mul_div_floor(a: u128, b: u128, d: u128) -> (out: Option<u128>)
    ensures
        d == 0 ==> out is None,
        d > 0 && mul_div(a as int, b as int, d as int) > u128::MAX ==> out is None,
        d > 0 && mul_div(a as int, b as int, d as int) <= u128::MAX ==> out == Some(
            mul_div(a as int, b as int, d as int) as u128,
        ),
{
    if d == 0 {
        return None;
    }
    match mul_div_rem(a, b, d) {
        Some((q, _)) => Some(q),
        None => None,
    }
}

} // verus!
