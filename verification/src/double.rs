//! Numbers as a double-precision float holds them.

use vstd::arithmetic::power2::{lemma2_to64, lemma_pow2_unfold, pow2};
use vstd::prelude::*;

verus! {

/// From here on a double does not hold every integer: it has 53 significant bits.
pub const DOUBLE_EXACT: u128 = 0x20_0000_0000_0000;

/// The distance between doubles at an integer `x`, where it is at least one.
pub open spec fn ulp(x: nat) -> nat
    decreases x,
{
    if x < DOUBLE_EXACT {
        1
    } else {
        2 * ulp(x / 2)
    }
}

/// The double next to an integer `x`; of two that are equally near, the one with
/// the even significand.
pub open spec fn nearest_double(x: nat) -> nat {
    let below = x / ulp(x);
    let rest = x % ulp(x);
    if 2 * rest > ulp(x) || (2 * rest == ulp(x) && below % 2 == 1) {
        (below + 1) * ulp(x)
    } else {
        below * ulp(x)
    }
}

/// The distance between doubles is small beside them.
proof fn lemma_ulp(x: nat)
    ensures
        1 <= ulp(x),
        x >= DOUBLE_EXACT ==> 8 * ulp(x) <= x,
    decreases x,
{
    if x >= DOUBLE_EXACT {
        lemma_ulp(x / 2);
    }
}

/// The double next to an integer is hardly greater.
pub proof fn lemma_nearest_double_bound(x: nat)
    ensures
        8 * nearest_double(x) <= 9 * x,
{
    lemma_ulp(x);
    let u = ulp(x);
    assert(x == u * (x / u) + x % u && x % u < u) by (nonlinear_arith)
        requires
            u > 0,
    ;
    assert((x / u + 1) * u == u * (x / u) + u) by (nonlinear_arith);
    assert((x / u) * u == u * (x / u)) by (nonlinear_arith);
}

/// Where a double does not hold every integer, the distance between doubles at `x` leaves
/// `x` 53 significant bits.
pub proof fn lemma_ulp_range(x: nat)
    ensures
        x < 0x20_0000_0000_0000 ==> ulp(x) == 1,
        x >= 0x20_0000_0000_0000 ==> 0x10_0000_0000_0000 * ulp(x) <= x < 0x20_0000_0000_0000
            * ulp(x),
    decreases x,
{
    if x >= DOUBLE_EXACT {
        lemma_ulp_range(x / 2);
    }
}

/// The distance between doubles is a power of two.
pub proof fn lemma_ulp_power(x: nat) -> (exponent: nat)
    ensures
        ulp(x) == pow2(exponent),
    decreases x,
{
    if x >= DOUBLE_EXACT {
        let half = lemma_ulp_power(x / 2);
        lemma_pow2_unfold(half + 1);
        half + 1
    } else {
        lemma2_to64();
        0
    }
}

/// The double next to an integer is no further away than half of their distance.
pub proof fn lemma_nearest_double_error(x: nat)
    ensures
        2 * (nearest_double(x) - x) <= ulp(x),
        2 * (x - nearest_double(x)) <= ulp(x),
{
    lemma_ulp(x);
    let u = ulp(x);
    assert(x == u * (x / u) + x % u && x % u < u) by (nonlinear_arith)
        requires
            u > 0,
    ;
    assert((x / u + 1) * u == u * (x / u) + u) by (nonlinear_arith);
    assert((x / u) * u == u * (x / u)) by (nonlinear_arith);
}

/// A double that is nearer to an integer than half of their distance is the one next to
/// it.
pub proof fn lemma_nearest_double_is(x: nat, double: nat, count: nat)
    requires
        double == count * ulp(x),
        x <= double,
        2 * (double - x) < ulp(x),
    ensures
        nearest_double(x) == double,
{
    lemma_ulp(x);
    let u = ulp(x);
    let (below, rest) = (x / u, x % u);
    assert(x == u * below + rest && rest < u) by (nonlinear_arith)
        requires
            u > 0,
            below == x / u,
            rest == x % u,
    ;
    assert((below + 1) * u == u * below + u) by (nonlinear_arith);
    assert(below * u == u * below) by (nonlinear_arith);
    if rest == 0 {
        assert(count == below) by (nonlinear_arith)
            requires
                count * u >= u * below,
                2 * (count * u - u * below) < u,
                u > 0,
        ;
    } else {
        assert(count == below + 1) by (nonlinear_arith)
            requires
                count * u >= u * below + rest,
                2 * (count * u - (u * below + rest)) < u,
                0 < rest < u,
                u > 0,
        ;
    }
}

/// The double next to `x`.
pub fn to_double(x: u128) -> (double: u128)
    requires
        2 * x <= u128::MAX,
    ensures
        double == nearest_double(x as nat),
{
    let mut rest: u128 = x;
    let mut ulp_x: u128 = 1;
    proof {
        lemma_ulp(x as nat);
    }
    while rest >= DOUBLE_EXACT
        invariant
            ulp(x as nat) == ulp_x * ulp(rest as nat),
            rest >= DOUBLE_EXACT ==> x >= DOUBLE_EXACT,
            x >= DOUBLE_EXACT ==> 8 * ulp(x as nat) <= x,
            2 * x <= u128::MAX,
        decreases rest,
    {
        proof {
            lemma_ulp((rest / 2) as nat);
            let half = ulp((rest / 2) as nat);
            assert(ulp_x * (2 * half) == (2 * ulp_x) * half) by (nonlinear_arith);
            assert((2 * ulp_x) * half >= 2 * ulp_x) by (nonlinear_arith)
                requires
                    half >= 1,
            ;
        }
        rest = rest / 2;
        ulp_x = 2 * ulp_x;
    }
    proof {
        let one = ulp(rest as nat);
        assert(ulp_x * one == ulp_x) by (nonlinear_arith)
            requires
                one == 1,
        ;
        lemma_ulp(x as nat);
        lemma_nearest_double_bound(x as nat);
    }
    let below: u128 = x / ulp_x;
    let above: u128 = x % ulp_x;
    proof {
        assert(x == ulp_x * below + above) by (nonlinear_arith)
            requires
                below == x / ulp_x,
                above == x % ulp_x,
                ulp_x > 0,
        ;
        assert(below * ulp_x == ulp_x * below) by (nonlinear_arith);
        assert((below + 1) * ulp_x == ulp_x * below + ulp_x) by (nonlinear_arith);
        assert(0 <= below * ulp_x) by (nonlinear_arith)
            requires
                below >= 0,
                ulp_x >= 0,
        ;
    }
    if above > ulp_x / 2 || (ulp_x % 2 == 0 && above == ulp_x / 2 && below % 2 == 1) {
        (below + 1) * ulp_x
    } else {
        below * ulp_x
    }
}

} // verus!
