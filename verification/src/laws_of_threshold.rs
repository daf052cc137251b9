//! What holds of the stake that the ingress nodes of an origin have to have.

use crate::double::{
    lemma_nearest_double_error, lemma_nearest_double_is, lemma_ulp_power, lemma_ulp_range,
    nearest_double, ulp,
};
use crate::prune::threshold_of;
use vstd::arithmetic::power2::{
    lemma2_to64_rest, lemma_pow2_adds, lemma_pow2_pos, lemma_pow2_strictly_increases, pow2,
};
use vstd::prelude::*;

verus! {

/// The stake that ingress nodes have to have is 15 of 100 parts of the lower of the two
/// stakes, rounded to the next whole number, halves up, and at least one. This is exact as
/// long as that stake is less than 2^50.
pub proof fn law_threshold_is_fifteen_percent(self_stake: u64, origin_stake: u64)
    requires
        self_stake < 0x4_0000_0000_0000 || origin_stake < 0x4_0000_0000_0000,
    ensures
        ({
            let stake = if self_stake < origin_stake { self_stake } else { origin_stake };
            let share = (15 * stake + 50) / 100;
            threshold_of(self_stake, origin_stake) == if share < 1 { 1 } else { share }
        }),
{
    let stake: nat = if self_stake < origin_stake { self_stake as nat } else { origin_stake as nat };
    let q = (15 * stake + 50) / 100;
    let pct: nat = 5_404_319_552_844_595;
    let unit: nat = 0x80_0000_0000_0000;
    let x = stake * pct;
    let u = ulp(x);
    let share = nearest_double(x);
    lemma_ulp_range(stake);
    assert(nearest_double(stake) == stake);
    lemma_ulp_range(x);
    lemma_nearest_double_error(x);
    assert(u < 0x8_0000_0000_0000);
    assert(20 * q <= 3 * stake + 10 < 20 * q + 20);
    if 3 * stake + 10 == 20 * q {
        let exponent = lemma_ulp_power(x);
        lemma2_to64_rest();
        if exponent >= 51 {
            if exponent > 51 {
                lemma_pow2_strictly_increases(51, exponent);
            }
        }
        lemma_pow2_adds(exponent, (54 - exponent) as nat);
        let rest = pow2((54 - exponent) as nat);
        let odd = (2 * q - 1) as nat;
        let boundary = odd * 0x40_0000_0000_0000;
        assert(boundary == (odd * rest) * u) by (nonlinear_arith)
            requires
                boundary == odd * 0x40_0000_0000_0000,
                u * rest == 0x40_0000_0000_0000,
        ;
        lemma_nearest_double_is(x, boundary as nat, odd * rest);
    }
    assert(share + unit / 2 >= q * unit);
    assert(share + unit / 2 < (q + 1) * unit);
    assert((share + unit / 2) / unit == q);
}

/// For greater stakes, of which doubles do not hold each one, the stake that is needed is
/// off by no more than one part in 2^50, and by the rounding.
pub proof fn law_threshold_is_near_fifteen_percent(self_stake: u64, origin_stake: u64)
    ensures
        ({
            let stake = if self_stake < origin_stake { self_stake } else { origin_stake };
            let threshold = threshold_of(self_stake, origin_stake);
            &&& 20 * threshold <= 3 * stake + stake / 0x4_0000_0000_0000 + 20
            &&& 20 * threshold >= 3 * stake - stake / 0x4_0000_0000_0000 - 20
        }),
{
    let stake: nat = if self_stake < origin_stake { self_stake as nat } else { origin_stake as nat };
    let pct: nat = 5_404_319_552_844_595;
    let held = nearest_double(stake);
    let exact = held * pct;
    lemma_ulp_range(stake);
    lemma_nearest_double_error(stake);
    lemma_ulp_range(exact);
    lemma_nearest_double_error(exact);
}

/// The double next to an integer is a multiple of the distance that doubles have there, which
/// is a power of two and leaves the integer 53 significant bits. It is no further away than
/// half of that distance and, where another double is as near, an even multiple.
pub proof fn law_doubles_are_the_nearest(x: nat) -> (found: (nat, nat))
    ensures
        ({
            let (exponent, count) = found;
            let distance = pow2(exponent);
            let double = nearest_double(x);
            &&& x < 0x20_0000_0000_0000 ==> distance == 1
            &&& x >= 0x20_0000_0000_0000 ==> 0x10_0000_0000_0000 * distance <= x
                < 0x20_0000_0000_0000 * distance
            &&& double == count * distance
            &&& 2 * (double - x) <= distance
            &&& 2 * (x - double) <= distance
            &&& 2 * (double - x) == distance || 2 * (x - double) == distance ==> count % 2 == 0
        }),
{
    let exponent = lemma_ulp_power(x);
    let u = ulp(x);
    lemma_ulp_range(x);
    lemma_nearest_double_error(x);
    let (below, rest) = (x / u, x % u);
    let up = 2 * rest > u || (2 * rest == u && below % 2 == 1);
    let count: nat = if up { below + 1 } else { below };
    assert(u > 0) by {
        lemma_pow2_pos(exponent);
    }
    assert(x == u * below + rest && rest < u) by (nonlinear_arith)
        requires
            u > 0,
            below == x / u,
            rest == x % u,
    ;
    assert((below + 1) * u == u * below + u) by (nonlinear_arith);
    assert(below * u == u * below) by (nonlinear_arith);
    (exponent, count)
}

} // verus!
