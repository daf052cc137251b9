//! A random order in which items of greater weight tend to come first.

use crate::random::{draw_seeded, drawn};
use vstd::prelude::*;

verus! {

/// Draws are at least this.
pub const MIN_DRAW: u64 = 1;

/// Draws are less than this.
pub const DRAW_LIMIT: u64 = 65_535;

/// The sum of the first `count` weights.
pub open spec fn sum_of(weights: Seq<u64>, count: nat) -> nat
    decreases count,
{
    if count == 0 {
        0
    } else {
        sum_of(weights, (count - 1) as nat) + weights[count - 1] as nat
    }
}

/// The index `a` comes before the index `b`: it has the lower rank or, at the same
/// rank, is the lower one.
pub open spec fn comes_before(ranks: Seq<nat>, a: usize, b: usize) -> bool {
    ranks[a as int] < ranks[b as int] || (ranks[a as int] == ranks[b as int] && a < b)
}

/// `order` lists the indices of `ranks` from the lowest rank on.
pub open spec fn is_ranking(ranks: Seq<nat>, order: Seq<usize>) -> bool {
    &&& is_permutation(order, ranks.len())
    &&& forall|i: int, j: int|
        #![trigger order[i], order[j]]
        0 <= i < j < order.len() ==> comes_before(ranks, order[i], order[j])
}

/// `order` lists each index below `len` once.
pub open spec fn is_permutation(order: Seq<usize>, len: nat) -> bool {
    &&& order.len() == len
    &&& forall|i: int| 0 <= i < order.len() ==> #[trigger] order[i] < len
    &&& forall|i: int, j: int|
        #![trigger order[i], order[j]]
        0 <= i < j < order.len() ==> order[i] != order[j]
    &&& forall|index: int| 0 <= index < len ==> #[trigger] is_listed(order, index)
}

/// `index` occurs in `order`.
pub open spec fn is_listed(order: Seq<usize>, index: int) -> bool {
    exists|i: int| 0 <= i < order.len() && #[trigger] order[i] == index
}

/// The ranks of items: their draws, times what they weigh less than all together.
pub open spec fn ranks_of(draws: Seq<u64>, inverse_weights: Seq<u64>) -> Seq<nat> {
    Seq::new(inverse_weights.len(), |i: int| draws[i] as nat * inverse_weights[i] as nat)
}

/// How many times the weight of each item goes into that of all together.
pub open spec fn inverse_of(weights: Seq<u64>) -> Seq<u64> {
    Seq::new(
        weights.len(),
        |i: int| (sum_of(weights, weights.len()) / weights[i] as nat) as u64,
    )
}

/// The ranks as numbers of the mathematical kind.
pub open spec fn as_nats(ranks: Seq<u128>) -> Seq<nat> {
    Seq::new(ranks.len(), |i: int| ranks[i] as nat)
}

/// `draws` are `count` numbers from 1 to 65534.
pub open spec fn are_draws(draws: Seq<u64>, count: nat) -> bool {
    &&& draws.len() == count
    &&& forall|i: int| 0 <= i < count ==> 1 <= #[trigger] draws[i] <= 65_534
}

/// `order` is one in which some seed puts items of these inverse weights.
pub open spec fn is_weighted_order(inverse_weights: Seq<u64>, order: Seq<usize>) -> bool {
    exists|seed: Seq<u8>|
        #![trigger drawn(seed, MIN_DRAW, DRAW_LIMIT, inverse_weights.len())]
        {
            &&& seed.len() == 32
            &&& are_draws(
                drawn(seed, MIN_DRAW, DRAW_LIMIT, inverse_weights.len()),
                inverse_weights.len(),
            )
            &&& is_ranking(
                ranks_of(
                    drawn(seed, MIN_DRAW, DRAW_LIMIT, inverse_weights.len()),
                    inverse_weights,
                ),
                order,
            )
        }
}

/// Sums of fewer weights are not greater.
pub proof fn lemma_sum_grows(weights: Seq<u64>, fewer: nat, more: nat)
    requires
        fewer <= more,
    ensures
        sum_of(weights, fewer) <= sum_of(weights, more),
    decreases more,
{
    if fewer < more {
        lemma_sum_grows(weights, fewer, (more - 1) as nat);
    }
}

/// Lists the indices of `ranks` from the lowest rank on; among equal ranks the
/// lower index comes first.
pub fn order_by_rank(ranks: &Vec<u128>) -> (order: Vec<usize>)
    ensures
        is_ranking(as_nats(ranks@), order@),
{
    let ghost all = as_nats(ranks@);
    let mut order: Vec<usize> = Vec::new();
    let mut i: usize = 0;
    while i < ranks.len()
        invariant
            i <= ranks@.len(),
            all == as_nats(ranks@),
            is_permutation(order@, i as nat),
            forall|a: int, b: int|
                #![trigger order@[a], order@[b]]
                0 <= a < b < order@.len() ==> comes_before(all, order@[a], order@[b]),
        decreases ranks@.len() - i,
    {
        let mut place: usize = i;
        while place > 0 && ranks[order[place - 1]] > ranks[i]
            invariant
                place <= i < ranks@.len(),
                all == as_nats(ranks@),
                is_permutation(order@, i as nat),
                forall|a: int| place <= a < i ==> ranks@[#[trigger] order@[a] as int] > ranks@[i as int],
            decreases place,
        {
            place -= 1;
        }
        let ghost before = order@;
        order.insert(place, i);
        proof {
            assert forall|a: int| 0 <= a < order@.len() implies #[trigger] order@[a] == (if a < place {
                before[a]
            } else if a == place {
                i
            } else {
                before[a - 1]
            }) by {}
            assert forall|index: int| 0 <= index < i + 1 implies #[trigger] is_listed(
                order@,
                index,
            ) by {
                if index == i {
                    assert(order@[place as int] == index);
                } else {
                    assert(is_listed(before, index));
                    let a = choose|a: int| 0 <= a < before.len() && #[trigger] before[a] == index;
                    if a < place {
                        assert(order@[a] == index);
                    } else {
                        assert(order@[a + 1] == index);
                    }
                }
            }
            assert forall|a: int, b: int|
                #![trigger order@[a], order@[b]]
                0 <= a < b < order@.len() implies comes_before(all, order@[a], order@[b]) by {
                if b == place {
                    if a < place - 1 {
                        assert(comes_before(all, before[a], before[place - 1]));
                    }
                }
            }
        }
        i += 1;
    }
    order
}

/// Lists the indices of `inverse_weights` in a random order that `seed` decides.
/// Each item draws a number, and those whose draw times inverse weight is lower
/// come first.
pub fn shuffle_by_inverse_weight(inverse_weights: &Vec<u64>, seed: &[u8; 32]) -> (order: Vec<usize>)
    ensures
        are_draws(
            drawn(seed@, MIN_DRAW, DRAW_LIMIT, inverse_weights@.len()),
            inverse_weights@.len(),
        ),
        is_ranking(
            ranks_of(
                drawn(seed@, MIN_DRAW, DRAW_LIMIT, inverse_weights@.len()),
                inverse_weights@,
            ),
            order@,
        ),
{
    let draws: Vec<u64> = draw_seeded(seed, MIN_DRAW, DRAW_LIMIT, inverse_weights.len());
    let mut ranks: Vec<u128> = Vec::new();
    let mut i: usize = 0;
    while i < inverse_weights.len()
        invariant
            i <= inverse_weights@.len(),
            draws@.len() == inverse_weights@.len(),
            ranks@.len() == i,
            forall|j: int| 0 <= j < i ==> #[trigger] ranks@[j] == draws@[j] * inverse_weights@[j],
        decreases inverse_weights@.len() - i,
    {
        proof {
            let (d, w) = (draws@[i as int], inverse_weights@[i as int]);
            assert(0 <= d * w <= u128::MAX) by (nonlinear_arith)
                requires
                    0 <= d <= 0xffff_ffff_ffff_ffffu64,
                    0 <= w <= 0xffff_ffff_ffff_ffffu64,
            ;
        }
        ranks.push(draws[i] as u128 * inverse_weights[i] as u128);
        i += 1;
    }
    proof {
        assert(as_nats(ranks@) =~= ranks_of(draws@, inverse_weights@)) by {
            assert forall|j: int| 0 <= j < ranks@.len() implies as_nats(ranks@)[j] == ranks_of(
                draws@,
                inverse_weights@,
            )[j] by {
                let (d, w) = (draws@[j], inverse_weights@[j]);
                assert(d as nat * w as nat == d * w) by (nonlinear_arith);
                assert(ranks@[j] == d * w);
            }
        }
    }
    order_by_rank(&ranks)
}

/// Lists the indices of `weights` in a random order that `seed` decides, in which
/// items of greater weight tend to come first.
pub fn weighted_shuffle(weights: &Vec<u64>, seed: &[u8; 32]) -> (order: Vec<usize>)
    requires
        sum_of(weights@, weights@.len()) <= u64::MAX,
        forall|i: int| 0 <= i < weights@.len() ==> #[trigger] weights@[i] > 0,
    ensures
        are_draws(drawn(seed@, MIN_DRAW, DRAW_LIMIT, weights@.len()), weights@.len()),
        is_ranking(
            ranks_of(drawn(seed@, MIN_DRAW, DRAW_LIMIT, weights@.len()), inverse_of(weights@)),
            order@,
        ),
{
    let mut total: u64 = 0;
    let mut i: usize = 0;
    while i < weights.len()
        invariant
            i <= weights@.len(),
            sum_of(weights@, weights@.len()) <= u64::MAX,
            total == sum_of(weights@, i as nat),
        decreases weights@.len() - i,
    {
        proof {
            lemma_sum_grows(weights@, (i + 1) as nat, weights@.len());
        }
        total += weights[i];
        i += 1;
    }
    let mut inverse: Vec<u64> = Vec::new();
    let mut i: usize = 0;
    while i < weights.len()
        invariant
            i <= weights@.len(),
            forall|i: int| 0 <= i < weights@.len() ==> #[trigger] weights@[i] > 0,
            total == sum_of(weights@, weights@.len()),
            inverse@.len() == i,
            forall|j: int| 0 <= j < i ==> #[trigger] inverse@[j] == inverse_of(weights@)[j],
        decreases weights@.len() - i,
    {
        assert(weights@[i as int] > 0);
        inverse.push(total / weights[i]);
        i += 1;
    }
    assert(inverse@ =~= inverse_of(weights@));
    shuffle_by_inverse_weight(&inverse, seed)
}

} // verus!
