//! What holds of the random orders in which nodes are taken.

use crate::prune::lemma_sum_of_prefix;
use crate::random::drawn;
use crate::weighted_shuffle::{
    are_draws, inverse_of, is_listed, is_ranking, is_weighted_order, ranks_of, sum_of, DRAW_LIMIT,
    MIN_DRAW,
};
use vstd::prelude::*;

verus! {

/// A shuffle lists each index once. An index comes before another one exactly if its draw
/// times its inverse weight is less or, where the two are the same, it is the lower index.
pub proof fn law_shuffle_sorts_by_draw_and_weight(
    draws: Seq<u64>,
    inverse_weights: Seq<u64>,
    order: Seq<usize>,
    a: int,
    b: int,
    index: int,
)
    requires
        are_draws(draws, inverse_weights.len()),
        is_ranking(ranks_of(draws, inverse_weights), order),
        0 <= a < order.len(),
        0 <= b < order.len(),
        a != b,
    ensures
        order.len() == inverse_weights.len(),
        order[a] < inverse_weights.len(),
        order[a] != order[b],
        0 <= index < inverse_weights.len() ==> exists|i: int|
            0 <= i < order.len() && #[trigger] order[i] == index,
        ({
            let (x, y) = (order[a] as int, order[b] as int);
            let (rank_x, rank_y) = (
                draws[x] * inverse_weights[x],
                draws[y] * inverse_weights[y],
            );
            a < b <==> rank_x < rank_y || (rank_x == rank_y && x < y)
        }),
{
    let ranks = ranks_of(draws, inverse_weights);
    let (x, y) = (order[a] as int, order[b] as int);
    assert(ranks[x] == draws[x] * inverse_weights[x]) by {
        let (d, w) = (draws[x], inverse_weights[x]);
        assert(d as nat * w as nat == d * w) by (nonlinear_arith);
    }
    assert(ranks[y] == draws[y] * inverse_weights[y]) by {
        let (d, w) = (draws[y], inverse_weights[y]);
        assert(d as nat * w as nat == d * w) by (nonlinear_arith);
    }
    if 0 <= index < inverse_weights.len() {
        assert(is_listed(order, index));
    }
}

/// Of two items with the same draw, the one of lower inverse weight comes first, that is
/// the heavier one.
pub proof fn law_heavier_items_come_first_at_equal_draws(
    draws: Seq<u64>,
    inverse_weights: Seq<u64>,
    order: Seq<usize>,
    a: int,
    b: int,
)
    requires
        are_draws(draws, inverse_weights.len()),
        is_ranking(ranks_of(draws, inverse_weights), order),
        0 <= a < order.len(),
        0 <= b < order.len(),
        draws[order[a] as int] == draws[order[b] as int],
        inverse_weights[order[a] as int] < inverse_weights[order[b] as int],
    ensures
        a < b,
{
    law_shuffle_sorts_by_draw_and_weight(draws, inverse_weights, order, a, b, 0);
    let (x, y) = (order[a] as int, order[b] as int);
    assert(order[b] < inverse_weights.len());
    let (d, v, w) = (draws[x] as int, inverse_weights[x] as int, inverse_weights[y] as int);
    assert(d * v < d * w) by (nonlinear_arith)
        requires
            d >= 1,
            v < w,
    ;
}

/// An item that is heavier than another one by more than draws can make up for comes before
/// it, whatever the seed: draws are from 1 to 65534.
pub proof fn law_much_heavier_items_come_first(
    inverse_weights: Seq<u64>,
    order: Seq<usize>,
    a: int,
    b: int,
)
    requires
        is_weighted_order(inverse_weights, order),
        0 <= a < order.len(),
        0 <= b < order.len(),
        inverse_weights[order[a] as int] * 65_534 < inverse_weights[order[b] as int],
    ensures
        a < b,
{
    let seed = choose|seed: Seq<u8>|
        #![trigger drawn(seed, MIN_DRAW, DRAW_LIMIT, inverse_weights.len())]
        {
            let draws = drawn(seed, MIN_DRAW, DRAW_LIMIT, inverse_weights.len());
            &&& seed.len() == 32
            &&& are_draws(draws, inverse_weights.len())
            &&& is_ranking(ranks_of(draws, inverse_weights), order)
        };
    let draws = drawn(seed, MIN_DRAW, DRAW_LIMIT, inverse_weights.len());
    law_shuffle_sorts_by_draw_and_weight(draws, inverse_weights, order, a, b, 0);
    let (x, y) = (order[a] as int, order[b] as int);
    assert(order[b] < inverse_weights.len());
    let (c, d) = (draws[x] as int, draws[y] as int);
    let (v, w) = (inverse_weights[x] as int, inverse_weights[y] as int);
    assert(c * v < d * w) by (nonlinear_arith)
        requires
            1 <= c <= 65_534,
            d >= 1,
            0 <= v,
            v * 65_534 < w,
    ;
}

/// A weighted order comes from a seed of 32 bytes: each item draws a number from 1 to 65534,
/// and the order is by the draws times the inverse weights, the lower index first where
/// those are the same.
pub proof fn law_weighted_orders_come_from_seeds(
    inverse_weights: Seq<u64>,
    order: Seq<usize>,
) -> (seed: Seq<u8>)
    requires
        is_weighted_order(inverse_weights, order),
    ensures
        seed.len() == 32,
        order.len() == inverse_weights.len(),
        ({
            let draws = drawn(seed, 1, 65_535, inverse_weights.len());
            &&& draws.len() == inverse_weights.len()
            &&& forall|i: int| 0 <= i < draws.len() ==> 1 <= #[trigger] draws[i] < 65_535
            &&& forall|a: int, b: int|
                #![trigger order[a], order[b]]
                0 <= a < b < order.len() ==> {
                    let (x, y) = (order[a] as int, order[b] as int);
                    let (rank_x, rank_y) = (
                        draws[x] * inverse_weights[x],
                        draws[y] * inverse_weights[y],
                    );
                    rank_x < rank_y || (rank_x == rank_y && x < y)
                }
        }),
{
    let seed = choose|seed: Seq<u8>|
        #![trigger drawn(seed, MIN_DRAW, DRAW_LIMIT, inverse_weights.len())]
        {
            let draws = drawn(seed, MIN_DRAW, DRAW_LIMIT, inverse_weights.len());
            &&& seed.len() == 32
            &&& are_draws(draws, inverse_weights.len())
            &&& is_ranking(ranks_of(draws, inverse_weights), order)
        };
    let draws = drawn(seed, 1, 65_535, inverse_weights.len());
    assert forall|a: int, b: int|
        #![trigger order[a], order[b]]
        0 <= a < b < order.len() implies {
        let (x, y) = (order[a] as int, order[b] as int);
        let (rank_x, rank_y) = (draws[x] * inverse_weights[x], draws[y] * inverse_weights[y]);
        rank_x < rank_y || (rank_x == rank_y && x < y)
    } by {
        law_shuffle_sorts_by_draw_and_weight(draws, inverse_weights, order, a, b, 0);
    }
    seed
}

/// The inverse weight of an item is how many times its weight goes into all weights
/// together.
pub proof fn law_inverse_weights_are_quotients(weights: Seq<u64>, i: int)
    requires
        0 <= i < weights.len(),
        weights[i] > 0,
        weights.fold_left(0int, |sum: int, weight: u64| sum + weight) <= u64::MAX,
    ensures
        inverse_of(weights).len() == weights.len(),
        ({
            let total = weights.fold_left(0int, |sum: int, weight: u64| sum + weight);
            let inverse = inverse_of(weights)[i];
            inverse * weights[i] <= total < (inverse + 1) * weights[i]
        }),
{
    let total = weights.fold_left(0int, |sum: int, weight: u64| sum + weight);
    lemma_sum_is_fold(weights);
    let weight = weights[i] as int;
    let quotient = total / weight;
    assert(quotient * weight <= total < (quotient + 1) * weight && 0 <= quotient <= total)
        by (nonlinear_arith)
        requires
            quotient == total / weight,
            weight > 0,
            total >= 0,
    ;
}

/// The sum of all weights is what adding them up one by one gives.
pub proof fn lemma_sum_is_fold(weights: Seq<u64>)
    ensures
        sum_of(weights, weights.len()) == weights.fold_left(
            0int,
            |sum: int, weight: u64| sum + weight,
        ),
    decreases weights.len(),
{
    if weights.len() > 0 {
        let rest = weights.drop_last();
        lemma_sum_is_fold(rest);
        lemma_sum_of_prefix(rest, weights, rest.len());
    }
}

} // verus!
