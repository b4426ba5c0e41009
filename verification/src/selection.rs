//! Choosing among scored individuals: the roulette wheel that picks parents
//! in proportion to their scores, and the ranking that picks the best.

use crate::chance::{draw_between, draw_index};
use vstd::prelude::*;

verus! {

/// The weights of the first `n` individuals added up.
pub open spec fn weight_upto(weights: Seq<u32>, n: int) -> nat
    decreases n,
{
    if n <= 0 {
        0
    } else {
        weight_upto(weights, n - 1) + weights[n - 1] as nat
    }
}

/// All weights added up: the size of the wheel.
pub open spec fn total_weight(weights: Seq<u32>) -> nat {
    weight_upto(weights, weights.len() as int)
}

/// Walking the wheel from the individual `from` with `rest` of the draw
/// left: the individual on whose weight the rest falls, or the last one.
pub open spec fn walk(weights: Seq<u32>, from: int, rest: nat) -> int
    decreases weights.len() - from,
{
    if from >= weights.len() - 1 {
        from
    } else if rest < weights[from] {
        from
    } else {
        walk(weights, from + 1, (rest - weights[from]) as nat)
    }
}

/// The individual that a draw lands on. The individuals are walked in order
/// and the weight of each is taken off the draw, until what is left falls
/// within the weight of one.
pub open spec fn landing(weights: Seq<u32>, draw: nat) -> int {
    walk(weights, 0, draw)
}

/// Whether the individual `a` ranks before `b`: by the higher score, and
/// among equal scores by the lower index.
pub open spec fn outranks(scores: Seq<u32>, a: int, b: int) -> bool {
    scores[a] > scores[b] || (scores[a] == scores[b] && a < b)
}

/// Whether `picked` is the ranking of the best individuals: each of them
/// ranks before those that follow it and before every individual that was
/// not picked.
pub open spec fn is_ranking(scores: Seq<u32>, picked: Seq<usize>) -> bool {
    &&& forall|j: int| 0 <= j < picked.len() ==> (#[trigger] picked[j]) < scores.len()
    &&& forall|a: int, b: int|
        0 <= a < b < picked.len() ==> outranks(
            scores,
            #[trigger] picked[a] as int,
            #[trigger] picked[b] as int,
        )
    &&& forall|x: int, j: int|
        0 <= x < scores.len() && 0 <= j < picked.len() && !picked.contains(x as usize)
            ==> #[trigger] outranks(scores, picked[j] as int, x)
}

proof fn lemma_weight_upto_grows(weights: Seq<u32>, a: int, b: int)
    requires
        0 <= a <= b,
    ensures
        weight_upto(weights, a) <= weight_upto(weights, b),
    decreases b - a,
{
    if a < b {
        lemma_weight_upto_grows(weights, a, b - 1);
    }
}

proof fn lemma_walk(weights: Seq<u32>, from: int, rest: nat)
    requires
        0 <= from < weights.len(),
        weight_upto(weights, from) + rest < total_weight(weights),
    ensures
        ({
            let at = walk(weights, from, rest);
            &&& from <= at < weights.len()
            &&& weight_upto(weights, at) <= weight_upto(weights, from) + rest < weight_upto(
                weights,
                at + 1,
            )
        }),
    decreases weights.len() - from,
{
    if from >= weights.len() - 1 {
    } else if rest < weights[from] {
    } else {
        lemma_walk(weights, from + 1, (rest - weights[from]) as nat);
    }
}

/// Selection is in proportion to the weights. A draw below the total weight
/// lands on the individual whose stretch of the wheel holds it, the stretch
/// that starts after the weights of the individuals before it and is as long
/// as its own weight: of the draws below the total, as many land on an
/// individual as its weight says.
pub proof fn lemma_landing_is_proportional(weights: Seq<u32>, draw: nat, i: int)
    requires
        draw < total_weight(weights),
    ensures
        0 <= landing(weights, draw) < weights.len(),
        landing(weights, draw) == i <==> 0 <= i < weights.len() && weight_upto(weights, i) <= draw
            < weight_upto(weights, i) + weights[i],
{
    if weights.len() == 0 {
        assert(total_weight(weights) == 0);
    } else {
        lemma_walk(weights, 0, draw);
        let at = landing(weights, draw);
        if 0 <= i < weights.len() && i != at {
            if i < at {
                lemma_weight_upto_grows(weights, i + 1, at);
            } else {
                lemma_weight_upto_grows(weights, at + 1, i);
            }
        }
    }
}

proof fn lemma_equal_weights_upto(weights: Seq<u32>, weight: u32, n: int)
    requires
        0 <= n <= weights.len(),
        forall|i: int| 0 <= i < weights.len() ==> weights[i] == weight,
    ensures
        weight_upto(weights, n) == n * weight,
    decreases n,
{
    if n > 0 {
        lemma_equal_weights_upto(weights, weight, n - 1);
        assert((n - 1) * weight + weight == n * weight) by (nonlinear_arith);
    } else {
        assert(0 * weight == 0) by (nonlinear_arith);
    }
}

/// Among individuals of equal weight every one is as likely to be selected
/// as the other. With `n` individuals of the weight `weight` each, a draw
/// below `n * weight` lands on the individual `draw / weight`: each of them
/// is selected by `weight` of the `n * weight` draws, one in `n`.
pub proof fn lemma_equal_weights_select_evenly(weights: Seq<u32>, weight: u32, draw: nat)
    requires
        weight > 0,
        forall|i: int| 0 <= i < weights.len() ==> weights[i] == weight,
        draw < weights.len() * weight,
    ensures
        total_weight(weights) == weights.len() * weight,
        0 <= landing(weights, draw) < weights.len(),
        landing(weights, draw) == draw as int / weight as int,
{
    lemma_equal_weights_upto(weights, weight, weights.len() as int);
    let at = landing(weights, draw);
    lemma_landing_is_proportional(weights, draw, at);
    lemma_equal_weights_upto(weights, weight, at);
    let w = weight as int;
    let d = draw as int;
    assert(d / w == at) by (nonlinear_arith)
        requires
            w > 0,
            at * w <= d < at * w + w,
    ;
}

/// All weights added up, or the largest number that can be counted where
/// the sum is above it.
pub fn sum_weights(weights: &Vec<u32>) -> (total: u64)
    ensures
        total as nat == (if total_weight(weights@) <= u64::MAX {
            total_weight(weights@)
        } else {
            u64::MAX as nat
        }),
{
    let mut total: u64 = 0;
    let mut i: usize = 0;
    while i < weights.len()
        invariant
            i <= weights.len(),
            total as nat == (if weight_upto(weights@, i as int) <= u64::MAX {
                weight_upto(weights@, i as int)
            } else {
                u64::MAX as nat
            }),
        decreases weights.len() - i,
    {
        total = total.saturating_add(weights[i] as u64);
        i += 1;
    }
    total
}

/// The individual that `draw` lands on.
pub fn roulette(weights: &Vec<u32>, draw: u64) -> (index: usize)
    requires
        weights.len() > 0,
    ensures
        index == landing(weights@, draw as nat),
        index < weights.len(),
{
    let mut rest: u64 = draw;
    let mut index: usize = 0;
    while index + 1 < weights.len() && rest >= weights[index] as u64
        invariant
            index < weights.len(),
            landing(weights@, draw as nat) == walk(weights@, index as int, rest as nat),
        decreases weights.len() - index,
    {
        rest = rest - weights[index] as u64;
        index = index + 1;
    }
    index
}

/// Selects an individual by a random draw on the wheel, whose size `total`
/// is as [`sum_weights`] gives it. Where no individual has any weight, each
/// is as likely as the other; where some have, one without weight is never
/// selected.
pub fn spin(weights: &Vec<u32>, total: u64) -> (index: usize)
    requires
        weights.len() > 0,
        total as nat == (if total_weight(weights@) <= u64::MAX {
            total_weight(weights@)
        } else {
            u64::MAX as nat
        }),
    ensures
        index < weights.len(),
        total_weight(weights@) > 0 ==> weights[index as int] > 0,
{
    if total == 0 {
        draw_index(weights.len())
    } else {
        let draw: u64 = draw_between(0, total);
        let index = roulette(weights, draw);
        proof {
            lemma_landing_is_proportional(weights@, draw as nat, index as int);
        }
        index
    }
}

/// The `count` best individuals, the best first, or all of them in that
/// order where there are fewer.
pub fn fittest(scores: &Vec<u32>, count: usize) -> (picked: Vec<usize>)
    ensures
        picked.len() == (if count <= scores.len() {
            count
        } else {
            scores.len()
        }),
        is_ranking(scores@, picked@),
{
    let n: usize = scores.len();
    let wanted: usize = if count <= n {
        count
    } else {
        n
    };
    let mut order: Vec<usize> = Vec::new();
    let mut i: usize = 0;
    while i < n
        invariant
            i <= n,
            order.len() == i,
            forall|p: int| 0 <= p < i ==> order[p] == p,
        decreases n - i,
    {
        order.push(i);
        i += 1;
    }
    proof {
        assert forall|x: int| 0 <= x < n implies order@.contains(#[trigger] (x as usize)) by {
            assert(order@[x] == x as usize);
        }
    }
    let mut k: usize = 0;
    while k < wanted
        invariant
            k <= wanted <= n,
            n == scores.len(),
            order.len() == n,
            forall|p: int| 0 <= p < n ==> (#[trigger] order[p]) < n,
            forall|p: int, q: int| 0 <= p < q < n ==> #[trigger] order[p] != #[trigger] order[q],
            forall|x: int| 0 <= x < n ==> order@.contains(#[trigger] (x as usize)),
            forall|j: int, p: int|
                0 <= j < k && j < p < n ==> outranks(
                    scores@,
                    #[trigger] order[j] as int,
                    #[trigger] order[p] as int,
                ),
        decreases wanted - k,
    {
        let mut best: usize = k;
        let mut p: usize = k + 1;
        while p < n
            invariant
                k <= best < p <= n,
                n == scores.len(),
                order.len() == n,
                forall|q: int| 0 <= q < n ==> (#[trigger] order[q]) < n,
                forall|a: int, b: int| 0 <= a < b < n ==> #[trigger] order[a] != #[trigger] order[b],
                forall|q: int|
                    k <= q < p && q != best ==> outranks(
                        scores@,
                        order[best as int] as int,
                        #[trigger] order[q] as int,
                    ),
            decreases n - p,
        {
            let here: usize = order[p];
            let champion: usize = order[best];
            if scores[here] > scores[champion] || (scores[here] == scores[champion] && here
                < champion) {
                best = p;
            }
            p += 1;
        }
        let ghost before = order@;
        let first: usize = order[k];
        let champion: usize = order[best];
        order.set(k, champion);
        order.set(best, first);
        proof {
            assert forall|x: int| 0 <= x < n implies order@.contains(#[trigger] (x as usize)) by {
                let at = choose|at: int| 0 <= at < before.len() && before[at] == x as usize;
                if at == k {
                    assert(order@[best as int] == x as usize);
                } else if at == best {
                    assert(order@[k as int] == x as usize);
                } else {
                    assert(order@[at] == x as usize);
                }
            }
            assert forall|j: int, p: int| 0 <= j < k + 1 && j < p < n implies outranks(
                scores@,
                #[trigger] order[j] as int,
                #[trigger] order[p] as int,
            ) by {
                if j < k {
                    let source = if p == k {
                        best as int
                    } else if p == best {
                        k as int
                    } else {
                        p
                    };
                    assert(order[p] == before[source]);
                    assert(outranks(scores@, before[j] as int, before[source] as int));
                } else {
                    let source = if p == best {
                        k as int
                    } else {
                        p
                    };
                    assert(order[p] == before[source]);
                    assert(outranks(scores@, before[best as int] as int, before[source] as int));
                }
            }
        }
        k += 1;
    }
    let mut picked: Vec<usize> = Vec::new();
    let mut j: usize = 0;
    while j < wanted
        invariant
            j <= wanted <= n,
            order.len() == n,
            picked.len() == j,
            forall|a: int| 0 <= a < j ==> picked[a] == order[a],
        decreases wanted - j,
    {
        picked.push(order[j]);
        j += 1;
    }
    proof {
        assert forall|x: int, a: int|
            0 <= x < scores.len() && 0 <= a < picked.len() && !picked@.contains(
                x as usize,
            ) implies #[trigger] outranks(scores@, picked[a] as int, x) by {
            let at = choose|at: int| 0 <= at < order.len() && order[at] == x as usize;
            if at < wanted {
                assert(picked[at] == x as usize);
            }
            assert(outranks(scores@, order[a] as int, order[at] as int));
        }
    }
    picked
}

} // verus!
