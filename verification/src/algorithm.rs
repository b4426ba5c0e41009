//! The generational search: a population of programs that is scored, bred,
//! thinned to its best and filled up again, one generation at a step.
//!
//! Rates and shares are fixed-point numbers: the integer `r` stands for the
//! real number `r / RATE_ONE`, and every value from [`RATE_ONE`] on for one.

use crate::chance::{chance, coin, draw_index, draw_length, RATE_ONE};
use crate::fitness::{accepts, is_accepted, Fitness};
use crate::program::{is_crossing, is_insertion, is_mutation, is_program_text, BFProgram};
use crate::selection::{fittest, is_ranking, spin, sum_weights, total_weight};
use vstd::prelude::*;

verus! {

/// How often the parents of one child are drawn at most: the last two drawn
/// are crossed whether or not the draw at the crossover rate lets them.
pub const BREED_TRIES: u32 = 1_000_000;

/// The lengths of the programs of a first population are below this.
pub const FIRST_LENGTHS: usize = 10;

/// The least length of a program that fills up a population.
pub const FILL_MIN_LENGTH: usize = 5;

/// The lengths of the programs that fill up a population are below this.
pub const FILL_MAX_LENGTH: usize = 15;

/// The sixth power of a number.
pub open spec fn pow6(k: nat) -> nat {
    k * k * k * k * k * k
}

/// The share `fraction` of `size` individuals, rounded down, and no more
/// than all of them.
pub open spec fn share(fraction: u32, size: nat) -> nat {
    let part = (fraction as nat * size) / (RATE_ONE as nat);
    if part > size {
        size
    } else {
        part
    }
}

/// Whether `q` is the rate of one mutation operator under the overall
/// mutation rate `rate`: the chance that none of six operators of the rate
/// `q` fires, `(1 - q)` to the sixth power, is the chance `1 - rate` of no
/// mutation, as near from below as fixed-point numbers come. So `q` is
/// `1 - (1 - rate)` to the power of one sixth, rounded up.
pub open spec fn is_operator_rate(rate: u32, q: u32) -> bool {
    let none = if rate >= RATE_ONE {
        0nat
    } else {
        (RATE_ONE - rate) as nat
    };
    let one = RATE_ONE as nat;
    let keep = (RATE_ONE - q) as nat;
    &&& q <= RATE_ONE
    &&& pow6(keep) <= none * (one * one * one * one * one) < pow6(keep + 1)
}

/// The highest of `scores`, or `floor` where there are none above it.
pub open spec fn highest(scores: Seq<u32>, floor: u32) -> u32
    decreases scores.len(),
{
    if scores.len() == 0 {
        floor
    } else if scores.last() > highest(scores.drop_last(), floor) {
        scores.last()
    } else {
        highest(scores.drop_last(), floor)
    }
}

/// The lowest of `scores`, or `ceiling` where there are none below it.
pub open spec fn lowest(scores: Seq<u32>, ceiling: u32) -> u32
    decreases scores.len(),
{
    if scores.len() == 0 {
        ceiling
    } else if scores.last() < lowest(scores.drop_last(), ceiling) {
        scores.last()
    } else {
        lowest(scores.drop_last(), ceiling)
    }
}

/// Whether `child` is bred from a population with these scores under the
/// overall mutation rate `rate`: the crossover of two of its members, after
/// at most one mutation. Where any member has a score above zero, both
/// parents have. Under the rate zero the child is the crossover itself, and
/// under the rate one a symbol is put into it.
pub open spec fn is_offspring(
    pop: Seq<Seq<char>>,
    scores: Seq<u32>,
    rate: u32,
    child: Seq<char>,
) -> bool {
    exists|mom: int, dad: int, crossing: Seq<char>|
        0 <= mom < pop.len() && 0 <= dad < pop.len() && (total_weight(scores) > 0 ==> scores[mom]
            > 0 && scores[dad] > 0) && #[trigger] is_crossing(pop[mom], pop[dad], crossing)
            && is_mutation(crossing, child) && (rate == 0 ==> child == crossing) && (rate
            >= RATE_ONE ==> is_insertion(crossing, child))
}

/// The number of children of a generation: the bred share of the
/// population, or none where the crossover rate is zero.
pub open spec fn brood(cross_rate: u32, bred_share: u32, size: nat) -> nat {
    if cross_rate == 0 {
        0
    } else {
        share(bred_share, size)
    }
}

/// Whether `code` is a program that a population is filled up with.
pub open spec fn is_fill(code: Seq<char>) -> bool {
    FILL_MIN_LENGTH <= code.len() < FILL_MAX_LENGTH && is_program_text(code)
}

/// Whether `after` follows `before` as the next generation, where the
/// members of `before` have these scores: first the children, as many as
/// [`brood`] says, then the members of `before` that `elite` ranks as its
/// best, unchanged and the best first, then programs that fill up the rest.
/// The elite has the share `kept_share` of the population, or what room the
/// children leave if that is less.
pub open spec fn is_next_generation(
    before: Seq<Seq<char>>,
    after: Seq<Seq<char>>,
    scores: Seq<u32>,
    elite: Seq<usize>,
    mut_rate: u32,
    cross_rate: u32,
    bred_share: u32,
    kept_share: u32,
) -> bool {
    let size = before.len();
    let bred = brood(cross_rate, bred_share, size) as int;
    let room = size - bred;
    &&& after.len() == size
    &&& scores.len() == size
    &&& elite.len() == (if share(kept_share, size) < room {
        share(kept_share, size) as int
    } else {
        room
    })
    &&& is_ranking(scores, elite)
    &&& forall|i: int| 0 <= i < bred ==> is_offspring(before, scores, mut_rate, #[trigger] after[i])
    &&& forall|j: int| 0 <= j < elite.len() ==> #[trigger] after[bred + j] == before[elite[j] as int]
    &&& forall|i: int| bred + elite.len() <= i < size ==> is_fill(#[trigger] after[i])
}

/// The texts of a sequence of programs.
pub open spec fn texts(programs: Seq<BFProgram>) -> Seq<Seq<char>> {
    Seq::new(programs.len(), |i: int| programs[i].code@)
}

/// The sixth power grows with the number.
pub proof fn lemma_pow6_grows(a: nat, b: nat)
    requires
        a <= b,
    ensures
        pow6(a) <= pow6(b),
{
    let a2 = a * a;
    let b2 = b * b;
    assert(a2 <= b2) by (nonlinear_arith)
        requires
            a <= b,
            a2 == a * a,
            b2 == b * b,
    ;
    let a3 = a2 * a;
    let b3 = b2 * b;
    assert(a3 <= b3) by (nonlinear_arith)
        requires
            a <= b,
            a2 <= b2,
            a3 == a2 * a,
            b3 == b2 * b,
    ;
    let a4 = a3 * a;
    let b4 = b3 * b;
    assert(a4 <= b4) by (nonlinear_arith)
        requires
            a <= b,
            a3 <= b3,
            a4 == a3 * a,
            b4 == b3 * b,
    ;
    let a5 = a4 * a;
    let b5 = b4 * b;
    assert(a5 <= b5) by (nonlinear_arith)
        requires
            a <= b,
            a4 <= b4,
            a5 == a4 * a,
            b5 == b4 * b,
    ;
    assert(a5 * a <= b5 * b) by (nonlinear_arith)
        requires
            a <= b,
            a5 <= b5,
    ;
}

/// The overall mutation rate fixes the rate of one operator: no two rates
/// are operator rates under the same overall rate. Under the overall rate
/// zero no operator ever fires, and under the overall rate one every
/// operator always does.
pub proof fn lemma_operator_rate_is_fixed(rate: u32, q: u32, other: u32)
    requires
        is_operator_rate(rate, q),
        is_operator_rate(rate, other),
    ensures
        q == other,
        rate == 0 ==> q == 0,
        rate >= RATE_ONE ==> q == RATE_ONE,
{
    let keep = (RATE_ONE - q) as nat;
    let kept = (RATE_ONE - other) as nat;
    if keep < kept {
        lemma_pow6_grows(keep + 1, kept);
    }
    if kept < keep {
        lemma_pow6_grows(kept + 1, keep);
    }
    let one = RATE_ONE as nat;
    assert(pow6(one) == one * (one * one * one * one * one)) by (nonlinear_arith);
    if rate == 0 && keep < one {
        lemma_pow6_grows(keep + 1, one);
    }
    if rate >= RATE_ONE && keep > 0 {
        lemma_pow6_grows(1, keep);
        assert(pow6(1) == 1) by (nonlinear_arith);
    }
}

/// The sixth power of a number that is not above `RATE_ONE + 1`.
fn sixth_power(k: u64) -> (power: u128)
    requires
        k <= RATE_ONE + 1,
    ensures
        power == pow6(k as nat),
{
    let k1: u128 = k as u128;
    assert(k1 * k1 <= 0x100_0000_0000) by (nonlinear_arith)
        requires
            k1 <= 0x10_0000,
    ;
    let k2: u128 = k1 * k1;
    assert(k2 * k1 <= 0x1000_0000_0000_0000) by (nonlinear_arith)
        requires
            k2 <= 0x100_0000_0000,
            k1 <= 0x10_0000,
    ;
    let k3: u128 = k2 * k1;
    assert(k3 * k1 <= 0x1_0000_0000_0000_0000_0000) by (nonlinear_arith)
        requires
            k3 <= 0x1000_0000_0000_0000,
            k1 <= 0x10_0000,
    ;
    let k4: u128 = k3 * k1;
    assert(k4 * k1 <= 0x10_0000_0000_0000_0000_0000_0000) by (nonlinear_arith)
        requires
            k4 <= 0x1_0000_0000_0000_0000_0000,
            k1 <= 0x10_0000,
    ;
    let k5: u128 = k4 * k1;
    assert(k5 * k1 <= 0x100_0000_0000_0000_0000_0000_0000_0000) by (nonlinear_arith)
        requires
            k5 <= 0x10_0000_0000_0000_0000_0000_0000,
            k1 <= 0x10_0000,
    ;
    k5 * k1
}

/// The rate of one mutation operator under the overall mutation rate `rate`.
pub fn operator_rate(rate: u32) -> (q: u32)
    ensures
        is_operator_rate(rate, q),
{
    let none: u128 = if rate >= RATE_ONE {
        0
    } else {
        (RATE_ONE - rate) as u128
    };
    let target: u128 = none * 1_000_000_000_000_000_000_000_000_000_000u128;
    let mut low: u64 = 0;
    let mut high: u64 = RATE_ONE as u64 + 1;
    proof {
        let one = RATE_ONE as nat;
        assert(one * one * one * one * one == 1_000_000_000_000_000_000_000_000_000_000nat)
            by (nonlinear_arith)
            requires
                one == 1_000_000,
        ;
        assert(pow6(0) == 0) by (nonlinear_arith);
        assert(pow6(1_000_001) > 1_000_000_000_000_000_000_000_000_000_000_000_000nat)
            by (nonlinear_arith);
    }
    while high - low > 1
        invariant
            low < high <= RATE_ONE + 1,
            pow6(low as nat) <= target < pow6(high as nat),
        decreases high - low,
    {
        let middle: u64 = low + (high - low) / 2;
        if sixth_power(middle) <= target {
            low = middle;
        } else {
            high = middle;
        }
    }
    (RATE_ONE as u64 - low) as u32
}

/// The share `fraction` of `size` individuals.
pub fn share_of(fraction: u32, size: usize) -> (part: usize)
    ensures
        part == share(fraction, size as nat),
        part <= size,
{
    assert(fraction as u128 * size as u128 <= 0x1_0000_0000 * 0x1_0000_0000_0000_0000)
        by (nonlinear_arith)
        requires
            fraction <= 0x1_0000_0000,
            size <= 0x1_0000_0000_0000_0000,
    ;
    let part: u128 = (fraction as u128 * size as u128) / (RATE_ONE as u128);
    if part > size as u128 {
        size
    } else {
        part as usize
    }
}

/// A search: the population, the strategy that scores it and the rates that
/// it breeds by.
pub struct GAlgo<F: Fitness> {
    /// The number of generations bred so far.
    pub generation: usize,
    /// The highest score seen in the last step.
    pub max_fit: u32,
    /// The lowest score seen in the last step.
    pub min_fit: u32,
    fit_func: F,
    pop: Vec<BFProgram>,
    mut_rate: u32,
    cross_rate: u32,
    percent_bred: u32,
    percent_kept: u32,
}

impl<F: Fitness> GAlgo<F> {
    /// The texts of the population, in order.
    pub closed spec fn population(&self) -> Seq<Seq<char>> {
        texts(self.pop@)
    }

    /// The strategy that scores the population.
    pub closed spec fn strategy(&self) -> F {
        self.fit_func
    }

    /// The number of generations bred so far.
    pub closed spec fn generations(&self) -> nat {
        self.generation as nat
    }

    /// The highest score seen in the last step.
    pub closed spec fn best_seen(&self) -> u32 {
        self.max_fit
    }

    /// The lowest score seen in the last step.
    pub closed spec fn worst_seen(&self) -> u32 {
        self.min_fit
    }

    /// The overall mutation rate.
    pub closed spec fn mutation_rate(&self) -> u32 {
        self.mut_rate
    }

    /// The crossover rate.
    pub closed spec fn crossover_rate(&self) -> u32 {
        self.cross_rate
    }

    /// The share of a generation that is bred.
    pub closed spec fn bred_share(&self) -> u32 {
        self.percent_bred
    }

    /// The share of a generation that is kept.
    pub closed spec fn kept_share(&self) -> u32 {
        self.percent_kept
    }

    /// Whether two searches have the same strategy and rates.
    pub open spec fn same_settings(&self, other: &GAlgo<F>) -> bool {
        &&& self.strategy() == other.strategy()
        &&& self.mutation_rate() == other.mutation_rate()
        &&& self.crossover_rate() == other.crossover_rate()
        &&& self.bred_share() == other.bred_share()
        &&& self.kept_share() == other.kept_share()
    }

    /// A search on a given population.
    pub fn from_population(
        pop: Vec<BFProgram>,
        mut_rate: u32,
        cross_rate: u32,
        bred: u32,
        kept: u32,
        fit: F,
    ) -> (search: GAlgo<F>)
        ensures
            search.population() == texts(pop@),
            search.strategy() == fit,
            search.mutation_rate() == mut_rate,
            search.crossover_rate() == cross_rate,
            search.bred_share() == bred,
            search.kept_share() == kept,
            search.generations() == 0,
            search.best_seen() == 0,
            search.worst_seen() == 0,
    {
        GAlgo {
            fit_func: fit,
            pop,
            mut_rate,
            cross_rate,
            percent_bred: bred,
            percent_kept: kept,
            generation: 0,
            max_fit: 0,
            min_fit: 0,
        }
    }

    /// A search on `size` random programs, each shorter than
    /// [`FIRST_LENGTHS`].
    pub fn new(
        size: usize,
        mut_rate: u32,
        cross_rate: u32,
        bred: u32,
        kept: u32,
        fit: F,
    ) -> (search: GAlgo<F>)
        ensures
            search.population().len() == size,
            forall|i: int|
                0 <= i < size ==> (#[trigger] search.population()[i]).len() < FIRST_LENGTHS
                    && is_program_text(search.population()[i]),
            search.strategy() == fit,
            search.mutation_rate() == mut_rate,
            search.crossover_rate() == cross_rate,
            search.bred_share() == bred,
            search.kept_share() == kept,
            search.generations() == 0,
            search.best_seen() == 0,
            search.worst_seen() == 0,
    {
        let mut pop: Vec<BFProgram> = Vec::new();
        let mut i: usize = 0;
        while i < size
            invariant
                i <= size,
                pop.len() == i,
                forall|j: int|
                    0 <= j < i ==> (#[trigger] pop[j]).code@.len() < FIRST_LENGTHS && is_program_text(
                        pop[j].code@,
                    ),
            decreases size - i,
        {
            pop.push(BFProgram::new(draw_index(FIRST_LENGTHS)));
            i += 1;
        }
        GAlgo::from_population(pop, mut_rate, cross_rate, bred, kept, fit)
    }

    /// Whether `scores` are scores that the strategy may give the first
    /// members of the population, one each and in order.
    pub open spec fn is_scoring(&self, scores: Seq<u32>) -> bool {
        &&& scores.len() <= self.population().len()
        &&& forall|i: int|
            0 <= i < scores.len() ==> self.strategy().possible(
                self.population()[i],
                #[trigger] scores[i],
            ) && self.strategy().worst() <= scores[i] <= self.strategy().best()
    }

    /// Whether a step may lead from this search to `next` and return `res`,
    /// where the members that it scored got `scores`.
    ///
    /// A step scores the members in order and keeps the highest and the
    /// lowest score that it saw. It ends at the first member whose score is
    /// accepted and returns that member; the population then stays as it is.
    /// Where no score is accepted, it returns nothing and the population is
    /// replaced by the next generation, with the elite `elite`, and the
    /// generations count one more.
    pub open spec fn steps_to(
        &self,
        next: &GAlgo<F>,
        res: Option<BFProgram>,
        scores: Seq<u32>,
        elite: Seq<usize>,
    ) -> bool {
        let best = self.strategy().best();
        let size = self.population().len();
        &&& next.same_settings(self)
        &&& self.is_scoring(scores)
        &&& next.best_seen() == highest(scores, self.strategy().worst())
        &&& next.worst_seen() == lowest(scores, best)
        &&& forall|i: int| 0 <= i < scores.len() - 1 ==> !accepts(#[trigger] scores[i], best)
        &&& match res {
            Some(found) => {
                &&& scores.len() > 0
                &&& accepts(scores.last(), best)
                &&& found.code@ == self.population()[scores.len() - 1]
                &&& next.population() == self.population()
                &&& next.generations() == self.generations()
            },
            None => {
                &&& scores.len() == size
                &&& size > 0 ==> !accepts(scores.last(), best)
                &&& is_next_generation(
                    self.population(),
                    next.population(),
                    scores,
                    elite,
                    self.mutation_rate(),
                    self.crossover_rate(),
                    self.bred_share(),
                    self.kept_share(),
                )
                &&& next.generations() == (if self.generations() < usize::MAX {
                    self.generations() + 1
                } else {
                    self.generations()
                })
            },
        }
    }

    /// Scores the members in order, up to the first whose score is accepted,
    /// and keeps the highest and the lowest score seen. Returns the scores,
    /// and whether the last of them was accepted.
    fn score_members(&mut self) -> (seen: (bool, Vec<u32>))
        ensures
            final(self).same_settings(old(self)),
            final(self).population() == old(self).population(),
            final(self).generations() == old(self).generations(),
            old(self).is_scoring(seen.1@),
            final(self).best_seen() == highest(seen.1@, old(self).strategy().worst()),
            final(self).worst_seen() == lowest(seen.1@, old(self).strategy().best()),
            forall|i: int|
                0 <= i < seen.1.len() - 1 ==> !accepts(
                    #[trigger] seen.1[i],
                    old(self).strategy().best(),
                ),
            seen.0 ==> seen.1.len() > 0 && accepts(seen.1@.last(), old(self).strategy().best()),
            !seen.0 ==> seen.1.len() == old(self).population().len() && (seen.1.len() > 0
                ==> !accepts(seen.1@.last(), old(self).strategy().best())),
    {
        let best: u32 = self.fit_func.max_fitness();
        let worst: u32 = self.fit_func.min_fitness();
        self.max_fit = worst;
        self.min_fit = best;
        let mut scores: Vec<u32> = Vec::new();
        let mut i: usize = 0;
        while i < self.pop.len()
            invariant
                i <= self.pop.len(),
                scores.len() == i,
                self.pop == old(self).pop,
                self.fit_func == old(self).fit_func,
                self.generation == old(self).generation,
                self.same_settings(old(self)),
                best == self.fit_func.best(),
                worst == self.fit_func.worst(),
                old(self).is_scoring(scores@),
                self.max_fit == highest(scores@, worst),
                self.min_fit == lowest(scores@, best),
                forall|j: int| 0 <= j < i ==> !accepts(#[trigger] scores[j], best),
            decreases self.pop.len() - i,
        {
            let fit: u32 = self.fit_func.fitness(&self.pop[i]);
            let ghost before = scores@;
            scores.push(fit);
            assert(scores@.drop_last() =~= before);
            assert(self.pop[i as int].code@ == old(self).population()[i as int]);
            if fit > self.max_fit {
                self.max_fit = fit;
            }
            if fit < self.min_fit {
                self.min_fit = fit;
            }
            if is_accepted(fit, best) {
                return (true, scores);
            }
            i += 1;
        }
        (false, scores)
    }

    /// Breeds one child: draws two parents on the wheel until a draw at the
    /// crossover rate succeeds, crosses them, in either order, and mutates
    /// the child at the operator rate `q`. After [`BREED_TRIES`] draws of
    /// parents the last two are crossed whatever the draw: which parents are
    /// crossed does not depend on the draw that lets them.
    fn breed_one(&self, scores: &Vec<u32>, total: u64, q: u32) -> (child: BFProgram)
        requires
            scores.len() == self.population().len(),
            scores.len() > 0,
            total as nat == (if total_weight(scores@) <= u64::MAX {
                total_weight(scores@)
            } else {
                u64::MAX as nat
            }),
            is_operator_rate(self.mutation_rate(), q),
        ensures
            is_offspring(self.population(), scores@, self.mutation_rate(), child.code@),
    {
        let mut mom: usize = spin(scores, total);
        let mut dad: usize = spin(scores, total);
        let mut crossed: bool = chance(self.cross_rate);
        let mut tries: u32 = 1;
        while !crossed && tries < BREED_TRIES
            invariant
                scores.len() == self.population().len(),
                scores.len() > 0,
                total as nat == (if total_weight(scores@) <= u64::MAX {
                    total_weight(scores@)
                } else {
                    u64::MAX as nat
                }),
                mom < scores.len(),
                dad < scores.len(),
                total_weight(scores@) > 0 ==> scores[mom as int] > 0 && scores[dad as int] > 0,
            decreases BREED_TRIES - tries,
        {
            mom = spin(scores, total);
            dad = spin(scores, total);
            crossed = chance(self.cross_rate);
            tries += 1;
        }
        let mut child = if coin() {
            let crossing = self.pop[mom].cross(&self.pop[dad]);
            assert(is_crossing(
                self.population()[mom as int],
                self.population()[dad as int],
                crossing.code@,
            ));
            crossing
        } else {
            let crossing = self.pop[dad].cross(&self.pop[mom]);
            assert(is_crossing(
                self.population()[dad as int],
                self.population()[mom as int],
                crossing.code@,
            ));
            crossing
        };
        proof {
            lemma_operator_rate_is_fixed(self.mutation_rate(), q, q);
        }
        child.mutate(q);
        child
    }

    /// Breeds `wanted` children, or none where the crossover rate is zero.
    fn breed(&self, scores: &Vec<u32>, wanted: usize) -> (children: Vec<BFProgram>)
        requires
            scores.len() == self.population().len(),
            wanted <= scores.len(),
        ensures
            children.len() == (if self.crossover_rate() == 0 {
                0
            } else {
                wanted
            }),
            forall|i: int|
                0 <= i < children.len() ==> is_offspring(
                    self.population(),
                    scores@,
                    self.mutation_rate(),
                    (#[trigger] children[i]).code@,
                ),
    {
        let mut children: Vec<BFProgram> = Vec::new();
        if self.cross_rate == 0 {
            return children;
        }
        let q: u32 = operator_rate(self.mut_rate);
        let total: u64 = sum_weights(scores);
        let mut slot: usize = 0;
        while slot < wanted
            invariant
                slot <= wanted <= scores.len(),
                scores.len() == self.population().len(),
                total as nat == (if total_weight(scores@) <= u64::MAX {
                    total_weight(scores@)
                } else {
                    u64::MAX as nat
                }),
                is_operator_rate(self.mutation_rate(), q),
                children.len() == slot,
                forall|i: int|
                    0 <= i < children.len() ==> is_offspring(
                        self.population(),
                        scores@,
                        self.mutation_rate(),
                        (#[trigger] children[i]).code@,
                    ),
            decreases wanted - slot,
        {
            let child = self.breed_one(scores, total, q);
            children.push(child);
            slot += 1;
        }
        children
    }

    /// One generation. The members are scored in order, and the highest and
    /// the lowest score seen are kept in `max_fit` and `min_fit`. The first
    /// member whose score is within the tolerance of the best score ends the
    /// step and is returned; no generation is bred then. Otherwise the
    /// population is replaced: by children, bred from parents that the wheel
    /// selects, for the bred share, or by none where the crossover rate is
    /// zero; by the best members, unchanged, for the kept share or what room
    /// the children leave; and by new random programs for the rest.
    pub fn step_pop(&mut self) -> (res: Option<BFProgram>)
        ensures
            exists|scores: Seq<u32>, elite: Seq<usize>| #[trigger]
                old(self).steps_to(final(self), res, scores, elite),
    {
        let (found, scores) = self.score_members();
        let size: usize = self.pop.len();
        if found {
            let winner = self.pop[scores.len() - 1].clone();
            assert(winner.code@ == old(self).population()[scores.len() - 1]);
            assert(old(self).steps_to(self, Some(winner), scores@, Seq::empty()));
            return Some(winner);
        }
        let wanted: usize = share_of(self.percent_bred, size);
        let mut next: Vec<BFProgram> = self.breed(&scores, wanted);
        let bred: usize = next.len();
        assert(bred == brood(self.crossover_rate(), self.bred_share(), size as nat));
        let target: usize = share_of(self.percent_kept, size);
        let room: usize = size - bred;
        let kept: usize = if target < room {
            target
        } else {
            room
        };
        let elite: Vec<usize> = fittest(&scores, kept);
        let mut j: usize = 0;
        while j < kept
            invariant
                j <= kept,
                kept == elite.len(),
                bred + kept <= size,
                size == self.pop.len(),
                self.population() == old(self).population(),
                scores.len() == size,
                is_ranking(scores@, elite@),
                next.len() == bred + j,
                self.same_settings(old(self)),
                bred == brood(old(self).crossover_rate(), old(self).bred_share(), size as nat),
                forall|i: int|
                    0 <= i < bred ==> is_offspring(
                        old(self).population(),
                        scores@,
                        old(self).mutation_rate(),
                        (#[trigger] next[i]).code@,
                    ),
                forall|a: int|
                    0 <= a < j ==> (#[trigger] next[bred + a]).code@ == old(self).population()[elite[a] as int],
            decreases kept - j,
        {
            let copy = self.pop[elite[j]].clone();
            assert(copy.code@ == self.population()[elite[j as int] as int]);
            next.push(copy);
            j += 1;
        }
        while next.len() < size
            invariant
                bred + kept <= next.len() <= size,
                kept == elite.len(),
                bred == brood(old(self).crossover_rate(), old(self).bred_share(), size as nat),
                size == old(self).population().len(),
                is_ranking(scores@, elite@),
                forall|i: int|
                    0 <= i < bred ==> is_offspring(
                        old(self).population(),
                        scores@,
                        old(self).mutation_rate(),
                        (#[trigger] next[i]).code@,
                    ),
                forall|a: int|
                    0 <= a < kept ==> (#[trigger] next[bred + a]).code@ == old(self).population()[elite[a] as int],
                forall|i: int| bred + kept <= i < next.len() ==> is_fill((#[trigger] next[i]).code@),
            decreases size - next.len(),
        {
            next.push(BFProgram::new(draw_length(FILL_MIN_LENGTH, FILL_MAX_LENGTH)));
        }
        self.pop = next;
        if self.generation < usize::MAX {
            self.generation = self.generation + 1;
        }
        proof {
            let after = self.population();
            assert forall|a: int| 0 <= a < elite.len() implies #[trigger] after[bred + a] == old(
                self,
            ).population()[elite[a] as int] by {
                assert(after[bred + a] == self.pop[bred + a].code@);
            }
            assert(is_next_generation(
                old(self).population(),
                after,
                scores@,
                elite@,
                old(self).mutation_rate(),
                old(self).crossover_rate(),
                old(self).bred_share(),
                old(self).kept_share(),
            ));
            assert(old(self).steps_to(self, None, scores@, elite@));
        }
        None
    }

    /// The number of generations bred so far, the value of `generation`.
    pub fn generation_count(&self) -> (count: usize)
        ensures
            count == self.generations(),
    {
        self.generation
    }

    /// The highest score seen in the last step, the value of `max_fit`.
    pub fn highest_seen(&self) -> (score: u32)
        ensures
            score == self.best_seen(),
    {
        self.max_fit
    }

    /// The lowest score seen in the last step, the value of `min_fit`.
    pub fn lowest_seen(&self) -> (score: u32)
        ensures
            score == self.worst_seen(),
    {
        self.min_fit
    }

    /// The number of programs in the population.
    pub fn size(&self) -> (size: usize)
        ensures
            size == self.population().len(),
    {
        self.pop.len()
    }

    /// A copy of the program at `index`.
    pub fn member(&self, index: usize) -> (program: BFProgram)
        requires
            index < self.population().len(),
        ensures
            program.code@ == self.population()[index as int],
    {
        self.pop[index].clone()
    }

    /// A copy of a random member of a population that is not empty.
    pub fn rand_prog(&self) -> (program: BFProgram)
        requires
            self.population().len() > 0,
        ensures
            exists|i: int|
                0 <= i < self.population().len() && program.code@ == #[trigger] self.population()[i],
    {
        let index: usize = draw_index(self.pop.len());
        let program = self.pop[index].clone();
        assert(program.code@ == self.population()[index as int]);
        program
    }
}

} // verus!
