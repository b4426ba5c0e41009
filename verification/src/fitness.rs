//! Fitness strategies: how well a program does what is wanted of it.
//!
//! A score is a fixed-point number: the integer `s` stands for the real
//! number `s / SCORE_ONE`. Both strategies here score a program by a total
//! error `e` as `1 / (1 + e)`, so a score of [`SCORE_ONE`] is a perfect one.

use crate::grammar::parse;
use crate::interpreter::{code_of, decimal_stream, InputTape, Interpreter};
use crate::machine::{fresh, run_steps, start};
use crate::program::BFProgram;
use crate::text::{bytes_of, text_bytes};
use vstd::prelude::*;

verus! {

/// The score that stands for the real number one.
pub const SCORE_ONE: u32 = 1_000_000_000;

/// How far below the best score a program may stay and still be accepted as
/// a solution: one thousandth.
pub const SCORE_TOLERANCE: u32 = 1_000_000;

/// The number of trials of the adding task.
pub const ADDER_TRIALS: usize = 10;

/// The score of a total error: `1 / (1 + error)` as a fixed-point number,
/// rounded down.
pub open spec fn score_of(error: nat) -> nat {
    SCORE_ONE as nat / (1 + error)
}

/// Whether a score is within the tolerance of the best score.
pub open spec fn accepts(score: u32, best: u32) -> bool {
    if score <= best {
        best - score < SCORE_TOLERANCE
    } else {
        score - best < SCORE_TOLERANCE
    }
}

/// The byte at `i`, or zero past the end.
pub open spec fn padded(bytes: Seq<u8>, i: int) -> int {
    if 0 <= i < bytes.len() {
        bytes[i] as int
    } else {
        0
    }
}

/// The difference of two texts at `i`, the shorter padded with zeros.
pub open spec fn gap(a: Seq<u8>, b: Seq<u8>, i: int) -> nat {
    let d = padded(a, i) - padded(b, i);
    if d < 0 {
        (-d) as nat
    } else {
        d as nat
    }
}

/// The differences of two texts at the indices below `n`, added up.
pub open spec fn distance_upto(a: Seq<u8>, b: Seq<u8>, n: int) -> nat
    decreases n,
{
    if n <= 0 {
        0
    } else {
        distance_upto(a, b, n - 1) + gap(a, b, n - 1)
    }
}

/// The distance of two texts: the differences of their bytes added up, the
/// shorter text padded with zeros to the length of the longer.
pub open spec fn distance(a: Seq<u8>, b: Seq<u8>) -> nat {
    distance_upto(
        a,
        b,
        if a.len() > b.len() {
            a.len() as int
        } else {
            b.len() as int
        },
    )
}

/// The numbers of a sequence added up.
pub open spec fn sum_of(numbers: Seq<nat>) -> nat
    decreases numbers.len(),
{
    if numbers.len() == 0 {
        0
    } else {
        sum_of(numbers.drop_last()) + numbers.last()
    }
}

/// The sum that the adding task asks for: the first two bytes of the input
/// added, wrapping at 256. A byte that the input lacks counts as zero.
pub open spec fn adder_target(input: Seq<u8>) -> u8 {
    ((padded(input, 0) + padded(input, 1)) % 256) as u8
}

/// How far `answer` is from the sum of `first` and `second`, wrapping at 256.
pub open spec fn adder_miss(first: u8, second: u8, answer: u8) -> nat {
    let target = (first + second) % 256;
    if target > answer {
        (target - answer) as nat
    } else {
        (answer - target) as nat
    }
}

/// The error of one trial of the adding task that stops after `n` steps: how
/// far the current cell then is from the sum that `input` asks for.
pub open spec fn trial_error(code: Seq<char>, input: Seq<u8>, n: nat) -> nat {
    adder_miss(
        padded(input, 0) as u8,
        padded(input, 1) as u8,
        run_steps(start(parse(code), fresh(input)), n).machine.cell(),
    )
}

/// Whether `error` is the error of some trial of the adding task: one on the
/// decimal digits of two bytes, stopped after some number of steps.
pub open spec fn possible_trial(code: Seq<char>, error: nat) -> bool {
    exists|values: Seq<u8>, n: nat|
        values.len() == 2 && error == #[trigger] trial_error(code, decimal_stream(values), n)
}

/// A strategy that scores programs. A higher score is a better one.
pub trait Fitness {
    /// Whether `score` is one that this strategy may give the program `code`.
    spec fn possible(&self, code: Seq<char>, score: u32) -> bool;

    /// The best score that this strategy gives.
    spec fn best(&self) -> u32;

    /// The worst score that this strategy gives.
    spec fn worst(&self) -> u32;

    /// Scores a program.
    fn fitness(&self, prog: &BFProgram) -> (score: u32)
        ensures
            self.possible(prog.code@, score),
            self.worst() <= score <= self.best(),
    ;

    /// The best score that this strategy gives.
    fn max_fitness(&self) -> (max: u32)
        ensures
            max == self.best(),
    ;

    /// The worst score that this strategy gives.
    fn min_fitness(&self) -> (min: u32)
        ensures
            min == self.worst(),
    ;
}

/// An error of [`SCORE_ONE`] or more has the score zero, and no score is
/// above [`SCORE_ONE`].
pub proof fn lemma_score_bounds(error: nat)
    ensures
        score_of(error) <= SCORE_ONE,
        error >= SCORE_ONE ==> score_of(error) == 0,
        error == 0 <==> score_of(error) == SCORE_ONE,
{
    let one = SCORE_ONE as int;
    let d = 1 + error as int;
    assert(0 <= one / d <= one) by (nonlinear_arith)
        requires
            one >= 0,
            d >= 1,
    ;
    if error >= SCORE_ONE {
        vstd::arithmetic::div_mod::lemma_basic_div(one, d);
    }
    if error > 0 {
        assert(one / d < one) by (nonlinear_arith)
            requires
                one > 0,
                d >= 2,
        ;
    } else {
        assert(one / 1 == one);
    }
}

/// The score of a total error.
pub fn score(error: u64) -> (s: u32)
    ensures
        s as nat == score_of(error as nat),
{
    proof {
        lemma_score_bounds(error as nat);
    }
    if error >= SCORE_ONE as u64 {
        0
    } else {
        (SCORE_ONE as u64 / (1 + error)) as u32
    }
}

/// Whether a score is within the tolerance of the best score.
pub fn is_accepted(score: u32, best: u32) -> (ok: bool)
    ensures
        ok == accepts(score, best),
{
    if score <= best {
        best - score < SCORE_TOLERANCE
    } else {
        score - best < SCORE_TOLERANCE
    }
}

/// The distance of two texts, or the largest number that can be counted
/// where the distance is above it.
pub fn text_distance(a: &Vec<u8>, b: &Vec<u8>) -> (d: u64)
    ensures
        d as nat == (if distance(a@, b@) <= u64::MAX {
            distance(a@, b@)
        } else {
            u64::MAX as nat
        }),
{
    let len: usize = if a.len() > b.len() {
        a.len()
    } else {
        b.len()
    };
    let mut total: u64 = 0;
    let mut i: usize = 0;
    while i < len
        invariant
            i <= len,
            total as nat == (if distance_upto(a@, b@, i as int) <= u64::MAX {
                distance_upto(a@, b@, i as int)
            } else {
                u64::MAX as nat
            }),
        decreases len - i,
    {
        let x: u8 = if i < a.len() {
            a[i]
        } else {
            0
        };
        let y: u8 = if i < b.len() {
            b[i]
        } else {
            0
        };
        let diff: u8 = if x > y {
            x - y
        } else {
            y - x
        };
        assert(diff as nat == gap(a@, b@, i as int));
        total = total.saturating_add(diff as u64);
        i += 1;
    }
    total
}

/// How far `answer` is from the sum of `first` and `second`, wrapping at 256.
pub fn adder_error(first: u8, second: u8, answer: u8) -> (miss: u8)
    ensures
        miss as nat == adder_miss(first, second, answer),
{
    let target: u8 = first.wrapping_add(second);
    if target > answer {
        target - answer
    } else {
        answer - target
    }
}

/// String match: a program is scored by how close what it writes, run
/// without input and with the time limit on, comes to this text.
impl Fitness for String {
    /// The score of the distance between this text and what the program has
    /// written after some number of steps.
    open spec fn possible(&self, code: Seq<char>, score: u32) -> bool {
        exists|n: nat|
            score as nat == score_of(
                distance(
                    text_bytes(
                        (#[trigger] run_steps(start(parse(code), fresh(Seq::empty())), n)).machine.output,
                    ),
                    text_bytes(self@),
                ),
            )
    }

    open spec fn best(&self) -> u32 {
        SCORE_ONE
    }

    open spec fn worst(&self) -> u32 {
        0
    }

    fn fitness(&self, prog: &BFProgram) -> (score: u32) {
        let mut env = Interpreter::new().print(false).limit(true);
        let mut text = prog.code.clone();
        let tokens = Interpreter::get_tokens(&mut text);
        let mut input = InputTape::new();
        let ghost begin = env.machine(input@);
        let ghost limit = env.max_steps();
        assert(begin == fresh(Seq::empty()));
        let res = env.run(tokens, &mut input);
        let written = bytes_of(env.written().as_str());
        let target = bytes_of(self.as_str());
        let d: u64 = text_distance(&written, &target);
        proof {
            let end = env.machine(input@);
            Interpreter::lemma_outcome_reachable(parse(prog.code@), begin, limit, true, end, res);
            let n = choose|n: nat|
                end == (#[trigger] run_steps(start(parse(prog.code@), begin), n)).machine;
            assert(written@ == text_bytes(
                run_steps(start(parse(prog.code@), fresh(Seq::empty())), n).machine.output,
            ));
            lemma_score_bounds(distance(written@, target@));
            lemma_score_bounds(d as nat);
        }
        score(d)
    }

    fn max_fitness(&self) -> (max: u32) {
        SCORE_ONE
    }

    fn min_fitness(&self) -> (min: u32) {
        0
    }
}

/// The adding task: a program is scored by how close the cell it ends on
/// comes to the sum of the first two bytes of its input, over
/// [`ADDER_TRIALS`] trials on random input with the time limit on.
pub struct Adder;

impl Fitness for Adder {
    /// The score of the total error of [`ADDER_TRIALS`] trials.
    open spec fn possible(&self, code: Seq<char>, score: u32) -> bool {
        exists|errors: Seq<nat>|
            errors.len() == ADDER_TRIALS && (forall|i: int|
                0 <= i < errors.len() ==> possible_trial(code, #[trigger] errors[i])) && score
                as nat == score_of(sum_of(errors))
    }

    open spec fn best(&self) -> u32 {
        SCORE_ONE
    }

    open spec fn worst(&self) -> u32 {
        0
    }

    fn fitness(&self, prog: &BFProgram) -> (score: u32) {
        let mut text = prog.code.clone();
        let tokens = Interpreter::get_tokens(&mut text);
        let mut total: u64 = 0;
        let ghost mut errors: Seq<nat> = Seq::empty();
        let mut trial: usize = 0;
        while trial < ADDER_TRIALS
            invariant
                trial <= ADDER_TRIALS,
                code_of(tokens@) == parse(prog.code@),
                errors.len() == trial,
                forall|i: int| 0 <= i < errors.len() ==> possible_trial(prog.code@, #[trigger] errors[i]),
                total as nat == sum_of(errors),
                total <= 255 * trial,
            decreases ADDER_TRIALS - trial,
        {
            let mut env = Interpreter::new().print(false).limit(true);
            let mut input = InputTape::random(2);
            let mut feed = input.clone();
            let ghost begin = env.machine(feed@);
            let ghost limit = env.max_steps();
            assert(begin == fresh(input@));
            let res = env.execute(&tokens, &mut feed);
            let first: u8 = input.read();
            let second: u8 = input.read();
            let answer: u8 = env.return_val();
            let miss: u8 = adder_error(first, second, answer);
            proof {
                let given = begin.input;
                Interpreter::lemma_outcome_reachable(
                    parse(prog.code@),
                    begin,
                    limit,
                    true,
                    env.machine(feed@),
                    res,
                );
                let n = choose|n: nat|
                    env.machine(feed@) == (#[trigger] run_steps(
                        start(parse(prog.code@), begin),
                        n,
                    )).machine;
                let values = choose|values: Seq<u8>|
                    values.len() == 2 && given == #[trigger] decimal_stream(values);
                lemma_two_numbers(values);
                assert(first == padded(given, 0) && second == padded(given, 1));
                assert(answer == run_steps(
                    start(parse(prog.code@), fresh(given)),
                    n,
                ).machine.cell());
                assert(miss as nat == trial_error(prog.code@, decimal_stream(values), n));
                let before = errors;
                errors = errors.push(miss as nat);
                assert(errors.drop_last() =~= before);
            }
            total = total + miss as u64;
            trial += 1;
        }
        proof {
            lemma_score_bounds(total as nat);
        }
        score(total)
    }

    fn max_fitness(&self) -> (max: u32) {
        SCORE_ONE
    }

    fn min_fitness(&self) -> (min: u32) {
        0
    }
}

/// The decimal digits of two bytes are at least two bytes.
pub proof fn lemma_two_numbers(values: Seq<u8>)
    requires
        values.len() == 2,
    ensures
        decimal_stream(values).len() >= 2,
{
    let one = values.drop_last();
    assert(decimal_stream(values) == decimal_stream(one) + text_bytes(
        crate::machine::decimal(values.last()),
    ));
    assert(decimal_stream(one) == decimal_stream(one.drop_last()) + text_bytes(
        crate::machine::decimal(one.last()),
    ));
    assert(text_bytes(crate::machine::decimal(one.last())).len() >= 1);
    assert(text_bytes(crate::machine::decimal(values.last())).len() >= 1);
}

} // verus!
