use bf_genetic::algorithm::{
    operator_rate, share_of, GAlgo, BREED_TRIES, FILL_MAX_LENGTH, FILL_MIN_LENGTH, FIRST_LENGTHS,
};
use bf_genetic::chance::{coin, RATE_ONE};
use bf_genetic::fitness::{Adder, Fitness, SCORE_ONE};
use bf_genetic::program::BFProgram;
use bf_genetic::selection::{fittest, roulette, spin, sum_weights};

const ALPHABET: &str = "+-><[],.0123456789ABCDEF!@*";

fn program(text: &str) -> BFProgram {
    BFProgram { code: text.to_string() }
}

fn rate(value: f64) -> u32 {
    (value * RATE_ONE as f64).round() as u32
}

fn members<F: Fitness>(ga: &GAlgo<F>) -> Vec<String> {
    (0..ga.size()).map(|i| ga.member(i).code).collect()
}

#[test]
fn roulette_walks_the_wheel() {
    let weights = vec![1, 2, 3];
    let landed: Vec<usize> = (0..6).map(|draw| roulette(&weights, draw)).collect();
    assert_eq!(landed, vec![0, 1, 1, 2, 2, 2]);
    assert_eq!(roulette(&weights, 6), 2);
    assert_eq!(roulette(&weights, u64::MAX), 2);
    let gaps = vec![0, 5, 0, 0, 2, 0];
    let landed: Vec<usize> = (0..7).map(|draw| roulette(&gaps, draw)).collect();
    assert_eq!(landed, vec![1, 1, 1, 1, 1, 4, 4]);
    assert_eq!(roulette(&vec![9], 3), 0);
}

#[test]
fn equal_weights_share_the_wheel_evenly() {
    let weights = vec![7; 5];
    let mut landed = vec![0; 5];
    for draw in 0..35 {
        let at = roulette(&weights, draw);
        assert_eq!(at as u64, draw / 7);
        landed[at] += 1;
    }
    assert_eq!(landed, vec![7; 5]);
}

#[test]
fn equal_fitness_is_selected_evenly() {
    let weights = vec![250_000_000; 4];
    let total = sum_weights(&weights);
    assert_eq!(total, 1_000_000_000);
    let mut landed = vec![0; 4];
    for _ in 0..40_000 {
        landed[spin(&weights, total)] += 1;
    }
    for count in landed {
        assert!(9_000 < count && count < 11_000);
    }
}

#[test]
fn selection_follows_the_weights() {
    let weights = vec![100, 0, 300];
    let total = sum_weights(&weights);
    let mut landed = vec![0; 3];
    for _ in 0..40_000 {
        landed[spin(&weights, total)] += 1;
    }
    assert_eq!(landed[1], 0);
    assert!(9_000 < landed[0] && landed[0] < 11_000);
    assert!(29_000 < landed[2] && landed[2] < 31_000);
}

#[test]
fn without_any_weight_selection_is_even() {
    let weights = vec![0; 4];
    assert_eq!(sum_weights(&weights), 0);
    let mut landed = vec![0; 4];
    for _ in 0..40_000 {
        landed[spin(&weights, 0)] += 1;
    }
    for count in landed {
        assert!(9_000 < count && count < 11_000);
    }
}

#[test]
fn weights_are_added_up() {
    assert_eq!(sum_weights(&vec![]), 0);
    assert_eq!(sum_weights(&vec![1, 2, 3]), 6);
    assert_eq!(sum_weights(&vec![u32::MAX, u32::MAX]), 2 * (u32::MAX as u64));
}

#[test]
fn the_fittest_come_first() {
    let scores = vec![5, 9, 9, 1, 7];
    assert_eq!(fittest(&scores, 0), Vec::<usize>::new());
    assert_eq!(fittest(&scores, 1), vec![1]);
    assert_eq!(fittest(&scores, 2), vec![1, 2]);
    assert_eq!(fittest(&scores, 3), vec![1, 2, 4]);
    assert_eq!(fittest(&scores, 5), vec![1, 2, 4, 0, 3]);
    assert_eq!(fittest(&scores, 9), vec![1, 2, 4, 0, 3]);
    assert_eq!(fittest(&vec![], 3), Vec::<usize>::new());
    assert_eq!(fittest(&vec![4, 4, 4], 2), vec![0, 1]);
}

#[test]
fn the_operator_rate_is_a_sixth_root() {
    assert_eq!(operator_rate(0), 0);
    assert_eq!(operator_rate(1), 1);
    assert_eq!(operator_rate(300_000), 57_714);
    assert_eq!(operator_rate(500_000), 109_102);
    assert_eq!(operator_rate(999_999), 900_000);
    assert_eq!(operator_rate(RATE_ONE), RATE_ONE);
    assert_eq!(operator_rate(2 * RATE_ONE), RATE_ONE);
    for percent in 0..=100u32 {
        let overall = percent as f64 / 100.0;
        let q = operator_rate(rate(overall)) as f64 / RATE_ONE as f64;
        let exact = 1.0 - (1.0 - overall).powf(1.0 / 6.0);
        assert!((q - exact).abs() < 2e-6);
        assert!(q >= exact - 1e-12);
    }
}

#[test]
fn shares_are_rounded_down() {
    assert_eq!(share_of(rate(0.9), 200), 180);
    assert_eq!(share_of(rate(0.08), 200), 16);
    assert_eq!(share_of(rate(0.5), 7), 3);
    assert_eq!(share_of(rate(0.999999), 7), 6);
    assert_eq!(share_of(0, 7), 0);
    assert_eq!(share_of(RATE_ONE, 7), 7);
    assert_eq!(share_of(3 * RATE_ONE, 7), 7);
    assert_eq!(share_of(rate(0.5), 0), 0);
    assert_eq!(share_of(RATE_ONE, usize::MAX), usize::MAX);
}

#[test]
fn coins_fall_on_both_sides() {
    let heads = (0..20_000).filter(|_| coin()).count();
    assert!(9_000 < heads && heads < 11_000);
}

#[test]
fn a_new_search_has_random_short_programs() {
    let ga = GAlgo::new(200, rate(0.3), rate(0.8), rate(0.9), rate(0.08), Adder);
    assert_eq!(ga.size(), 200);
    assert_eq!(ga.generation, 0);
    assert_eq!(ga.max_fit, 0);
    assert_eq!(ga.min_fit, 0);
    let mut lengths = std::collections::BTreeSet::new();
    for text in members(&ga) {
        assert!(text.len() < FIRST_LENGTHS);
        assert!(text.chars().all(|c| ALPHABET.contains(c)));
        lengths.insert(text.len());
    }
    assert_eq!(lengths.len(), 10);
    let none = GAlgo::new(0, rate(0.3), rate(0.8), rate(0.9), rate(0.08), Adder);
    assert_eq!(none.size(), 0);
}

#[test]
fn rand_prog_is_a_member() {
    let ga = GAlgo::new(20, rate(0.3), rate(0.8), rate(0.9), rate(0.08), Adder);
    let all = members(&ga);
    for _ in 0..50 {
        assert!(all.contains(&ga.rand_prog().code));
    }
}

#[test]
fn a_seeded_solution_ends_the_search_at_once() {
    let target = "hi".to_string();
    let solution = "7--------.+.";
    let mut found = None;
    // the run of the solution is timed: one that the machine holds up for
    // longer than the budget writes less than the target
    for _ in 0..5 {
        let pop = vec![program("+"), program(""), program(solution), program("7.")];
        let mut ga =
            GAlgo::from_population(pop, rate(0.3), rate(0.8), rate(0.9), rate(0.08), target.clone());
        let res = ga.step_pop();
        if let Some(winner) = res {
            assert_eq!(ga.generation, 0);
            assert_eq!(members(&ga), vec!["+", "", solution, "7."]);
            found = Some((winner.code, ga.max_fit, ga.min_fit));
            break;
        }
    }
    let (winner, max_fit, min_fit) = found.unwrap();
    assert_eq!(winner, solution);
    assert_eq!(max_fit, SCORE_ONE);
    assert_eq!(max_fit, target.max_fitness());
    // "+" and "" write nothing: 1 / (1 + 104 + 105)
    assert_eq!(min_fit, SCORE_ONE / 210);
}

#[test]
fn a_lone_solution_is_returned() {
    let target = "hi".to_string();
    let mut hits = 0;
    for _ in 0..5 {
        let pop = vec![program("7--------.+.")];
        let mut ga = GAlgo::from_population(pop, 0, 0, 0, 0, target.clone());
        if let Some(winner) = ga.step_pop() {
            assert_eq!(winner.code, "7--------.+.");
            assert_eq!(ga.max_fit, SCORE_ONE);
            assert_eq!(ga.min_fit, SCORE_ONE);
            hits += 1;
        }
    }
    assert!(hits >= 1);
}

#[test]
fn a_step_breeds_the_next_generation() {
    let target = "hi".to_string();
    let mut ga = GAlgo::new(50, rate(0.3), rate(0.8), rate(0.9), rate(0.08), target);
    let mut steps = 0;
    for _ in 0..5 {
        let before = ga.generation;
        match ga.step_pop() {
            None => {
                assert_eq!(ga.generation, before + 1);
                steps += 1;
            }
            Some(_) => {
                assert_eq!(ga.generation, before);
                assert_eq!(ga.max_fit, SCORE_ONE);
                break;
            }
        }
        assert_eq!(ga.size(), 50);
        assert!(ga.min_fit <= ga.max_fit);
        assert!(ga.max_fit <= SCORE_ONE);
    }
    assert!(steps >= 1);
}

#[test]
fn the_best_are_kept_unchanged() {
    let target = "hi".to_string();
    // scores: "7." 1/(1+8+105), "" 1/210, "7--------." 1/106, "7--------.+" 1/106, "+" 1/210
    let texts = ["7.", "", "7--------.", "7--------.+", "+"];
    let mut done = false;
    for _ in 0..5 {
        let pop = texts.iter().map(|text| program(text)).collect();
        // nothing is bred, three of five are kept
        let mut ga = GAlgo::from_population(pop, rate(0.3), 0, rate(0.9), rate(0.6), target.clone());
        assert!(ga.step_pop().is_none());
        assert_eq!(ga.generation, 1);
        if ga.max_fit != SCORE_ONE / 106 || ga.min_fit != SCORE_ONE / 210 {
            // a run was held up for longer than its budget
            continue;
        }
        let next = members(&ga);
        assert_eq!(next.len(), 5);
        assert_eq!(&next[..3], &["7--------.", "7--------.+", "7."]);
        for filled in &next[3..] {
            assert!(FILL_MIN_LENGTH <= filled.len() && filled.len() < FILL_MAX_LENGTH);
            assert!(filled.chars().all(|c| ALPHABET.contains(c)));
        }
        done = true;
        break;
    }
    assert!(done);
}

#[test]
fn children_come_from_two_parents() {
    let target = "hi".to_string();
    let texts = ["++++++++", "--------", ">>>>>>>>", "<<<<<<<<"];
    let pop = texts.iter().map(|text| program(text)).collect();
    // all four are bred, none mutated, none kept
    let mut ga = GAlgo::from_population(pop, 0, RATE_ONE, RATE_ONE, RATE_ONE, target);
    assert!(ga.step_pop().is_none());
    let next = members(&ga);
    assert_eq!(next.len(), 4);
    for child in next {
        assert_eq!(child.len(), 8);
        let first = child.chars().next().unwrap();
        let last = child.chars().last().unwrap();
        let pivot = child.chars().take_while(|&c| c == first).count();
        assert!(child[pivot..].chars().all(|c| c == last));
        assert!("+-><".contains(first) && "+-><".contains(last));
    }
}

#[test]
fn full_mutation_inserts_into_every_child() {
    let target = "hi".to_string();
    let pop = (0..6).map(|_| program("++++")).collect();
    let mut ga = GAlgo::from_population(pop, RATE_ONE, RATE_ONE, RATE_ONE, 0, target);
    assert!(ga.step_pop().is_none());
    for child in members(&ga) {
        assert_eq!(child.len(), 5);
        assert_eq!(child.chars().filter(|&c| c == '+').count() >= 4, true);
    }
}

#[test]
fn an_empty_population_stays_empty() {
    let mut ga = GAlgo::from_population(vec![], rate(0.3), rate(0.8), rate(0.9), rate(0.08), Adder);
    assert!(ga.step_pop().is_none());
    assert_eq!(ga.size(), 0);
    assert_eq!(ga.generation, 1);
    assert_eq!(ga.max_fit, 0);
    assert_eq!(ga.min_fit, SCORE_ONE);
}

#[test]
fn nothing_is_bred_without_crossover() {
    let target = "hi".to_string();
    let pop = (0..4).map(|_| program("++++")).collect();
    let mut ga = GAlgo::from_population(pop, 0, 0, RATE_ONE, 0, target);
    assert!(ga.step_pop().is_none());
    let next = members(&ga);
    assert_eq!(next.len(), 4);
    for filled in next {
        assert!(FILL_MIN_LENGTH <= filled.len() && filled.len() < FILL_MAX_LENGTH);
    }
}

#[test]
fn a_child_comes_however_rare_the_crossover() {
    assert_eq!(BREED_TRIES, 1_000_000);
    let target = "hi".to_string();
    let pop = (0..2).map(|_| program("++++")).collect();
    // one crossover in a million draws, and one child wanted
    let mut ga = GAlgo::from_population(pop, 0, 1, rate(0.5), 0, target);
    assert!(ga.step_pop().is_none());
    let next = members(&ga);
    assert_eq!(next.len(), 2);
    assert_eq!(next[0], "++++");
    assert!(FILL_MIN_LENGTH <= next[1].len() && next[1].len() < FILL_MAX_LENGTH);
}

#[test]
fn the_bred_share_is_bred_in_full() {
    let target = "hi".to_string();
    for cross in [rate(0.05), rate(0.3), rate(0.8), RATE_ONE] {
        let pop = (0..10).map(|_| program("++++")).collect();
        // five children, three kept, two filled up
        let mut ga = GAlgo::from_population(pop, 0, cross, rate(0.5), rate(0.3), target.clone());
        assert!(ga.step_pop().is_none());
        let next = members(&ga);
        assert_eq!(next.len(), 10);
        for text in &next[..8] {
            assert_eq!(text, "++++");
        }
        for filled in &next[8..] {
            assert!(FILL_MIN_LENGTH <= filled.len() && filled.len() < FILL_MAX_LENGTH);
        }
    }
}

#[test]
fn the_elite_takes_the_room_that_the_children_leave() {
    let target = "hi".to_string();
    let pop = (0..10).map(|_| program("++++")).collect();
    // nine children, and one kept of the five that the kept share asks for
    let mut ga = GAlgo::from_population(pop, RATE_ONE, rate(0.5), rate(0.9), rate(0.5), target);
    assert!(ga.step_pop().is_none());
    let next = members(&ga);
    assert_eq!(next.len(), 10);
    for child in &next[..9] {
        assert_eq!(child.len(), 5);
    }
    assert_eq!(next[9], "++++");
}

#[test]
fn the_fields_can_be_read_through_getters() {
    let target = "hi".to_string();
    let pop = vec![program("7."), program("")];
    let mut ga = GAlgo::from_population(pop, 0, 0, 0, 0, target);
    assert_eq!(ga.generation_count(), 0);
    assert!(ga.step_pop().is_none());
    assert_eq!(ga.generation_count(), ga.generation);
    assert_eq!(ga.generation_count(), 1);
    assert_eq!(ga.highest_seen(), ga.max_fit);
    assert_eq!(ga.lowest_seen(), ga.min_fit);
    assert_eq!(ga.lowest_seen(), SCORE_ONE / 210);
    assert_eq!(ga.highest_seen(), SCORE_ONE / 114);
}

#[test]
fn the_adder_search_runs() {
    let mut ga = GAlgo::new(30, rate(0.3), rate(0.8), rate(0.9), rate(0.08), Adder);
    for _ in 0..3 {
        if ga.step_pop().is_some() {
            break;
        }
        assert_eq!(ga.size(), 30);
        assert!(ga.min_fit <= ga.max_fit);
    }
}
