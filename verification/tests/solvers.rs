use std::time::Instant;

use pgo_co::algorithm::Algorithm;
use pgo_co::co::eda::{worsts_of, Population, Umd};
use pgo_co::co::sa::{random_swap, Annealing};
use pgo_co::co::{constructive, eda, local_search, CoProblem};
use pgo_co::permutation::{check_permutation, identity};
use pgo_co::ranking::rank_descending;

fn sorted(p: &[usize]) -> Vec<usize> {
    let mut q = p.to_vec();
    q.sort();
    q
}

fn two_blocks() -> CoProblem {
    CoProblem { c: vec![vec![0, 5], vec![3, 0]], s: vec![10, 10], n: 2 }
}

fn three_blocks() -> CoProblem {
    CoProblem { c: vec![vec![0, 0, 10], vec![0, 0, 0], vec![10, 0, 0]], s: vec![1, 1, 1], n: 3 }
}

fn five_blocks() -> CoProblem {
    CoProblem {
        c: vec![
            vec![0, 9, 0, 0, 1],
            vec![0, 0, 8, 0, 0],
            vec![2, 0, 0, 7, 0],
            vec![0, 0, 0, 0, 6],
            vec![0, 3, 0, 0, 0],
        ],
        s: vec![4, 2, 6, 1, 3],
        n: 5,
    }
}

#[test]
fn identity_counts_up() {
    assert_eq!(identity(0), Vec::<usize>::new());
    assert_eq!(identity(4), vec![0, 1, 2, 3]);
}

#[test]
fn check_permutation_accepts_exactly_the_permutations() {
    assert!(check_permutation(&[], 0));
    assert!(check_permutation(&[2, 0, 1], 3));
    assert!(!check_permutation(&[2, 0, 2], 3));
    assert!(!check_permutation(&[0, 1, 3], 3));
    assert!(!check_permutation(&[0, 1], 3));
    assert!(!check_permutation(&[0, 1, 2, 3], 3));
}

#[test]
fn rank_descending_is_stable() {
    assert_eq!(rank_descending(&vec![5, 9, 5, 1, 9], false), vec![1, 4, 0, 2, 3]);
    assert_eq!(rank_descending(&vec![5, 9, 5, 1, 9], true), vec![4, 1, 2, 0, 3]);
    assert_eq!(rank_descending(&vec![], false), Vec::<usize>::new());
}

#[test]
fn local_search_returns_a_permutation_and_its_fitness() {
    for problem in [two_blocks(), three_blocks(), five_blocks()] {
        for _ in 0..20 {
            let (order, fitness) = local_search::run(&problem);
            assert_eq!(sorted(&order), identity(problem.n));
            assert_eq!(fitness, problem.eval(&order));
        }
    }
}

#[test]
fn local_search_reaches_the_optimum_of_three_blocks() {
    let problem = three_blocks();
    for _ in 0..50 {
        let (order, fitness) = local_search::run(&problem);
        assert_eq!(fitness, 20);
        let at0 = order.iter().position(|v| *v == 0).unwrap();
        let at2 = order.iter().position(|v| *v == 2).unwrap();
        assert_eq!(at0.abs_diff(at2), 1);
    }
}

#[test]
fn local_search_ends_in_a_local_optimum() {
    let problem = five_blocks();
    for _ in 0..20 {
        let (order, fitness) = local_search::run(&problem);
        for i in 0..5 {
            for j in (i + 1)..5 {
                let mut other = order.clone();
                other.swap(i, j);
                assert!(problem.eval(&other) <= fitness);
            }
        }
    }
}

#[test]
fn local_search_handles_the_smallest_problems() {
    let empty = CoProblem { c: vec![], s: vec![], n: 0 };
    assert_eq!(local_search::run(&empty), (vec![], 0));
    let single = CoProblem { c: vec![vec![3]], s: vec![2], n: 1 };
    assert_eq!(local_search::run(&single), (vec![0], 0));
}

#[test]
fn two_blocks_any_solver_returns_one_of_the_two() {
    let problem = two_blocks();
    for _ in 0..20 {
        for (order, fitness) in [
            local_search::run(&problem),
            constructive::construct_solution(&problem),
            eda::run(&problem, 6, 3),
        ] {
            assert!(order == vec![0, 1] || order == vec![1, 0]);
            assert_eq!(fitness, 0);
        }
    }
}

#[test]
fn constructive_returns_a_permutation_and_its_fitness() {
    for problem in [two_blocks(), three_blocks(), five_blocks()] {
        for _ in 0..50 {
            let (order, fitness) = constructive::construct_solution(&problem);
            assert_eq!(sorted(&order), identity(problem.n));
            assert_eq!(fitness, problem.eval(&order));
        }
    }
}

#[test]
fn constructive_handles_the_smallest_problems() {
    let empty = CoProblem { c: vec![], s: vec![], n: 0 };
    assert_eq!(constructive::construct_solution(&empty), (vec![], 0));
    let single = CoProblem { c: vec![vec![3]], s: vec![2], n: 1 };
    assert_eq!(constructive::construct_solution(&single), (vec![0], 0));
}

#[test]
fn rank_by_interaction_orders_by_row_sum() {
    // row sums: 10, 8, 9, 7, 3
    assert_eq!(constructive::rank_by_interaction(&five_blocks()), vec![0, 2, 1, 3, 4]);
    // equal sums keep the order of the blocks
    assert_eq!(constructive::rank_by_interaction(&three_blocks()), vec![0, 2, 1]);
}

#[test]
fn children_of_lists_reached_blocks_by_score() {
    let problem = CoProblem {
        c: vec![vec![0, 4, 4, 1], vec![0, 0, 0, 0], vec![2, 0, 0, 0], vec![0, 0, 0, 0]],
        s: vec![1, 2, 3, 4],
        n: 4,
    };
    // scores from parent 0: block 1: 4*(10-2)=32, block 2: 6*(10-3)=42, block 3: 1*(10-4)=6
    let none = vec![true, false, false, false];
    assert_eq!(constructive::children_of(&problem, 0, &none, 10), vec![2, 1, 3]);
    let some = vec![true, false, true, false];
    assert_eq!(constructive::children_of(&problem, 0, &some, 10), vec![1, 3]);
    assert_eq!(constructive::children_of(&problem, 1, &none, 10), Vec::<usize>::new());
}

#[test]
fn eda_returns_a_permutation_and_its_fitness() {
    for problem in [two_blocks(), three_blocks(), five_blocks()] {
        for _ in 0..10 {
            let (order, fitness) = eda::run(&problem, 10, 10);
            assert_eq!(sorted(&order), identity(problem.n));
            assert_eq!(fitness, problem.eval(&order));
        }
    }
}

#[test]
fn eda_without_generations_returns_an_initial_order() {
    let problem = five_blocks();
    let (order, fitness) = eda::run(&problem, 2, 0);
    assert_eq!(sorted(&order), identity(5));
    assert_eq!(fitness, problem.eval(&order));
}

#[test]
fn eda_with_an_odd_population_keeps_the_smaller_half() {
    let problem = five_blocks();
    let pop = Population(vec![vec![0, 1, 2, 3, 4], vec![4, 3, 2, 1, 0], vec![1, 0, 2, 3, 4]]);
    assert_eq!(pop.select_survivors(&problem, 3 / 2).len(), 1);
    let (order, _) = eda::run(&problem, 3, 5);
    assert_eq!(sorted(&order), identity(5));
}

#[test]
fn population_init_holds_permutations() {
    let pop = Population::init(6, 9);
    assert_eq!(pop.0.len(), 9);
    for s in &pop.0 {
        assert_eq!(sorted(s), identity(6));
    }
    assert_eq!(Population::init(3, 0).0.len(), 0);
}

#[test]
fn population_init_shuffles() {
    let pop = Population::init(8, 50);
    assert!(pop.0.iter().any(|s| *s != identity(8)));
    let first = &pop.0[0];
    assert!(pop.0.iter().any(|s| s != first));
}

#[test]
fn select_survivors_takes_the_best_first() {
    let problem = three_blocks();
    let pop = Population(vec![vec![0, 1, 2], vec![0, 2, 1], vec![2, 1, 0], vec![1, 0, 2]]);
    assert_eq!(pop.select_survivors(&problem, 2), vec![(1, 20), (3, 20)]);
    assert_eq!(pop.select_survivors(&problem, 3), vec![(1, 20), (3, 20), (0, 0)]);
    assert_eq!(pop.select_survivors(&problem, 9).len(), 4);
    assert_eq!(pop.select_survivors(&problem, 0), vec![]);
}

#[test]
fn evolve_keeps_the_best_and_redraws_the_others() {
    let problem = three_blocks();
    for _ in 0..50 {
        let mut pop = Population(vec![vec![0, 1, 2], vec![0, 2, 1], vec![2, 1, 0], vec![1, 0, 2]]);
        let chosen = pop.evolve(&problem, 2);
        assert_eq!(chosen, vec![(1, 20), (3, 20)]);
        assert_eq!(pop.0.len(), 4);
        assert_eq!(pop.0[1], vec![0, 2, 1]);
        assert_eq!(pop.0[3], vec![1, 0, 2]);
        // the model of the two kept orders allows these three orders and no other
        for redrawn in [&pop.0[0], &pop.0[2]] {
            assert!(
                *redrawn == vec![0, 2, 1] || *redrawn == vec![1, 0, 2] || *redrawn == vec![1, 2, 0]
            );
        }
    }
}

#[test]
fn evolve_with_all_kept_changes_nothing() {
    let problem = three_blocks();
    let mut pop = Population(vec![vec![0, 1, 2], vec![0, 2, 1]]);
    let chosen = pop.evolve(&problem, 5);
    assert_eq!(chosen, vec![(1, 20), (0, 0)]);
    assert_eq!(pop.0, vec![vec![0, 1, 2], vec![0, 2, 1]]);
}

#[test]
fn stats_gives_lowest_mean_and_highest() {
    let problem = three_blocks();
    let pop = Population(vec![vec![0, 1, 2], vec![0, 2, 1], vec![2, 1, 0]]);
    assert_eq!(pop.stats(&problem), (0, 6, 20));
}

#[test]
fn worsts_are_those_not_chosen() {
    assert_eq!(worsts_of(&vec![(1, 20), (3, 20)], 5), vec![0, 2, 4]);
    assert_eq!(worsts_of(&vec![], 2), vec![0, 1]);
}

#[test]
fn umd_counts_blocks_by_position() {
    let a = vec![0, 1, 2];
    let b = vec![0, 2, 1];
    let c = vec![1, 0, 2];
    let model = Umd::from(&vec![&a, &b, &c]);
    assert_eq!(model.0, vec![vec![2, 1, 0], vec![1, 1, 1], vec![0, 1, 2]]);
}

#[test]
fn position_weights_follow_the_counts() {
    assert_eq!(Umd::position_weights(&vec![2, 1, 0], &vec![false, false, false]), vec![2, 1, 0]);
    assert_eq!(Umd::position_weights(&vec![2, 1, 0], &vec![true, false, false]), vec![0, 1, 0]);
    // no block that is left has a positive count: all that are left weigh one
    assert_eq!(Umd::position_weights(&vec![2, 1, 0], &vec![true, true, false]), vec![0, 0, 1]);
    assert_eq!(Umd::position_weights(&vec![3, 0, 0], &vec![true, false, false]), vec![0, 1, 1]);
}

#[test]
fn umd_of_one_order_samples_that_order() {
    let a = vec![2, 0, 3, 1];
    let model = Umd::from(&vec![&a]);
    for _ in 0..20 {
        assert_eq!(model.sample(), a);
    }
}

#[test]
fn umd_samples_permutations() {
    let a = vec![0, 1, 2, 3];
    let b = vec![0, 2, 1, 3];
    let c = vec![0, 2, 3, 1];
    let model = Umd::from(&vec![&a, &b, &c]);
    for _ in 0..100 {
        let s = model.sample();
        assert_eq!(sorted(&s), identity(4));
        assert_eq!(s[0], 0);
    }
}

#[test]
fn umd_never_draws_a_block_of_weight_zero() {
    let a = vec![0, 1, 2, 3];
    let b = vec![1, 0, 3, 2];
    let model = Umd::from(&vec![&a, &b]);
    for _ in 0..100 {
        let s = model.sample();
        assert!(s == a || s == b || s == vec![0, 1, 3, 2] || s == vec![1, 0, 2, 3]);
    }
}

#[test]
fn sample_and_replace_leaves_the_others() {
    let a = vec![2, 0, 1];
    let model = Umd::from(&vec![&a]);
    let mut pop = Population(vec![vec![0, 1, 2], vec![1, 0, 2], vec![1, 2, 0]]);
    model.sample_and_replace(&mut pop, &[0, 2]);
    assert_eq!(pop.0, vec![vec![2, 0, 1], vec![1, 0, 2], vec![2, 0, 1]]);
}

#[test]
fn random_swap_exchanges_two_positions() {
    for _ in 0..100 {
        let mut s = vec![10, 11, 12, 13];
        let (i, j) = random_swap(&mut s);
        assert_ne!(i, j);
        assert!(i < 4 && j < 4);
        let mut t = vec![10, 11, 12, 13];
        t.swap(i, j);
        assert_eq!(s, t);
    }
    let mut pair = vec![7, 8];
    random_swap(&mut pair);
    assert_eq!(pair, vec![8, 7]);
}

#[test]
fn random_swap_reaches_every_pair() {
    let mut seen = [[false; 3]; 3];
    for _ in 0..500 {
        let mut s = vec![0, 1, 2];
        let (i, j) = random_swap(&mut s);
        seen[i][j] = true;
    }
    for i in 0..3 {
        for j in 0..3 {
            assert_eq!(seen[i][j], i != j);
        }
    }
}

#[test]
fn annealing_always_accepts_a_better_neighbor() {
    let problem = three_blocks();
    let mut state = Annealing { solution: vec![0, 1, 2], solution_f: 0, best_solution: vec![0, 1, 2], best_solution_f: 0 };
    assert_eq!(state.energy(20), 20);
    state.step(vec![0, 2, 1], 20, false);
    assert_eq!(state.solution, vec![0, 2, 1]);
    assert_eq!(state.solution_f, 20);
    assert_eq!(state.best_solution, vec![0, 2, 1]);
    assert_eq!(state.best_solution_f, 20);
    assert_eq!(problem.eval(&state.solution), 20);
}

#[test]
fn annealing_accepts_a_worse_neighbor_only_when_told() {
    let mut state = Annealing { solution: vec![0, 2, 1], solution_f: 20, best_solution: vec![0, 2, 1], best_solution_f: 20 };
    assert_eq!(state.energy(0), -20);
    state.step(vec![0, 1, 2], 0, false);
    assert_eq!(state.solution, vec![0, 2, 1]);
    assert_eq!(state.solution_f, 20);
    state.step(vec![0, 1, 2], 0, true);
    assert_eq!(state.solution, vec![0, 1, 2]);
    assert_eq!(state.solution_f, 0);
    assert_eq!(state.best_solution, vec![0, 2, 1]);
    assert_eq!(state.best_solution_f, 20);
    // better than the current order but not than the best: accepted, best stays
    state.step(vec![1, 2, 0], 10, false);
    assert_eq!(state.solution, vec![1, 2, 0]);
    assert_eq!(state.best_solution, vec![0, 2, 1]);
}

#[test]
fn annealing_starts_and_proposes_permutations() {
    let problem = five_blocks();
    let state = Annealing::start(&problem);
    assert_eq!(sorted(&state.solution), identity(5));
    assert_eq!(state.solution, state.best_solution);
    assert_eq!(state.solution_f, problem.eval(&state.solution));
    for _ in 0..20 {
        let (neighbor, f) = state.propose(&problem);
        assert_eq!(sorted(&neighbor), identity(5));
        assert_eq!(f, problem.eval(&neighbor));
        let differing = (0..5).filter(|i| neighbor[*i] != state.solution[*i]).count();
        assert_eq!(differing, 2);
    }
}

#[test]
fn search_from_any_start_reaches_the_optimum_of_three_blocks() {
    let problem = three_blocks();
    for start in [[0, 1, 2], [0, 2, 1], [1, 0, 2], [1, 2, 0], [2, 0, 1], [2, 1, 0]] {
        let found = local_search::search_from(&problem, start.to_vec(), &Instant::now());
        assert!(found.ended);
        assert_eq!(found.fitness, 20);
        assert_eq!(problem.eval(&found.order), 20);
        assert!(found.passes <= 2);
        let at0 = found.order.iter().position(|v| *v == 0).unwrap();
        let at2 = found.order.iter().position(|v| *v == 2).unwrap();
        assert_eq!(at0.abs_diff(at2), 1);
    }
}

#[test]
fn search_from_takes_the_first_improving_swap() {
    let problem = three_blocks();
    // from [0, 1, 2] the first swap, of positions 0 and 1, already improves
    let found = local_search::search_from(&problem, vec![0, 1, 2], &Instant::now());
    assert_eq!(found.order, vec![1, 0, 2]);
    assert_eq!((found.fitness, found.ended, found.passes), (20, true, 2));
    // a local optimum stays as it is
    let found = local_search::search_from(&problem, vec![0, 2, 1], &Instant::now());
    assert_eq!(found.order, vec![0, 2, 1]);
    assert_eq!((found.fitness, found.ended, found.passes), (20, true, 1));
}

#[test]
fn search_from_never_lowers_the_fitness() {
    let problem = five_blocks();
    let start = vec![4, 3, 2, 1, 0];
    let before = problem.eval(&start);
    let found = local_search::search_from(&problem, start, &Instant::now());
    assert!(found.ended);
    assert!(found.fitness >= before);
    assert!(found.passes <= (found.fitness - before) as u128 + 1);
    assert_eq!(sorted(&found.order), identity(5));
}

#[test]
fn parent_weights_square_the_ranking_entries() {
    let rank = vec![0, 2, 1, 3, 4];
    let free = vec![false; 5];
    assert_eq!(constructive::parent_weights(&rank, &free), vec![0, 4, 1, 9, 16]);
    let some = vec![false, true, false, true, false];
    assert_eq!(constructive::parent_weights(&rank, &some), vec![0, 0, 1, 0, 16]);
}

#[test]
fn place_grows_the_order_at_either_end() {
    let mut solution = std::collections::VecDeque::new();
    let mut selected = vec![false; 4];
    constructive::place(&mut solution, &mut selected, 2, false);
    constructive::place(&mut solution, &mut selected, 0, true);
    constructive::place(&mut solution, &mut selected, 3, false);
    assert_eq!(Vec::from(solution), vec![0, 2, 3]);
    assert_eq!(selected, vec![true, false, true, true]);
}

#[test]
fn child_position_weights_fall_with_the_position() {
    assert_eq!(constructive::position_weights(4), vec![16, 9, 4, 1]);
    assert_eq!(constructive::position_weights(0), Vec::<u64>::new());
}

#[test]
fn algorithms_go_by_their_names() {
    assert_eq!(Algorithm::from_name("constructive"), Some(Algorithm::Constructive));
    assert_eq!(Algorithm::from_name("LS"), Some(Algorithm::LocalSearch));
    assert_eq!(Algorithm::from_name("SA"), Some(Algorithm::SimulatedAnnealing));
    assert_eq!(Algorithm::from_name("EDA"), Some(Algorithm::Eda));
    assert_eq!(Algorithm::from_name("ls"), None);
    assert_eq!("SA".parse::<Algorithm>(), Ok(Algorithm::SimulatedAnnealing));
    assert_eq!(
        "tabu".parse::<Algorithm>(),
        Err("Invalid algorithm tabu. Valid options are: constructive, LS, SA and EDA".to_string())
    );
}
