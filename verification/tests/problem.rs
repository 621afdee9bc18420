use pgo_co::co::CoProblem;
use pgo_co::profdata::{Function, Metadata};

fn weights(values: &[u64]) -> Option<Metadata> {
    let mut children = vec![Metadata::String("branch_weights".to_string())];
    for v in values {
        children.push(Metadata::IntValue(*v));
    }
    Some(Metadata::Node(children))
}

fn function(tree: Vec<Vec<usize>>, md: Vec<Option<Metadata>>, sizes: Vec<usize>) -> Function {
    Function {
        name: "f".to_string(),
        entry_md: None,
        bb_terminator_md: md,
        num_bbs: tree.len(),
        function_ref: 0,
        bbs_branch_tree: tree,
        bbs_num_instrs: sizes,
    }
}

#[test]
fn eval_of_single_block_is_zero() {
    let problem = CoProblem { c: vec![vec![4]], s: vec![3], n: 1 };
    assert_eq!(problem.eval(&[0]), 0);
}

#[test]
fn eval_of_two_blocks_is_zero() {
    let problem = CoProblem { c: vec![vec![0, 5], vec![3, 0]], s: vec![10, 10], n: 2 };
    assert_eq!(problem.eval(&[0, 1]), 0);
    assert_eq!(problem.eval(&[1, 0]), 0);
}

#[test]
fn eval_prefers_interacting_blocks_adjacent() {
    let problem = CoProblem {
        c: vec![vec![0, 0, 10], vec![0, 0, 0], vec![10, 0, 0]],
        s: vec![1, 1, 1],
        n: 3,
    };
    assert_eq!(problem.eval(&[0, 2, 1]), 20);
    assert_eq!(problem.eval(&[1, 0, 2]), 20);
    assert_eq!(problem.eval(&[2, 0, 1]), 20);
    assert_eq!(problem.eval(&[1, 2, 0]), 20);
    assert_eq!(problem.eval(&[0, 1, 2]), 0);
    assert_eq!(problem.eval(&[2, 1, 0]), 0);
}

#[test]
fn eval_exact_value_with_uneven_sizes() {
    // pairs (0,1): (1+2)*(10-3)=21, (1,2): (5+6)*(10-9)=11, (0,2): (3+4)*0=0
    let problem = CoProblem {
        c: vec![vec![0, 1, 3], vec![2, 0, 5], vec![4, 6, 0]],
        s: vec![1, 2, 7],
        n: 3,
    };
    assert_eq!(problem.eval(&[0, 1, 2]), 21 + 11);
    // order [2,0,1]: (2,0): (4+3)*(10-8)=14, (0,1): (1+2)*(10-3)=21, (2,1): 0
    assert_eq!(problem.eval(&[2, 0, 1]), 14 + 21);
}

#[test]
fn eval_saturates_at_the_largest_value() {
    let problem = CoProblem {
        c: vec![vec![0, u64::MAX, 0], vec![u64::MAX, 0, 0], vec![0, 0, 0]],
        s: vec![1, 1, 5],
        n: 3,
    };
    assert_eq!(problem.eval(&[0, 1, 2]), u64::MAX);
    assert_eq!(problem.eval(&[0, 2, 1]), 0);
}

#[test]
fn eval_depends_only_on_the_sum_of_both_directions() {
    let a = CoProblem { c: vec![vec![0, 7, 1], vec![3, 0, 0], vec![5, 9, 0]], s: vec![2, 3, 4], n: 3 };
    let b = CoProblem { c: vec![vec![0, 10, 6], vec![0, 0, 9], vec![0, 0, 0]], s: vec![2, 3, 4], n: 3 };
    for p in [[0, 1, 2], [0, 2, 1], [1, 0, 2], [1, 2, 0], [2, 0, 1], [2, 1, 0]] {
        assert_eq!(a.eval(&p), b.eval(&p));
    }
}

#[test]
fn is_zeros_tells_an_all_zero_matrix() {
    let zero = CoProblem { c: vec![vec![0, 0], vec![0, 0]], s: vec![1, 1], n: 2 };
    assert!(zero.is_zeros());
    let one = CoProblem { c: vec![vec![0, 0], vec![1, 0]], s: vec![1, 1], n: 2 };
    assert!(!one.is_zeros());
    let none = CoProblem { c: vec![], s: vec![], n: 0 };
    assert!(none.is_zeros());
}

#[test]
fn is_well_formed_checks_the_shape() {
    assert!(CoProblem { c: vec![vec![0, 0], vec![0, 0]], s: vec![1, 1], n: 2 }.is_well_formed());
    assert!(!CoProblem { c: vec![vec![0, 0], vec![0]], s: vec![1, 1], n: 2 }.is_well_formed());
    assert!(!CoProblem { c: vec![vec![0, 0], vec![0, 0]], s: vec![1], n: 2 }.is_well_formed());
    assert!(!CoProblem { c: vec![vec![0]], s: vec![1], n: 2 }.is_well_formed());
}

#[test]
fn no_problem_when_entry_does_not_branch() {
    let f = function(vec![vec![]], vec![None], vec![4]);
    assert!(CoProblem::block_reordering_from(&f).is_none());
    let g = function(vec![vec![], vec![0]], vec![None, None], vec![4, 2]);
    assert!(CoProblem::block_reordering_from(&g).is_none());
}

#[test]
fn profiled_weights_fill_the_matrix() {
    let f = function(
        vec![vec![1, 2], vec![2], vec![1]],
        vec![weights(&[7, 3]), weights(&[4]), weights(&[9])],
        vec![5, 6, 8],
    );
    let p = CoProblem::block_reordering_from(&f).unwrap();
    assert_eq!(p.n, 2);
    assert_eq!(p.s, vec![6, 8]);
    assert_eq!(p.c, vec![vec![0, 4], vec![9, 0]]);
}

#[test]
fn missing_weights_are_imputed_from_incoming_flow() {
    let f = function(
        vec![vec![1, 2], vec![3], vec![3], vec![]],
        vec![weights(&[7, 3]), None, None, None],
        vec![1, 2, 3, 4],
    );
    let p = CoProblem::block_reordering_from(&f).unwrap();
    assert_eq!(p.n, 3);
    assert_eq!(p.s, vec![2, 3, 4]);
    // full matrix: C[1][3] = 7 (flow into block 1), C[2][3] = 3 (flow into block 2)
    assert_eq!(p.c, vec![vec![0, 0, 7], vec![0, 0, 3], vec![0, 0, 0]]);
}

#[test]
fn imputed_weight_sums_all_incoming_edges() {
    let f = function(
        vec![vec![1, 2], vec![3], vec![3], vec![4], vec![]],
        vec![weights(&[7, 3]), weights(&[7]), weights(&[3]), None, None],
        vec![1, 1, 1, 1, 1],
    );
    let p = CoProblem::block_reordering_from(&f).unwrap();
    // C[3][4] = C[1][3] + C[2][3] = 10
    assert_eq!(p.c[2][3], 10);
}

#[test]
fn imputation_recurses_through_missing_edges() {
    // 0 -> 1 (5), 1 -> 2 (missing), 2 -> 3 (missing)
    let f = function(
        vec![vec![1], vec![2], vec![3], vec![]],
        vec![weights(&[5]), None, None, None],
        vec![1, 1, 1, 1],
    );
    let p = CoProblem::block_reordering_from(&f).unwrap();
    // (1,2) gets the flow into 1, which is 5; (2,3) then reads C[1][2] = 5
    assert_eq!(p.c, vec![vec![0, 5, 0], vec![0, 0, 5], vec![0, 0, 0]]);
}

#[test]
fn imputation_ends_on_a_cycle() {
    // 0 -> 1 (4); 1 -> 2 and 2 -> 1 without weights
    let f = function(
        vec![vec![1], vec![2], vec![1]],
        vec![weights(&[4]), None, None],
        vec![1, 1, 1],
    );
    let p = CoProblem::block_reordering_from(&f).unwrap();
    assert_eq!(p.n, 2);
    // the flow into block 1 is the 4 from the entry plus what comes round the cycle, which
    // is the same 4 again before the depth limit cuts it off
    assert_eq!(p.c, vec![vec![0, 8], vec![8, 0]]);
}

#[test]
fn malformed_weights_count_as_missing() {
    let other = Some(Metadata::Node(vec![Metadata::String("other".to_string()), Metadata::IntValue(9)]));
    let mixed = Some(Metadata::Node(vec![
        Metadata::String("branch_weights".to_string()),
        Metadata::String("x".to_string()),
    ]));
    let f = function(
        vec![vec![1, 2], vec![2], vec![1]],
        vec![weights(&[7, 3]), other, mixed],
        vec![1, 1, 1],
    );
    let p = CoProblem::block_reordering_from(&f).unwrap();
    // (1,2): flow into 1 = C[0][1] + imputed(2 -> 1); (2,1) is still missing then, so it
    // recurses: flow into 2 = C[0][2] + imputed(1 -> 2), one level deeper, and so on down
    // to the depth limit.
    assert!(p.c[0][1] >= 7);
    assert!(p.c[1][0] >= 3);
    // a wrong number of weights is treated alike
    let g = function(vec![vec![1], vec![]], vec![weights(&[7, 3]), None], vec![1, 1]);
    let q = CoProblem::block_reordering_from(&g).unwrap();
    assert_eq!(q.c, vec![vec![0]]);
    assert!(q.is_zeros());
}

#[test]
fn last_weight_wins_for_a_repeated_successor() {
    let f = function(vec![vec![1, 1], vec![]], vec![weights(&[7, 3]), None], vec![1, 1]);
    let full = CoProblem::block_reordering_from(&f).unwrap();
    assert_eq!(full.n, 1);
    assert_eq!(full.c, vec![vec![0]]);
    let g = function(vec![vec![1], vec![2, 2], vec![]], vec![weights(&[1]), weights(&[7, 3]), None], vec![1, 1, 1]);
    let p = CoProblem::block_reordering_from(&g).unwrap();
    assert_eq!(p.c, vec![vec![0, 3], vec![0, 0]]);
}

#[test]
fn fill_missing_branch_weights_resolves_used_edges() {
    let c = vec![vec![0, 7, 3, 0], vec![0, 0, 0, 0], vec![0, 0, 0, 0], vec![0, 0, 0, 0]];
    let tree = vec![vec![1, 2], vec![3], vec![3], vec![]];
    let mut missing = vec![(1, 3), (2, 3)];
    let flow = CoProblem::fill_missing_branch_weights(&c, 3, &mut missing, &tree, 0, 4);
    assert_eq!(flow, 10);
    assert!(missing.is_empty());
    let mut missing = vec![(1, 3), (2, 3)];
    assert_eq!(CoProblem::fill_missing_branch_weights(&c, 1, &mut missing, &tree, 0, 4), 7);
    assert_eq!(missing, vec![(1, 3), (2, 3)]);
    assert_eq!(CoProblem::fill_missing_branch_weights(&c, 1, &mut missing, &tree, 5, 4), 0);
}

#[test]
fn fill_missing_branch_weights_saturates() {
    let c = vec![vec![0, 0, u64::MAX], vec![0, 0, 2], vec![0, 0, 0]];
    let tree = vec![vec![2], vec![2], vec![]];
    let mut missing = vec![];
    assert_eq!(CoProblem::fill_missing_branch_weights(&c, 2, &mut missing, &tree, 0, 3), u64::MAX);
}

#[test]
fn identity_fitness_is_the_fitness_of_the_given_order() {
    let problem = CoProblem {
        c: vec![vec![0, 1, 3], vec![2, 0, 5], vec![4, 6, 0]],
        s: vec![1, 2, 7],
        n: 3,
    };
    assert_eq!(problem.identity_fitness(), 32);
    assert_eq!(problem.identity_fitness(), problem.eval(&[0, 1, 2]));
    let empty = CoProblem { c: vec![], s: vec![], n: 0 };
    assert_eq!(empty.identity_fitness(), 0);
}

#[test]
fn problem_fields_survive_json() {
    let problem = CoProblem {
        c: vec![vec![0, u64::MAX, 3], vec![2, 0, 5], vec![4, 6, 0]],
        s: vec![1, usize::MAX, 7],
        n: 3,
    };
    let text = serde_json::to_string(&(&problem.c, &problem.s, problem.n)).unwrap();
    let (c, s, n): (Vec<Vec<u64>>, Vec<usize>, usize) = serde_json::from_str(&text).unwrap();
    let read = CoProblem { c, s, n };
    assert_eq!(read.c, problem.c);
    assert_eq!(read.s, problem.s);
    assert_eq!(read.n, problem.n);
    assert!(read.is_well_formed());
    assert_eq!(read.eval(&[2, 0, 1]), problem.eval(&[2, 0, 1]));
}
