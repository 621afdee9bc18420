use pgo_co::co::CoProblem;
use pgo_co::generator::generate;
use pgo_co::profdata::{BasicBlock, Branch, Function, Metadata, Module};

fn text(s: &str) -> Metadata {
    Metadata::String(s.to_string())
}

fn weights(values: &[u64]) -> Option<Metadata> {
    let mut children = vec![text("branch_weights")];
    for v in values {
        children.push(Metadata::IntValue(*v));
    }
    Some(Metadata::Node(children))
}

fn entry_count(count: u64) -> Option<Metadata> {
    Some(Metadata::Node(vec![text("function_entry_count"), Metadata::IntValue(count)]))
}

fn function(name: &str, entry_md: Option<Metadata>, blocks: usize, weight: u64) -> Function {
    // a chain 0 -> 1 -> ... -> blocks-1, every branch with the same weight
    let mut tree = vec![];
    let mut md = vec![];
    for i in 0..blocks {
        if i + 1 < blocks {
            tree.push(vec![i + 1]);
            md.push(weights(&[weight]));
        } else {
            tree.push(vec![]);
            md.push(None);
        }
    }
    Function {
        name: name.to_string(),
        entry_md,
        bb_terminator_md: md,
        num_bbs: blocks,
        function_ref: 0,
        bbs_branch_tree: tree,
        bbs_num_instrs: vec![1; blocks],
    }
}

fn names(set: &[(String, CoProblem)]) -> Vec<&str> {
    set.iter().map(|e| e.0.as_str()).collect()
}

#[test]
fn branch_weights_are_the_integers_after_the_name() {
    assert_eq!(weights(&[7, 3]).unwrap().branch_weights(), Some(vec![7, 3]));
    assert_eq!(weights(&[]).unwrap().branch_weights(), Some(vec![]));
}

#[test]
fn branch_weights_of_another_shape_are_absent() {
    assert_eq!(text("branch_weights").branch_weights(), None);
    assert_eq!(Metadata::IntValue(3).branch_weights(), None);
    assert_eq!(Metadata::FloatValue(0x3ff0_0000_0000_0000).branch_weights(), None);
    assert_eq!(Metadata::Node(vec![]).branch_weights(), None);
    assert_eq!(Metadata::Node(vec![Metadata::IntValue(1)]).branch_weights(), None);
    assert_eq!(Metadata::Node(vec![text("other"), Metadata::IntValue(1)]).branch_weights(), None);
    assert_eq!(
        Metadata::Node(vec![text("branch_weights"), Metadata::IntValue(1), text("x")]).branch_weights(),
        None
    );
    assert_eq!(
        Metadata::Node(vec![text("branch_weights"), Metadata::Node(vec![])]).branch_weights(),
        None
    );
}

#[test]
fn entry_count_is_the_integer_after_the_name() {
    assert_eq!(entry_count(42).unwrap().entry_count(), Some(42));
    let more = Metadata::Node(vec![text("function_entry_count"), Metadata::IntValue(5), text("x")]);
    assert_eq!(more.entry_count(), Some(5));
}

#[test]
fn entry_count_of_another_shape_is_absent() {
    assert_eq!(Metadata::Node(vec![text("function_entry_count")]).entry_count(), None);
    assert_eq!(Metadata::Node(vec![text("function_entry_count"), text("5")]).entry_count(), None);
    assert_eq!(weights(&[5]).unwrap().entry_count(), None);
    assert_eq!(Metadata::IntValue(5).entry_count(), None);
}

#[test]
fn get_entry_count_reads_the_function_annotation() {
    assert_eq!(function("f", entry_count(9), 2, 1).get_entry_count(), Some(9));
    assert_eq!(function("f", None, 2, 1).get_entry_count(), None);
    assert_eq!(function("f", weights(&[1]), 2, 1).get_entry_count(), None);
}

#[test]
fn from_blocks_lists_successors_in_textual_order() {
    // block 10 ends in `br cond, 30, 20`, whose operands are (cond, 20, 30)
    let blocks = vec![
        BasicBlock {
            id: 10,
            num_instrs: 3,
            branch: Some(Branch { operands: vec![99, 20, 30], md: weights(&[7, 3]) }),
        },
        BasicBlock { id: 20, num_instrs: 2, branch: Some(Branch { operands: vec![30], md: None }) },
        BasicBlock { id: 30, num_instrs: 1, branch: None },
    ];
    let f = Function::from_blocks("f".to_string(), entry_count(4), 77, blocks).unwrap();
    assert_eq!(f.name, "f");
    assert_eq!(f.num_bbs, 3);
    assert_eq!(f.function_ref, 77);
    assert_eq!(f.bbs_num_instrs, vec![3, 2, 1]);
    assert_eq!(f.bbs_branch_tree, vec![vec![2, 1], vec![2], vec![]]);
    assert_eq!(f.get_entry_count(), Some(4));
    assert_eq!(f.bb_terminator_md[0].as_ref().unwrap().branch_weights(), Some(vec![7, 3]));
    assert!(f.bb_terminator_md[1].is_none());
    assert!(f.bb_terminator_md[2].is_none());
    let p = CoProblem::block_reordering_from(&f).unwrap();
    // 0 -> 2 weighs 7, 0 -> 1 weighs 3, and the branch 1 -> 2 without weights gets 3
    assert_eq!(p.c, vec![vec![0, 3], vec![0, 0]]);
}

#[test]
fn from_blocks_refuses_unknown_targets_and_empty_functions() {
    let blocks = vec![BasicBlock { id: 10, num_instrs: 1, branch: Some(Branch { operands: vec![11], md: None }) }];
    assert!(Function::from_blocks("f".to_string(), None, 0, blocks).is_none());
    assert!(Function::from_blocks("f".to_string(), None, 0, vec![]).is_none());
    // the condition of a branch is no target
    let blocks = vec![BasicBlock { id: 10, num_instrs: 1, branch: Some(Branch { operands: vec![11, 10, 10], md: None }) }];
    let f = Function::from_blocks("f".to_string(), None, 0, blocks).unwrap();
    assert_eq!(f.bbs_branch_tree, vec![vec![0, 0]]);
}

#[test]
fn functions_sort_hottest_lists_the_most_entered_first() {
    let module = Module {
        functions: vec![
            function("a", entry_count(5), 2, 1),
            function("b", None, 2, 1),
            function("c", entry_count(9), 2, 1),
            function("d", entry_count(5), 2, 1),
            function("e", entry_count(1), 2, 1),
        ],
        module_ref: 0,
    };
    assert_eq!(module.hottest(), vec![2, 3, 0, 4]);
    let listed: Vec<(u64, &str)> =
        module.functions_sort_hottest().iter().map(|(count, f)| (*count, f.name.as_str())).collect();
    assert_eq!(listed, vec![(9, "c"), (5, "d"), (5, "a"), (1, "e")]);
}

#[test]
fn generator_omits_functions_outside_the_block_range() {
    let module = Module { functions: vec![function("four", entry_count(1), 4, 2)], module_ref: 0 };
    assert!(generate(&module, None, Some(5), Some(10)).is_empty());
    assert_eq!(names(&generate(&module, None, None, None)), vec!["four"]);
    assert_eq!(names(&generate(&module, None, Some(3), Some(4))), vec!["four"]);
    assert!(generate(&module, None, Some(4), None).is_empty());
    assert!(generate(&module, None, None, Some(3)).is_empty());
}

#[test]
fn generator_never_emits_an_all_zero_problem() {
    let module = Module {
        functions: vec![
            function("zero", entry_count(8), 3, 0),
            function("single", entry_count(7), 1, 1),
            function("cold", None, 3, 4),
            function("hot", entry_count(6), 3, 4),
        ],
        module_ref: 0,
    };
    let set = generate(&module, None, None, None);
    assert_eq!(names(&set), vec!["hot"]);
    for (_, problem) in &set {
        assert!(!problem.is_zeros());
        assert!(problem.is_well_formed());
    }
    assert_eq!(set[0].1.c, vec![vec![0, 4], vec![0, 0]]);
}

#[test]
fn generator_takes_the_hottest_functions_first() {
    let module = Module {
        functions: vec![
            function("warm", entry_count(5), 3, 1),
            function("hot", entry_count(9), 3, 1),
            function("cool", entry_count(2), 3, 1),
        ],
        module_ref: 0,
    };
    assert_eq!(names(&generate(&module, None, None, None)), vec!["hot", "warm", "cool"]);
    assert_eq!(names(&generate(&module, Some(2), None, None)), vec!["hot", "warm"]);
    assert_eq!(names(&generate(&module, Some(0), None, None)), Vec::<&str>::new());
    assert_eq!(names(&generate(&module, Some(7), None, None)).len(), 3);
}
