use raire::assertions::{
    Assertion, AssertionAndDifficulty, EffectOfAssertionOnEliminationOrderSuffix,
    NotEliminatedBefore, NotEliminatedNext,
};
use raire::irv::CandidateIndex;
use raire::ordering::{precedes, sort_records};
use raire::tree_showing_what_assertions_pruned_leaves::{
    order_assertions_and_remove_unnecessary, SimplisticWorkOutWhichAssertionsAreUsed,
    TreeNodeShowingWhatAssertionsPrunedIt,
};
use raire::RaireError;

fn nen(winner: u32, loser: u32, continuing: &[u32]) -> Assertion {
    Assertion::NEN(NotEliminatedNext {
        winner: CandidateIndex(winner),
        loser: CandidateIndex(loser),
        continuing: continuing.iter().map(|&c| CandidateIndex(c)).collect(),
    })
}

fn neb(winner: u32, loser: u32) -> Assertion {
    Assertion::NEB(NotEliminatedBefore { winner: CandidateIndex(winner), loser: CandidateIndex(loser) })
}

fn raire_guide_assertions() -> Vec<Assertion> {
    vec![
        nen(0, 1, &[0, 1, 2, 3]),
        nen(0, 3, &[0, 2, 3]),
        nen(2, 0, &[0, 2]),
        nen(2, 3, &[0, 2, 3]),
        neb(2, 1),
        nen(0, 3, &[0, 3]),
    ]
}

fn records(assertions: Vec<Assertion>) -> Vec<AssertionAndDifficulty> {
    assertions
        .into_iter()
        .enumerate()
        .map(|(i, assertion)| AssertionAndDifficulty { assertion, difficulty: 10 * i as u64, margin: i as u32 })
        .collect()
}

fn suffix(s: &[u32]) -> Vec<CandidateIndex> {
    s.iter().map(|&c| CandidateIndex(c)).collect()
}

fn tree_for(all: &[Assertion], candidate: u32, extend: bool) -> TreeNodeShowingWhatAssertionsPrunedIt {
    let relevant: Vec<usize> = (0..all.len()).collect();
    TreeNodeShowingWhatAssertionsPrunedIt::new(&[], CandidateIndex(candidate), &relevant, all, 4, extend)
}

fn no_pruned_node_has_children(node: &TreeNodeShowingWhatAssertionsPrunedIt) -> bool {
    if !node.pruning_assertions.is_empty() && !node.children.is_empty() {
        return false;
    }
    node.children.iter().all(no_pruned_node_has_children)
}

#[test]
fn it_works() {
    let all_assertions = raire_guide_assertions();
    let relevant_assertions: Vec<usize> = (0..all_assertions.len()).collect();
    let tree0 = TreeNodeShowingWhatAssertionsPrunedIt::new(&[], CandidateIndex(0), &relevant_assertions, &all_assertions, 4, false);
    let tree1 = TreeNodeShowingWhatAssertionsPrunedIt::new(&[], CandidateIndex(1), &relevant_assertions, &all_assertions, 4, false);
    let tree2 = TreeNodeShowingWhatAssertionsPrunedIt::new(&[], CandidateIndex(2), &relevant_assertions, &all_assertions, 4, false);
    let tree3 = TreeNodeShowingWhatAssertionsPrunedIt::new(&[], CandidateIndex(3), &relevant_assertions, &all_assertions, 4, false);
    assert_eq!(false, tree0.valid);
    assert_eq!(3, tree0.children.len());
    assert_eq!(vec![4], tree0.children[0].pruning_assertions);
    assert_eq!(vec![2], tree0.children[1].pruning_assertions);
    assert_eq!(0, tree0.children[2].pruning_assertions.len());
    assert_eq!(2, tree0.children[2].children.len());
    assert_eq!(vec![4], tree0.children[2].children[0].pruning_assertions);
    assert_eq!(vec![3], tree0.children[2].children[1].pruning_assertions);
    assert_eq!(false, tree1.valid);
    assert_eq!(vec![4], tree1.pruning_assertions);
    assert_eq!(true, tree2.valid); // candidate 2 won.
    assert_eq!(false, tree3.valid);
    assert_eq!(3, tree3.children.len());
    assert_eq!(vec![5], tree3.children[0].pruning_assertions);
    assert_eq!(vec![4], tree3.children[1].pruning_assertions);
    assert_eq!(0, tree3.children[2].pruning_assertions.len());
    assert_eq!(2, tree3.children[2].children.len());
    assert_eq!(vec![1], tree3.children[2].children[0].pruning_assertions);
    assert_eq!(0, tree3.children[2].children[1].pruning_assertions.len());
    assert_eq!(vec![0], tree3.children[2].children[1].children[0].pruning_assertions);
}

#[test]
fn not_eliminated_before_effects() {
    let a = neb(2, 1);
    assert_eq!(EffectOfAssertionOnEliminationOrderSuffix::Contradiction, a.ok_elimination_order_suffix(&suffix(&[1, 0])));
    assert_eq!(EffectOfAssertionOnEliminationOrderSuffix::Consistent, a.ok_elimination_order_suffix(&suffix(&[1, 2])));
    assert_eq!(EffectOfAssertionOnEliminationOrderSuffix::NeedsMoreDetail, a.ok_elimination_order_suffix(&suffix(&[3, 0])));
    assert_eq!(EffectOfAssertionOnEliminationOrderSuffix::NeedsMoreDetail, a.ok_elimination_order_suffix(&[]));
}

#[test]
fn not_eliminated_next_effects() {
    let a = nen(2, 0, &[0, 2]);
    assert_eq!(EffectOfAssertionOnEliminationOrderSuffix::Contradiction, a.ok_elimination_order_suffix(&suffix(&[2, 0])));
    assert_eq!(EffectOfAssertionOnEliminationOrderSuffix::Contradiction, a.ok_elimination_order_suffix(&suffix(&[1, 2, 0])));
    assert_eq!(EffectOfAssertionOnEliminationOrderSuffix::Consistent, a.ok_elimination_order_suffix(&suffix(&[0, 2])));
    assert_eq!(EffectOfAssertionOnEliminationOrderSuffix::Consistent, a.ok_elimination_order_suffix(&suffix(&[3, 0])));
    assert_eq!(EffectOfAssertionOnEliminationOrderSuffix::NeedsMoreDetail, a.ok_elimination_order_suffix(&suffix(&[0])));
    assert_eq!(EffectOfAssertionOnEliminationOrderSuffix::Consistent, a.ok_elimination_order_suffix(&suffix(&[3])));
}

#[test]
fn worked_example_candidate_one_pruned_at_root() {
    let all = raire_guide_assertions();
    let tree1 = tree_for(&all, 1, false);
    assert!(!tree1.valid);
    assert_eq!(vec![4], tree1.pruning_assertions);
    assert!(tree1.children.is_empty());
}

#[test]
fn only_the_winner_tree_is_valid() {
    let all = raire_guide_assertions();
    for c in 0..4 {
        assert_eq!(c == 2, tree_for(&all, c, false).valid);
        assert_eq!(c == 2, tree_for(&all, c, true).valid);
    }
}

#[test]
fn unextended_trees_stop_at_pruned_nodes() {
    let all = raire_guide_assertions();
    for c in 0..4 {
        assert!(no_pruned_node_has_children(&tree_for(&all, c, false)));
    }
}

fn pruned_parents_have_only_invalid_children(node: &TreeNodeShowingWhatAssertionsPrunedIt) -> bool {
    if !node.pruning_assertions.is_empty() && node.children.iter().any(|c| c.valid) {
        return false;
    }
    node.children.iter().all(pruned_parents_have_only_invalid_children)
}

#[test]
fn extended_trees_keep_only_invalid_children_under_pruned_nodes() {
    let all = raire_guide_assertions();
    let tree3 = tree_for(&all, 3, true);
    assert!(!tree3.valid);
    assert_eq!(vec![5], tree3.children[0].pruning_assertions);
    assert_eq!(2, tree3.children[0].children.len());
    for c in 0..4 {
        assert!(pruned_parents_have_only_invalid_children(&tree_for(&all, c, true)));
    }
}

#[test]
fn ordering_puts_nen_before_neb() {
    assert!(precedes(&nen(0, 1, &[0, 1, 2, 3]), &neb(0, 1)));
    assert!(!precedes(&neb(0, 1), &nen(0, 1, &[0, 1])));
    assert!(precedes(&nen(2, 0, &[0, 2]), &nen(0, 3, &[0, 2, 3])));
    assert!(precedes(&nen(0, 3, &[0, 2, 3]), &nen(2, 3, &[0, 2, 3])));
    assert!(precedes(&nen(0, 1, &[0, 1, 2]), &nen(0, 1, &[0, 1, 3])));
    assert!(precedes(&neb(1, 2), &neb(2, 0)));
    assert!(precedes(&neb(1, 0), &neb(1, 2)));
    assert!(!precedes(&neb(1, 2), &neb(1, 2)));
}

#[test]
fn sorting_orders_the_guide_assertions() {
    let mut list = records(raire_guide_assertions());
    sort_records(&mut list);
    let margins: Vec<u32> = list.iter().map(|r| r.margin).collect();
    assert_eq!(vec![5, 2, 1, 3, 0, 4], margins);
    assert_eq!(50, list[0].difficulty);
}

#[test]
fn trims_the_guide_assertions() {
    let mut list = records(raire_guide_assertions());
    assert_eq!(Ok(()), order_assertions_and_remove_unnecessary(&mut list, CandidateIndex(2), 4, false));
    // every pruned leaf of the plain trees has a single pruning assertion, so all are kept
    assert_eq!(6, list.len());
    for i in 1..list.len() {
        assert!(!precedes(&list[i].assertion, &list[i - 1].assertion));
    }
    let kept: Vec<Assertion> = list.iter().map(|r| r.assertion.clone()).collect();
    for c in 0..4 {
        assert_eq!(c == 2, tree_for(&kept, c, false).valid);
    }
}

#[test]
fn trims_the_guide_assertions_with_extended_trees() {
    let mut list = records(raire_guide_assertions());
    assert_eq!(Ok(()), order_assertions_and_remove_unnecessary(&mut list, CandidateIndex(2), 4, true));
    // candidate 3's node pruned by the last NEN is also ruled out one level down
    assert!(list.len() < 6);
    assert!(list.iter().all(|r| r.margin != 5));
    let kept: Vec<Assertion> = list.iter().map(|r| r.assertion.clone()).collect();
    for c in 0..4 {
        assert_eq!(c == 2, tree_for(&kept, c, true).valid);
    }
}

#[test]
fn trimming_is_repeatable() {
    let mut first = records(raire_guide_assertions());
    let mut second = records(raire_guide_assertions());
    let r1 = order_assertions_and_remove_unnecessary(&mut first, CandidateIndex(2), 4, false);
    let r2 = order_assertions_and_remove_unnecessary(&mut second, CandidateIndex(2), 4, false);
    assert_eq!(r1, r2);
    assert_eq!(format!("{:?}", first), format!("{:?}", second));
}

#[test]
fn wrong_winner_is_ruled_out() {
    let mut list = records(raire_guide_assertions());
    assert_eq!(Err(RaireError::InternalErrorRuledOutWinner), order_assertions_and_remove_unnecessary(&mut list, CandidateIndex(0), 4, false));
    assert_eq!(6, list.len());
    assert_eq!(5, list[0].margin);
}

#[test]
fn missing_assertions_leave_a_loser() {
    let mut list = records(vec![neb(2, 1)]);
    assert_eq!(Err(RaireError::InternalErrorDidntRuleOutLoser), order_assertions_and_remove_unnecessary(&mut list, CandidateIndex(2), 4, false));
}

#[test]
fn no_assertions_rule_out_nobody() {
    let mut list: Vec<AssertionAndDifficulty> = vec![];
    assert_eq!(Err(RaireError::InternalErrorDidntRuleOutLoser), order_assertions_and_remove_unnecessary(&mut list, CandidateIndex(0), 3, false));
    let mut list: Vec<AssertionAndDifficulty> = vec![];
    assert_eq!(Err(RaireError::InternalErrorDidntRuleOutLoser), order_assertions_and_remove_unnecessary(&mut list, CandidateIndex(1), 3, true));
    for c in 0..3 {
        let t = TreeNodeShowingWhatAssertionsPrunedIt::new(&[], CandidateIndex(c), &[], &[], 3, false);
        assert!(t.valid);
        assert!(t.children.is_empty());
    }
}

#[test]
fn usage_marks_follow_the_two_sweeps() {
    let all = raire_guide_assertions();
    let tree1 = tree_for(&all, 1, false);
    let mut used = SimplisticWorkOutWhichAssertionsAreUsed::new(6);
    assert!(!used.node_already_eliminated(&tree1));
    used.add_tree_forced(&tree1);
    assert!(used.uses(4));
    assert!(used.node_already_eliminated(&tree1));
    let tree0 = tree_for(&all, 0, false);
    used.add_tree_second_pass(&tree0);
    assert!(used.uses(2));
    assert!(used.uses(3));
    assert!(!used.uses(0));
}
