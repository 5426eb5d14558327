use vstd::prelude::*;
use crate::assertions::{
    Assertion, AssertionAndDifficulty, AssertionView, EffectOfAssertionOnEliminationOrderSuffix, effect_of,
};
use crate::assertions::contains_candidate;
use crate::irv::CandidateIndex;
use crate::ordering::{assertion_lt, is_sorted, lemma_sorted_records, sort_records, sorted_records};
use crate::RaireError;

verus! {

/// Produce a tree of reverse-elimination-order descending down until either
/// * At least one assertion prunes all subsequent orders
/// * No assertions prune any subsequent order
///
/// One can optionally ask for an extended tree, which extends pruned nodes one extra step
/// if each of their children is also pruned. This is useful for finding redundant assertions
/// that can be removed, at the cost of making the frontier larger.
pub struct TreeNodeShowingWhatAssertionsPrunedIt {
    /// The candidate eliminated at this step.
    pub candidate_being_eliminated_at_this_node: CandidateIndex,
    /// The indices, in the main assertion list, of the assertions that prune this node.
    pub pruning_assertions: Vec<usize>,
    /// Its children, if any.
    pub children: Vec<TreeNodeShowingWhatAssertionsPrunedIt>,
    /// Whether this node or a descendant of it is not ruled out by any assertion.
    pub valid: bool,
}

/// The mathematical content of a tree node.
pub ghost struct PruneTree {
    pub candidate: CandidateIndex,
    pub pruning: Seq<usize>,
    pub children: Seq<PruneTree>,
    pub valid: bool,
}

impl View for TreeNodeShowingWhatAssertionsPrunedIt {
    type V = PruneTree;

    open spec fn view(&self) -> PruneTree
        decreases self, 1nat,
    {
        PruneTree {
            candidate: self.candidate_being_eliminated_at_this_node,
            pruning: self.pruning_assertions@,
            children: node_views(self.children@),
            valid: self.valid,
        }
    }
}

/// The views of a sequence of nodes.
pub open spec fn node_views(s: Seq<TreeNodeShowingWhatAssertionsPrunedIt>) -> Seq<PruneTree>
    decreases s, 0nat,
{
    if s.len() == 0 {
        Seq::empty()
    } else {
        node_views(s.subrange(0, s.len() - 1)).push(s[s.len() - 1]@)
    }
}

/// Each element of `s` is the view of the node at the same place.
pub proof fn lemma_node_views(s: Seq<TreeNodeShowingWhatAssertionsPrunedIt>)
    ensures
        node_views(s).len() == s.len(),
        forall|i: int| 0 <= i < s.len() ==> #[trigger] node_views(s)[i] == s[i]@,
    decreases s.len(),
{
    if s.len() > 0 {
        let sub = s.subrange(0, s.len() - 1);
        lemma_node_views(sub);
        assert(node_views(s) == node_views(sub).push(s[s.len() - 1]@));
        assert forall|i: int| 0 <= i < s.len() implies #[trigger] node_views(s)[i] == s[i]@ by {
            if i < s.len() - 1 {
                assert(sub[i] == s[i]);
            }
        }
    } else {
        assert(node_views(s) == Seq::<PruneTree>::empty());
    }
}

/// The views of a sequence of assertions.
pub open spec fn assertion_views(s: Seq<Assertion>) -> Seq<AssertionView> {
    s.map_values(|a: Assertion| a@)
}

/// The indices of `relevant`, in their order, whose assertion has effect `e` on `suffix`.
pub open spec fn select(
    relevant: Seq<usize>,
    all: Seq<AssertionView>,
    suffix: Seq<CandidateIndex>,
    e: EffectOfAssertionOnEliminationOrderSuffix,
) -> Seq<usize>
    decreases relevant.len(),
{
    if relevant.len() == 0 {
        Seq::empty()
    } else {
        let rest = select(relevant.drop_last(), all, suffix, e);
        if effect_of(all[relevant.last() as int], suffix) == e {
            rest.push(relevant.last())
        } else {
            rest
        }
    }
}

/// How many candidates below `x` do not occur in `s`.
pub open spec fn num_missing(s: Seq<CandidateIndex>, x: nat) -> nat
    decreases x,
{
    if x == 0 {
        0
    } else {
        num_missing(s, (x - 1) as nat) + if s.contains(CandidateIndex((x - 1) as u32)) {
            0nat
        } else {
            1nat
        }
    }
}

/// Placing one more absent candidate below `x` in front of `s` leaves fewer missing.
pub proof fn lemma_num_missing_prepend(s: Seq<CandidateIndex>, c: CandidateIndex, x: nat)
    requires
        x <= u32::MAX + 1,
    ensures
        num_missing(seq![c] + s, x) <= num_missing(s, x),
        c.0 < x && !s.contains(c) ==> num_missing(seq![c] + s, x) < num_missing(s, x),
    decreases x,
{
    if x > 0 {
        lemma_num_missing_prepend(s, c, (x - 1) as nat);
        let y = CandidateIndex((x - 1) as u32);
        let t = seq![c] + s;
        assert(t.contains(y) <==> (y == c || s.contains(y))) by {
            if s.contains(y) {
                let j = choose|j: int| 0 <= j < s.len() && s[j] == y;
                assert(t[j + 1] == y);
            }
            if y == c {
                assert(t[0] == y);
            }
            if t.contains(y) {
                let j = choose|j: int| 0 <= j < t.len() && t[j] == y;
                if j > 0 {
                    assert(s[j - 1] == y);
                }
            }
        }
    }
}

/// Whether some tree of `s` is valid.
pub open spec fn any_valid(s: Seq<PruneTree>) -> bool {
    exists|i: int| 0 <= i < s.len() && #[trigger] s[i].valid
}

/// The tree that explores every order ending with `candidate` followed by `parent`.
pub open spec fn build(
    parent: Seq<CandidateIndex>,
    candidate: CandidateIndex,
    relevant: Seq<usize>,
    all: Seq<AssertionView>,
    n: u32,
    extend: bool,
) -> PruneTree
    decreases num_missing(seq![candidate] + parent, n as nat), 1nat, 0nat,
{
    let suffix = seq![candidate] + parent;
    let pruning = select(relevant, all, suffix, EffectOfAssertionOnEliminationOrderSuffix::Contradiction);
    let still = select(relevant, all, suffix, EffectOfAssertionOnEliminationOrderSuffix::NeedsMoreDetail);
    let children = if (pruning.len() == 0 || extend) && still.len() > 0 {
        children_upto(suffix, n as nat, still, all, n, extend && pruning.len() == 0)
    } else {
        Seq::empty()
    };
    let valid = (pruning.len() == 0 && still.len() == 0) || any_valid(children);
    if extend && pruning.len() > 0 && valid {
        PruneTree { candidate, pruning, children: Seq::empty(), valid: false }
    } else {
        PruneTree { candidate, pruning, children, valid }
    }
}

/// The subtrees for the candidates below `x` that are not in `suffix`, in increasing order.
pub open spec fn children_upto(
    suffix: Seq<CandidateIndex>,
    x: nat,
    relevant: Seq<usize>,
    all: Seq<AssertionView>,
    n: u32,
    extend: bool,
) -> Seq<PruneTree>
    decreases num_missing(suffix, n as nat), 0nat, x,
    via children_upto_decreases
{
    if x == 0 || x > n {
        Seq::empty()
    } else {
        let prev = children_upto(suffix, (x - 1) as nat, relevant, all, n, extend);
        let c = CandidateIndex((x - 1) as u32);
        if suffix.contains(c) {
            prev
        } else {
            prev.push(build(suffix, c, relevant, all, n, extend))
        }
    }
}

#[via_fn]
proof fn children_upto_decreases(
    suffix: Seq<CandidateIndex>,
    x: nat,
    relevant: Seq<usize>,
    all: Seq<AssertionView>,
    n: u32,
    extend: bool,
) {
    if x > 0 && x <= n {
        lemma_num_missing_prepend(suffix, CandidateIndex((x - 1) as u32), n as nat);
    }
}

/// Appending a node appends its view.
pub proof fn lemma_node_views_push(
    s: Seq<TreeNodeShowingWhatAssertionsPrunedIt>,
    x: TreeNodeShowingWhatAssertionsPrunedIt,
)
    ensures
        node_views(s.push(x)) == node_views(s).push(x@),
{
    assert(s.push(x).subrange(0, s.len() as int) == s);
}

impl TreeNodeShowingWhatAssertionsPrunedIt {
    /// Create a new tree node with a given path back to the root and candidate being eliminated.
    pub fn new(
        parent_elimination_order_suffix: &[CandidateIndex],
        candidate_being_eliminated_at_this_node: CandidateIndex,
        relevant_assertions: &[usize],
        all_assertions: &[Assertion],
        num_candidates: u32,
        consider_children_of_eliminated_nodes: bool,
    ) -> (r: Self)
        requires
            forall|i: int|
                0 <= i < relevant_assertions@.len() ==> #[trigger] relevant_assertions@[i]
                    < all_assertions@.len(),
        ensures
            r@ == build(
                parent_elimination_order_suffix@,
                candidate_being_eliminated_at_this_node,
                relevant_assertions@,
                assertion_views(all_assertions@),
                num_candidates,
                consider_children_of_eliminated_nodes,
            ),
        decreases num_missing(
            seq![candidate_being_eliminated_at_this_node] + parent_elimination_order_suffix@,
            num_candidates as nat,
        ),
    {
        let parent = parent_elimination_order_suffix;
        let candidate = candidate_being_eliminated_at_this_node;
        let ghost all = assertion_views(all_assertions@);
        let mut elimination_order_suffix: Vec<CandidateIndex> = vec![candidate];
        let mut i: usize = 0;
        while i < parent.len()
            invariant
                0 <= i <= parent.len(),
                parent@ == parent_elimination_order_suffix@,
                elimination_order_suffix@ =~= seq![candidate] + parent@.subrange(0, i as int),
            decreases parent.len() - i,
        {
            elimination_order_suffix.push(parent[i]);
            i += 1;
        }
        assert(parent@.subrange(0, parent@.len() as int) == parent@);
        let ghost suffix = elimination_order_suffix@;
        assert(suffix == seq![candidate] + parent_elimination_order_suffix@);
        let mut pruning_assertions: Vec<usize> = Vec::new();
        let mut still_relevant_assertions: Vec<usize> = Vec::new();
        let mut i: usize = 0;
        while i < relevant_assertions.len()
            invariant
                0 <= i <= relevant_assertions.len(),
                suffix == elimination_order_suffix@,
                all == assertion_views(all_assertions@),
                forall|j: int|
                    0 <= j < relevant_assertions@.len() ==> #[trigger] relevant_assertions@[j]
                        < all_assertions@.len(),
                pruning_assertions@ == select(
                    relevant_assertions@.subrange(0, i as int),
                    all,
                    suffix,
                    EffectOfAssertionOnEliminationOrderSuffix::Contradiction,
                ),
                still_relevant_assertions@ == select(
                    relevant_assertions@.subrange(0, i as int),
                    all,
                    suffix,
                    EffectOfAssertionOnEliminationOrderSuffix::NeedsMoreDetail,
                ),
                forall|j: int|
                    0 <= j < still_relevant_assertions@.len()
                        ==> #[trigger] still_relevant_assertions@[j] < all_assertions@.len(),
            decreases relevant_assertions.len() - i,
        {
            let assertion_index = relevant_assertions[i];
            proof {
                let pre = relevant_assertions@.subrange(0, i + 1);
                assert(pre.drop_last() == relevant_assertions@.subrange(0, i as int));
                assert(pre.last() == assertion_index);
            }
            match all_assertions[assertion_index].ok_elimination_order_suffix(
                elimination_order_suffix.as_slice(),
            ) {
                EffectOfAssertionOnEliminationOrderSuffix::Contradiction => {
                    pruning_assertions.push(assertion_index);
                },
                EffectOfAssertionOnEliminationOrderSuffix::Consistent => {},
                EffectOfAssertionOnEliminationOrderSuffix::NeedsMoreDetail => {
                    still_relevant_assertions.push(assertion_index);
                },
            }
            i += 1;
        }
        assert(relevant_assertions@.subrange(0, relevant_assertions@.len() as int)
            == relevant_assertions@);
        let mut children: Vec<Self> = Vec::new();
        let mut valid: bool = pruning_assertions.len() == 0 && still_relevant_assertions.len() == 0;
        let ghost initially_valid = valid;
        let child_extend = consider_children_of_eliminated_nodes && pruning_assertions.len() == 0;
        if (pruning_assertions.len() == 0 || consider_children_of_eliminated_nodes)
            && still_relevant_assertions.len() > 0 {
            let mut c: u32 = 0;
            while c < num_candidates
                invariant
                    c <= num_candidates,
                    suffix == elimination_order_suffix@,
                    suffix == seq![candidate_being_eliminated_at_this_node]
                        + parent_elimination_order_suffix@,
                    all == assertion_views(all_assertions@),
                    forall|j: int|
                        0 <= j < still_relevant_assertions@.len()
                            ==> #[trigger] still_relevant_assertions@[j] < all_assertions@.len(),
                    node_views(children@) == children_upto(
                        suffix,
                        c as nat,
                        still_relevant_assertions@,
                        all,
                        num_candidates,
                        child_extend,
                    ),
                    valid == (initially_valid || any_valid(node_views(children@))),
                decreases num_candidates - c,
            {
                let candidate = CandidateIndex(c);
                let suffix_slice = elimination_order_suffix.as_slice();
                if !contains_candidate(suffix_slice, candidate) {
                    proof {
                        lemma_num_missing_prepend(suffix, candidate, num_candidates as nat);
                        assert(suffix_slice@ == suffix);
                        assert(num_missing(seq![candidate] + suffix, num_candidates as nat)
                            < num_missing(suffix, num_candidates as nat));
                        assert(suffix == seq![candidate_being_eliminated_at_this_node]
                            + parent_elimination_order_suffix@);
                    }
                    let child = TreeNodeShowingWhatAssertionsPrunedIt::new(
                        suffix_slice,
                        candidate,
                        still_relevant_assertions.as_slice(),
                        all_assertions,
                        num_candidates,
                        child_extend,
                    );
                    proof {
                        lemma_node_views_push(children@, child);
                        lemma_node_views(children@);
                        lemma_node_views(children@.push(child));
                        let old_views = node_views(children@);
                        let new_views = node_views(children@.push(child));
                        if any_valid(old_views) {
                            let k = choose|k: int| 0 <= k < old_views.len() && old_views[k].valid;
                            assert(new_views[k] == old_views[k]);
                            assert(new_views[k].valid);
                            assert(any_valid(new_views));
                        }
                        assert(new_views[old_views.len() as int] == child@);
                        assert(child@.valid == child.valid);
                        if child.valid {
                            assert(new_views[old_views.len() as int].valid);
                            assert(any_valid(new_views));
                        }
                        if any_valid(new_views) && !child.valid {
                            let k = choose|k: int| 0 <= k < new_views.len() && new_views[k].valid;
                            if k < old_views.len() {
                                assert(old_views[k] == new_views[k]);
                            }
                        }
                        assert(any_valid(new_views) == (any_valid(old_views) || child.valid));
                    }
                    if child.valid {
                        valid = true;
                    }
                    children.push(child);
                }
                c += 1;
            }
        }
        if consider_children_of_eliminated_nodes && pruning_assertions.len() > 0 {
            if valid {
                children = Vec::new();
                valid = false;
            }
        }
        proof {
            if children@.len() == 0 {
                assert(node_views(children@) == Seq::<PruneTree>::empty());
            }
        }
        TreeNodeShowingWhatAssertionsPrunedIt {
            candidate_being_eliminated_at_this_node: candidate,
            pruning_assertions,
            children,
            valid,
        }
    }
}

/// Whether every pruning index in the tree is below `n`.
pub open spec fn indices_below(t: PruneTree, n: nat) -> bool
    decreases t,
{
    &&& forall|i: int| 0 <= i < t.pruning.len() ==> #[trigger] t.pruning[i] < n
    &&& forall|i: int| 0 <= i < t.children.len() ==> indices_below(#[trigger] t.children[i], n)
}

/// Every index that `select` keeps is below any bound on the relevant indices.
pub proof fn lemma_select_below(
    relevant: Seq<usize>,
    all: Seq<AssertionView>,
    suffix: Seq<CandidateIndex>,
    e: EffectOfAssertionOnEliminationOrderSuffix,
    n: nat,
)
    requires
        forall|i: int| 0 <= i < relevant.len() ==> #[trigger] relevant[i] < n,
    ensures
        forall|i: int|
            0 <= i < select(relevant, all, suffix, e).len() ==> #[trigger] select(
                relevant,
                all,
                suffix,
                e,
            )[i] < n,
    decreases relevant.len(),
{
    if relevant.len() > 0 {
        let rest = relevant.drop_last();
        assert forall|i: int| 0 <= i < rest.len() implies #[trigger] rest[i] < n by {
            assert(rest[i] == relevant[i]);
        }
        lemma_select_below(rest, all, suffix, e, n);
        let r = select(relevant, all, suffix, e);
        let s0 = select(rest, all, suffix, e);
        assert(relevant.last() < n);
        assert forall|i: int| 0 <= i < r.len() implies #[trigger] r[i] < n by {
            if i < s0.len() {
                assert(r[i] == s0[i]);
            }
        }
    }
}

/// A tree built from indices below the number of assertions holds only such indices.
pub proof fn lemma_build_indices_below(
    parent: Seq<CandidateIndex>,
    candidate: CandidateIndex,
    relevant: Seq<usize>,
    all: Seq<AssertionView>,
    n: u32,
    extend: bool,
)
    requires
        forall|i: int| 0 <= i < relevant.len() ==> #[trigger] relevant[i] < all.len(),
    ensures
        indices_below(build(parent, candidate, relevant, all, n, extend), all.len()),
    decreases num_missing(seq![candidate] + parent, n as nat), 1nat, 0nat,
{
    let suffix = seq![candidate] + parent;
    let pruning = select(relevant, all, suffix, EffectOfAssertionOnEliminationOrderSuffix::Contradiction);
    let still = select(relevant, all, suffix, EffectOfAssertionOnEliminationOrderSuffix::NeedsMoreDetail);
    lemma_select_below(relevant, all, suffix, EffectOfAssertionOnEliminationOrderSuffix::Contradiction, all.len());
    lemma_select_below(relevant, all, suffix, EffectOfAssertionOnEliminationOrderSuffix::NeedsMoreDetail, all.len());
    let t = build(parent, candidate, relevant, all, n, extend);
    if (pruning.len() == 0 || extend) && still.len() > 0 {
        lemma_children_indices_below(suffix, n as nat, still, all, n, extend && pruning.len() == 0);
    }
    assert(t.pruning == pruning);
    assert forall|i: int| 0 <= i < t.children.len() implies indices_below(
        #[trigger] t.children[i],
        all.len(),
    ) by {
        assert(t.children == children_upto(suffix, n as nat, still, all, n, extend && pruning.len() == 0));
    }
}

/// The subtrees built from indices below the number of assertions hold only such indices.
pub proof fn lemma_children_indices_below(
    suffix: Seq<CandidateIndex>,
    x: nat,
    relevant: Seq<usize>,
    all: Seq<AssertionView>,
    n: u32,
    extend: bool,
)
    requires
        forall|i: int| 0 <= i < relevant.len() ==> #[trigger] relevant[i] < all.len(),
    ensures
        forall|i: int|
            0 <= i < children_upto(suffix, x, relevant, all, n, extend).len() ==> indices_below(
                #[trigger] children_upto(suffix, x, relevant, all, n, extend)[i],
                all.len(),
            ),
    decreases num_missing(suffix, n as nat), 0nat, x,
{
    if x > 0 && x <= n {
        lemma_children_indices_below(suffix, (x - 1) as nat, relevant, all, n, extend);
        let c = CandidateIndex((x - 1) as u32);
        let prev = children_upto(suffix, (x - 1) as nat, relevant, all, n, extend);
        let cur = children_upto(suffix, x, relevant, all, n, extend);
        if !suffix.contains(c) {
            lemma_num_missing_prepend(suffix, c, n as nat);
            lemma_build_indices_below(suffix, c, relevant, all, n, extend);
            assert(cur == prev.push(build(suffix, c, relevant, all, n, extend)));
            assert forall|i: int| 0 <= i < cur.len() implies indices_below(#[trigger] cur[i], all.len()) by {
                if i < prev.len() {
                    assert(cur[i] == prev[i]);
                }
            }
        }
    }
}

/// Whether no node of the tree that assertions prune has children.
pub open spec fn pruned_nodes_are_leaves(t: PruneTree) -> bool
    decreases t,
{
    &&& (t.pruning.len() > 0 ==> t.children.len() == 0)
    &&& forall|i: int| 0 <= i < t.children.len() ==> pruned_nodes_are_leaves(#[trigger] t.children[i])
}

/// Whether every node of the tree that assertions prune has only invalid children.
pub open spec fn pruned_nodes_keep_only_invalid_children(t: PruneTree) -> bool
    decreases t,
{
    &&& (t.pruning.len() > 0 ==> forall|i: int| 0 <= i < t.children.len() ==> !(#[trigger] t.children[i]).valid)
    &&& forall|i: int|
        0 <= i < t.children.len() ==> pruned_nodes_keep_only_invalid_children(#[trigger] t.children[i])
}

/// Without extension no pruned node has children; with it, a pruned node keeps
/// children only when every one of them is invalid.
pub proof fn lemma_build_shape(
    parent: Seq<CandidateIndex>,
    candidate: CandidateIndex,
    relevant: Seq<usize>,
    all: Seq<AssertionView>,
    n: u32,
    extend: bool,
)
    ensures
        !extend ==> pruned_nodes_are_leaves(build(parent, candidate, relevant, all, n, extend)),
        pruned_nodes_keep_only_invalid_children(build(parent, candidate, relevant, all, n, extend)),
    decreases num_missing(seq![candidate] + parent, n as nat), 1nat, 0nat,
{
    let suffix = seq![candidate] + parent;
    let pruning = select(relevant, all, suffix, EffectOfAssertionOnEliminationOrderSuffix::Contradiction);
    let still = select(relevant, all, suffix, EffectOfAssertionOnEliminationOrderSuffix::NeedsMoreDetail);
    let t = build(parent, candidate, relevant, all, n, extend);
    let child_extend = extend && pruning.len() == 0;
    let children = children_upto(suffix, n as nat, still, all, n, child_extend);
    if (pruning.len() == 0 || extend) && still.len() > 0 {
        lemma_children_shape(suffix, n as nat, still, all, n, child_extend);
        if !(extend && pruning.len() > 0 && t.valid) && t.children.len() > 0 {
            assert(t.children == children);
        }
    }
    assert forall|i: int| 0 <= i < t.children.len() implies pruned_nodes_keep_only_invalid_children(
        #[trigger] t.children[i],
    ) && (!extend ==> pruned_nodes_are_leaves(t.children[i])) by {
        assert(t.children == children);
    }
    if t.pruning.len() > 0 && t.children.len() > 0 {
        assert(!any_valid(t.children));
        assert forall|i: int| 0 <= i < t.children.len() implies !(#[trigger] t.children[i]).valid by {
            if t.children[i].valid {
                assert(any_valid(t.children));
            }
        }
    }
}

/// The shape facts for every subtree below `x`.
pub proof fn lemma_children_shape(
    suffix: Seq<CandidateIndex>,
    x: nat,
    relevant: Seq<usize>,
    all: Seq<AssertionView>,
    n: u32,
    extend: bool,
)
    ensures
        forall|i: int|
            0 <= i < children_upto(suffix, x, relevant, all, n, extend).len() ==> (!extend
                ==> pruned_nodes_are_leaves(
                #[trigger] children_upto(suffix, x, relevant, all, n, extend)[i],
            )) && pruned_nodes_keep_only_invalid_children(
                children_upto(suffix, x, relevant, all, n, extend)[i],
            ),
    decreases num_missing(suffix, n as nat), 0nat, x,
{
    if x > 0 && x <= n {
        lemma_children_shape(suffix, (x - 1) as nat, relevant, all, n, extend);
        let c = CandidateIndex((x - 1) as u32);
        let prev = children_upto(suffix, (x - 1) as nat, relevant, all, n, extend);
        let cur = children_upto(suffix, x, relevant, all, n, extend);
        if !suffix.contains(c) {
            lemma_num_missing_prepend(suffix, c, n as nat);
            lemma_build_shape(suffix, c, relevant, all, n, extend);
            assert(cur == prev.push(build(suffix, c, relevant, all, n, extend)));
            assert forall|i: int| 0 <= i < cur.len() implies (!extend ==> pruned_nodes_are_leaves(
                #[trigger] cur[i],
            )) && pruned_nodes_keep_only_invalid_children(cur[i]) by {
                if i < prev.len() {
                    assert(cur[i] == prev[i]);
                }
            }
        }
    }
}

/// With no assertions at all, every candidate's tree is a single valid node.
pub proof fn lemma_no_assertions_every_tree_valid(c: nat, n: u32, extend: bool)
    ensures
        candidate_tree(Seq::empty(), c, n, extend).valid,
        candidate_tree(Seq::empty(), c, n, extend).children.len() == 0,
{
    let t = candidate_tree(Seq::empty(), c, n, extend);
    let suffix = seq![CandidateIndex(c as u32)] + Seq::<CandidateIndex>::empty();
    assert(identity_indices(0) =~= Seq::<usize>::empty());
    assert(select(Seq::empty(), Seq::empty(), suffix, EffectOfAssertionOnEliminationOrderSuffix::Contradiction).len() == 0);
    assert(select(Seq::empty(), Seq::empty(), suffix, EffectOfAssertionOnEliminationOrderSuffix::NeedsMoreDetail).len() == 0);
}

/// The marks after the first sweep over one tree: a leaf pruned by exactly one
/// assertion needs that assertion.
pub open spec fn forced(t: PruneTree, used: Seq<bool>) -> Seq<bool>
    decreases t, 1nat,
{
    if t.pruning.len() > 0 {
        if t.children.len() == 0 && t.pruning.len() == 1 {
            used.update(t.pruning[0] as int, true)
        } else {
            used
        }
    } else {
        forced_all(t.children, used)
    }
}

/// The first sweep over each tree of `ts` in turn.
pub open spec fn forced_all(ts: Seq<PruneTree>, used: Seq<bool>) -> Seq<bool>
    decreases ts, 0nat,
{
    if ts.len() == 0 {
        used
    } else {
        forced(ts[ts.len() - 1], forced_all(ts.subrange(0, ts.len() - 1), used))
    }
}

/// Whether the marked assertions already rule out the node: one of its own pruning
/// assertions is marked, or it has children and each of them is ruled out.
pub open spec fn eliminated(t: PruneTree, used: Seq<bool>) -> bool
    decreases t,
{
    (exists|i: int| 0 <= i < t.pruning.len() && used[#[trigger] t.pruning[i] as int]) || (
    t.children.len() > 0 && forall|i: int|
        0 <= i < t.children.len() ==> eliminated(#[trigger] t.children[i], used))
}

/// The marks after the second sweep over one tree: a pruned node that is not yet
/// ruled out gets its first pruning assertion marked.
pub open spec fn second_pass(t: PruneTree, used: Seq<bool>) -> Seq<bool>
    decreases t, 1nat,
{
    if t.pruning.len() > 0 {
        if eliminated(t, used) {
            used
        } else {
            used.update(t.pruning[0] as int, true)
        }
    } else {
        second_pass_all(t.children, used)
    }
}

/// The second sweep over each tree of `ts` in turn.
pub open spec fn second_pass_all(ts: Seq<PruneTree>, used: Seq<bool>) -> Seq<bool>
    decreases ts, 0nat,
{
    if ts.len() == 0 {
        used
    } else {
        second_pass(ts[ts.len() - 1], second_pass_all(ts.subrange(0, ts.len() - 1), used))
    }
}

/// A really simplistic method of computing which assertions are used - just use
/// the first from each list. Benefits: fast, simple. Drawbacks: not optimal.
pub struct SimplisticWorkOutWhichAssertionsAreUsed {
    pub assertions_used: Vec<bool>,
}

impl SimplisticWorkOutWhichAssertionsAreUsed {
    pub fn new(len: usize) -> (r: Self)
        ensures
            r.assertions_used@ == Seq::new(len as nat, |i: int| false),
    {
        let mut assertions_used: Vec<bool> = Vec::new();
        let mut i: usize = 0;
        while i < len
            invariant
                i <= len,
                assertions_used@ == Seq::new(i as nat, |j: int| false),
            decreases len - i,
        {
            assertions_used.push(false);
            i += 1;
        }
        SimplisticWorkOutWhichAssertionsAreUsed { assertions_used }
    }

    pub fn uses(&self, index: usize) -> (r: bool)
        requires
            index < self.assertions_used@.len(),
        ensures
            r == self.assertions_used@[index as int],
    {
        self.assertions_used[index]
    }

    /// Some (most) nodes have exactly one assertion. Assign these assertions, as they MUST be used.
    pub fn add_tree_forced(&mut self, node: &TreeNodeShowingWhatAssertionsPrunedIt)
        requires
            indices_below(node@, old(self).assertions_used@.len()),
        ensures
            final(self).assertions_used@ == forced(node@, old(self).assertions_used@),
            final(self).assertions_used@.len() == old(self).assertions_used@.len(),
        decreases node,
    {
        proof {
            lemma_node_views(node.children@);
            if node.pruning_assertions.len() > 0 {
                assert(node@.pruning[0] < old(self).assertions_used@.len());
            }
        }
        if node.pruning_assertions.len() > 0 {
            if node.children.len() == 0 && node.pruning_assertions.len() == 1 {
                self.assertions_used.set(node.pruning_assertions[0], true);
            }
        } else {
            let ghost start = self.assertions_used@;
            let mut i: usize = 0;
            while i < node.children.len()
                invariant
                    i <= node.children.len(),
                    node_views(node.children@).len() == node.children@.len(),
                    forall|j: int|
                        0 <= j < node.children@.len() ==> #[trigger] node_views(node.children@)[j]
                            == node.children@[j]@,
                    indices_below(node@, start.len()),
                    self.assertions_used@.len() == start.len(),
                    self.assertions_used@ == forced_all(
                        node_views(node.children@).subrange(0, i as int),
                        start,
                    ),
                decreases node.children.len() - i,
            {
                let ghost views = node_views(node.children@);
                assert(views.subrange(0, i + 1).subrange(0, i as int) == views.subrange(0, i as int));
                assert(node@.children == views);
                assert(indices_below(views[i as int], start.len()));
                self.add_tree_forced(&node.children[i]);
                i += 1;
            }
            assert(node_views(node.children@).subrange(0, i as int) == node_views(node.children@));
        }
    }

    /// See if a node is already eliminated by the assertions marked as being used.
    pub fn node_already_eliminated(&self, node: &TreeNodeShowingWhatAssertionsPrunedIt) -> (r: bool)
        requires
            indices_below(node@, self.assertions_used@.len()),
        ensures
            r == eliminated(node@, self.assertions_used@),
        decreases node,
    {
        let ghost used = self.assertions_used@;
        proof {
            lemma_node_views(node.children@);
        }
        let mut i: usize = 0;
        while i < node.pruning_assertions.len()
            invariant
                i <= node.pruning_assertions.len(),
                indices_below(node@, used.len()),
                used == self.assertions_used@,
                forall|j: int| 0 <= j < i ==> !used[#[trigger] node@.pruning[j] as int],
            decreases node.pruning_assertions.len() - i,
        {
            assert(node@.pruning[i as int] < used.len());
            if self.assertions_used[node.pruning_assertions[i]] {
                return true;
            }
            i += 1;
        }
        if node.children.len() == 0 {
            return false;
        }
        let mut i: usize = 0;
        while i < node.children.len()
            invariant
                i <= node.children.len(),
                indices_below(node@, used.len()),
                used == self.assertions_used@,
                node@.children == node_views(node.children@),
                node_views(node.children@).len() == node.children@.len(),
                forall|j: int|
                    0 <= j < node.children@.len() ==> #[trigger] node_views(node.children@)[j]
                        == node.children@[j]@,
                forall|j: int| 0 <= j < node@.pruning.len() ==> !used[#[trigger] node@.pruning[j] as int],
                forall|j: int| 0 <= j < i ==> eliminated(#[trigger] node@.children[j], used),
            decreases node.children.len() - i,
        {
            assert(indices_below(node@.children[i as int], used.len()));
            if !self.node_already_eliminated(&node.children[i]) {
                return false;
            }
            i += 1;
        }
        true
    }

    /// Mark the first pruning assertion of every pruned node that is not yet ruled out.
    pub fn add_tree_second_pass(&mut self, node: &TreeNodeShowingWhatAssertionsPrunedIt)
        requires
            indices_below(node@, old(self).assertions_used@.len()),
        ensures
            final(self).assertions_used@ == second_pass(node@, old(self).assertions_used@),
            final(self).assertions_used@.len() == old(self).assertions_used@.len(),
        decreases node,
    {
        proof {
            lemma_node_views(node.children@);
            if node.pruning_assertions.len() > 0 {
                assert(node@.pruning[0] < old(self).assertions_used@.len());
            }
        }
        if node.pruning_assertions.len() > 0 {
            if !self.node_already_eliminated(node) {
                self.assertions_used.set(node.pruning_assertions[0], true);
            }
        } else {
            let ghost start = self.assertions_used@;
            let mut i: usize = 0;
            while i < node.children.len()
                invariant
                    i <= node.children.len(),
                    node_views(node.children@).len() == node.children@.len(),
                    forall|j: int|
                        0 <= j < node.children@.len() ==> #[trigger] node_views(node.children@)[j]
                            == node.children@[j]@,
                    indices_below(node@, start.len()),
                    self.assertions_used@.len() == start.len(),
                    self.assertions_used@ == second_pass_all(
                        node_views(node.children@).subrange(0, i as int),
                        start,
                    ),
                decreases node.children.len() - i,
            {
                let ghost views = node_views(node.children@);
                assert(views.subrange(0, i + 1).subrange(0, i as int) == views.subrange(0, i as int));
                assert(node@.children == views);
                assert(indices_below(views[i as int], start.len()));
                self.add_tree_second_pass(&node.children[i]);
                i += 1;
            }
            assert(node_views(node.children@).subrange(0, i as int) == node_views(node.children@));
        }
    }
}

/// The indices `0, 1, ..., len - 1`.
pub open spec fn identity_indices(len: nat) -> Seq<usize> {
    Seq::new(len, |i: int| i as usize)
}

/// The assertions of a list of records.
pub open spec fn record_assertions(s: Seq<AssertionAndDifficulty>) -> Seq<AssertionView> {
    s.map_values(|r: AssertionAndDifficulty| r.assertion@)
}

/// The tree of candidate `c`, built from every assertion of `all`.
pub open spec fn candidate_tree(all: Seq<AssertionView>, c: nat, n: u32, extend: bool) -> PruneTree {
    build(Seq::empty(), CandidateIndex(c as u32), identity_indices(all.len()), all, n, extend)
}

/// Whether candidate `c`'s tree is valid exactly when `c` is the winner.
pub open spec fn tree_agrees(
    all: Seq<AssertionView>,
    winner: CandidateIndex,
    c: nat,
    n: u32,
    extend: bool,
) -> bool {
    candidate_tree(all, c, n, extend).valid == (CandidateIndex(c as u32) == winner)
}

/// The error reported when candidate `c`'s tree disagrees with the declared winner.
pub open spec fn error_for(c: nat, winner: CandidateIndex) -> RaireError {
    if CandidateIndex(c as u32) == winner {
        RaireError::InternalErrorRuledOutWinner
    } else {
        RaireError::InternalErrorDidntRuleOutLoser
    }
}

/// The trees of the candidates below `c` other than the winner, in increasing order.
pub open spec fn loser_trees(
    all: Seq<AssertionView>,
    winner: CandidateIndex,
    n: u32,
    extend: bool,
    c: nat,
) -> Seq<PruneTree>
    decreases c,
{
    if c == 0 {
        Seq::empty()
    } else {
        let prev = loser_trees(all, winner, n, extend, (c - 1) as nat);
        if CandidateIndex((c - 1) as u32) == winner {
            prev
        } else {
            prev.push(candidate_tree(all, (c - 1) as nat, n, extend))
        }
    }
}

/// The marks left by the first sweep over every loser's tree, then the second.
pub open spec fn used_assertions(
    all: Seq<AssertionView>,
    winner: CandidateIndex,
    n: u32,
    extend: bool,
) -> Seq<bool> {
    let trees = loser_trees(all, winner, n, extend, n as nat);
    second_pass_all(trees, forced_all(trees, Seq::new(all.len(), |i: int| false)))
}

/// The records of `s` whose place is marked in `used`, in their order.
pub open spec fn keep_used(s: Seq<AssertionAndDifficulty>, used: Seq<bool>) -> Seq<
    AssertionAndDifficulty,
>
    decreases s.len(),
{
    if s.len() == 0 {
        s
    } else {
        let r = keep_used(s.drop_last(), used);
        if used[s.len() - 1] {
            r.push(s.last())
        } else {
            r
        }
    }
}

/// Keeping some records of a sorted list, in their order, leaves a sorted list
/// that is no longer than the first.
pub proof fn lemma_keep_used(s: Seq<AssertionAndDifficulty>, used: Seq<bool>)
    requires
        is_sorted(s),
    ensures
        is_sorted(keep_used(s, used)),
        keep_used(s, used).len() <= s.len(),
        forall|i: int| 0 <= i < keep_used(s, used).len() ==> s.contains(#[trigger] keep_used(s, used)[i]),
    decreases s.len(),
{
    if s.len() > 0 {
        let d = s.drop_last();
        assert(is_sorted(d)) by {
            assert forall|i: int, j: int| 0 <= i < j < d.len() implies !assertion_lt(
                #[trigger] d[j].assertion@,
                #[trigger] d[i].assertion@,
            ) by {
                assert(d[i] == s[i] && d[j] == s[j]);
            }
        }
        lemma_keep_used(d, used);
        let kd = keep_used(d, used);
        let r = keep_used(s, used);
        assert forall|i: int| 0 <= i < kd.len() implies s.contains(#[trigger] kd[i]) by {
            let k = choose|k: int| 0 <= k < d.len() && d[k] == kd[i];
            assert(s[k] == kd[i]);
        }
        if used[s.len() - 1] {
            assert(r == kd.push(s.last()));
            assert forall|i: int, j: int| 0 <= i < j < r.len() implies !assertion_lt(
                #[trigger] r[j].assertion@,
                #[trigger] r[i].assertion@,
            ) by {
                if j == r.len() - 1 {
                    assert(r[i] == kd[i]);
                    let k = choose|k: int| 0 <= k < d.len() && d[k] == kd[i];
                    assert(s[k] == r[i]);
                } else {
                    assert(r[i] == kd[i] && r[j] == kd[j]);
                }
            }
            assert forall|i: int| 0 <= i < r.len() implies s.contains(#[trigger] r[i]) by {
                if i == r.len() - 1 {
                    assert(r[i] == s[s.len() - 1]);
                } else {
                    assert(r[i] == kd[i]);
                }
            }
        } else {
            assert(r == kd);
        }
    }
}

/// What ordering and trimming `records` does: the records are sorted; the call
/// succeeds exactly when every candidate's tree is valid just when that candidate
/// is the winner; otherwise the error names the first candidate whose tree
/// disagrees, and the sorted list is left; on success the list keeps, in sorted
/// order, the records that the two sweeps marked.
pub open spec fn trimming_outcome(
    records: Seq<AssertionAndDifficulty>,
    winner: CandidateIndex,
    n: u32,
    extend: bool,
    r: Result<(), RaireError>,
    out: Seq<AssertionAndDifficulty>,
) -> bool {
    let sorted = sorted_records(records);
    let all = record_assertions(sorted);
    &&& (r is Ok <==> forall|c: nat| c < n ==> #[trigger] tree_agrees(all, winner, c, n, extend))
    &&& (r is Ok ==> r == Ok::<(), RaireError>(()))
    &&& (r matches Err(e) ==> exists|c: nat|
        c < n && !#[trigger] tree_agrees(all, winner, c, n, extend) && (forall|d: nat|
            d < c ==> #[trigger] tree_agrees(all, winner, d, n, extend)) && e == error_for(c, winner))
    &&& (r is Err ==> out == sorted)
    &&& (r is Ok ==> out == keep_used(sorted, used_assertions(all, winner, n, extend)))
    &&& is_sorted(out)
    &&& out.len() <= records.len()
}

/// Ordering and trimming is deterministic: the same records, winner, number of
/// candidates and extension flag give the same result and the same list.
pub proof fn lemma_trimming_deterministic(
    records: Seq<AssertionAndDifficulty>,
    winner: CandidateIndex,
    n: u32,
    extend: bool,
    r1: Result<(), RaireError>,
    out1: Seq<AssertionAndDifficulty>,
    r2: Result<(), RaireError>,
    out2: Seq<AssertionAndDifficulty>,
)
    requires
        trimming_outcome(records, winner, n, extend, r1, out1),
        trimming_outcome(records, winner, n, extend, r2, out2),
    ensures
        r1 == r2,
        out1 == out2,
{
    let all = record_assertions(sorted_records(records));
    if let Err(e1) = r1 {
        if let Err(e2) = r2 {
            let c1 = choose|c: nat|
                c < n && !#[trigger] tree_agrees(all, winner, c, n, extend) && (forall|d: nat|
                    d < c ==> #[trigger] tree_agrees(all, winner, d, n, extend)) && e1 == error_for(
                    c,
                    winner,
                );
            let c2 = choose|c: nat|
                c < n && !#[trigger] tree_agrees(all, winner, c, n, extend) && (forall|d: nat|
                    d < c ==> #[trigger] tree_agrees(all, winner, d, n, extend)) && e2 == error_for(
                    c,
                    winner,
                );
            if c1 < c2 {
                assert(tree_agrees(all, winner, c1, n, extend));
            } else if c2 < c1 {
                assert(tree_agrees(all, winner, c2, n, extend));
            }
            assert(c1 == c2);
            assert(e1 == e2);
        }
    }
    if r1 is Ok && r2 is Err {
        let c = choose|c: nat| c < n && !#[trigger] tree_agrees(all, winner, c, n, extend);
        assert(tree_agrees(all, winner, c, n, extend));
    }
    if r2 is Ok && r1 is Err {
        let c = choose|c: nat| c < n && !#[trigger] tree_agrees(all, winner, c, n, extend);
        assert(tree_agrees(all, winner, c, n, extend));
    }
}

/// With no assertions and at least two candidates, ordering and trimming fails
/// with `InternalErrorDidntRuleOutLoser`: every tree is valid, so the first tree
/// that disagrees belongs to a candidate other than the winner.
pub proof fn lemma_no_assertions_leave_a_loser(
    records: Seq<AssertionAndDifficulty>,
    winner: CandidateIndex,
    n: u32,
    extend: bool,
    r: Result<(), RaireError>,
    out: Seq<AssertionAndDifficulty>,
)
    requires
        records.len() == 0,
        n >= 2,
        trimming_outcome(records, winner, n, extend, r, out),
    ensures
        r == Err::<(), RaireError>(RaireError::InternalErrorDidntRuleOutLoser),
{
    let all = record_assertions(sorted_records(records));
    lemma_sorted_records(records);
    assert(all =~= Seq::<AssertionView>::empty());
    lemma_no_assertions_every_tree_valid(0, n, extend);
    lemma_no_assertions_every_tree_valid(1, n, extend);
    if CandidateIndex(0) == winner {
        assert(!tree_agrees(all, winner, 1, n, extend));
    } else {
        assert(!tree_agrees(all, winner, 0, n, extend));
    }
    if let Err(e) = r {
        let c = choose|c: nat|
            c < n && !#[trigger] tree_agrees(all, winner, c, n, extend) && (forall|d: nat|
                d < c ==> #[trigger] tree_agrees(all, winner, d, n, extend)) && e == error_for(
                c,
                winner,
            );
        lemma_no_assertions_every_tree_valid(c, n, extend);
    }
}

/// Change the list of assertions to order them with the first removing the most undesired elimination orders,
/// the second removing the most of what is left, etc.
///
/// Assertions that don't remove anything other than from places where the winner ends will be removed.
///
/// consider_children_of_eliminated_nodes, if true, will take a little longer and possibly produce a smaller number of assertions
/// at the cost of a larger tree size for the eliminated paths tree.
pub fn order_assertions_and_remove_unnecessary(
    assertions: &mut Vec<AssertionAndDifficulty>,
    winner: CandidateIndex,
    num_candidates: u32,
    consider_children_of_eliminated_nodes: bool,
) -> (r: Result<(), RaireError>)
    ensures
        trimming_outcome(
            old(assertions)@,
            winner,
            num_candidates,
            consider_children_of_eliminated_nodes,
            r,
            final(assertions)@,
        ),
{
    let n = num_candidates;
    let extend = consider_children_of_eliminated_nodes;
    sort_records(assertions);
    let ghost sorted = assertions@;
    let ghost all = record_assertions(sorted);
    proof {
        lemma_sorted_records(old(assertions)@);
    }
    let mut all_assertions: Vec<Assertion> = Vec::new();
    let mut all_assertion_indices: Vec<usize> = Vec::new();
    let mut i: usize = 0;
    while i < assertions.len()
        invariant
            i <= assertions@.len(),
            sorted == assertions@,
            sorted == sorted_records(old(assertions)@),
            all == record_assertions(sorted),
            all_assertions@.len() == i,
            forall|j: int| 0 <= j < i ==> #[trigger] all_assertions@[j]@ == all[j],
            all_assertion_indices@ == identity_indices(i as nat),
        decreases assertions.len() - i,
    {
        let copy = assertions[i].assertion.duplicate();
        assert(copy@ == sorted[i as int].assertion@);
        assert(all[i as int] == sorted[i as int].assertion@);
        all_assertions.push(copy);
        all_assertion_indices.push(i);
        assert(all_assertion_indices@ =~= identity_indices((i + 1) as nat));
        i += 1;
    }
    assert(assertion_views(all_assertions@) =~= all);
    let no_candidates: Vec<CandidateIndex> = Vec::new();
    assert(no_candidates@ == Seq::<CandidateIndex>::empty());
    let mut find_used = SimplisticWorkOutWhichAssertionsAreUsed::new(assertions.len());
    let ghost unmarked = find_used.assertions_used@;
    let mut trees: Vec<TreeNodeShowingWhatAssertionsPrunedIt> = Vec::new();
    let mut c: u32 = 0;
    while c < n
        invariant
            c <= n,
            n == num_candidates,
            extend == consider_children_of_eliminated_nodes,
            sorted == assertions@,
            sorted == sorted_records(old(assertions)@),
            all == record_assertions(sorted),
            assertion_views(all_assertions@) == all,
            forall|j: int|
                0 <= j < loser_trees(all, winner, n, extend, c as nat).len() ==> indices_below(
                    #[trigger] loser_trees(all, winner, n, extend, c as nat)[j],
                    all.len(),
                ),
            all_assertion_indices@ == identity_indices(all.len()),
            no_candidates@ == Seq::<CandidateIndex>::empty(),
            unmarked == Seq::new(all.len(), |i: int| false),
            find_used.assertions_used@.len() == all.len(),
            find_used.assertions_used@ == forced_all(loser_trees(all, winner, n, extend, c as nat), unmarked),
            node_views(trees@) == loser_trees(all, winner, n, extend, c as nat),
            forall|d: nat| d < c ==> #[trigger] tree_agrees(all, winner, d, n, extend),
        decreases n - c,
    {
        let candidate = CandidateIndex(c);
        let tree = TreeNodeShowingWhatAssertionsPrunedIt::new(
            no_candidates.as_slice(),
            candidate,
            all_assertion_indices.as_slice(),
            all_assertions.as_slice(),
            n,
            extend,
        );
        assert(tree@ == candidate_tree(all, c as nat, n, extend));
        let is_winner = candidate.0 == winner.0;
        assert(is_winner == (candidate == winner));
        proof {
            let lt = loser_trees(all, winner, n, extend, (c + 1) as nat);
            let prev = loser_trees(all, winner, n, extend, c as nat);
            if is_winner {
                assert(lt == prev);
            } else {
                assert(lt == prev.push(tree@));
                assert(lt.subrange(0, lt.len() - 1) == prev);
            }
        }
        if tree.valid != is_winner {
            let e = if is_winner {
                RaireError::InternalErrorRuledOutWinner
            } else {
                RaireError::InternalErrorDidntRuleOutLoser
            };
            proof {
                let cn = c as nat;
                lemma_sorted_records(old(assertions)@);
                assert(all == record_assertions(sorted_records(old(assertions)@)));
                assert(assertions@ == sorted_records(old(assertions)@));
                assert(!tree_agrees(all, winner, cn, n, extend));
                assert(!(forall|d: nat| d < n ==> #[trigger] tree_agrees(all, winner, d, n, extend)));
                assert(CandidateIndex(cn as u32) == candidate);
                assert(error_for(cn, winner) == e);
                assert(exists|cc: nat|
                    cc < n && !#[trigger] tree_agrees(all, winner, cc, n, extend) && (forall|d: nat|
                        d < cc ==> #[trigger] tree_agrees(all, winner, d, n, extend)) && e
                        == error_for(cc, winner));
            }
            return Err(e);
        }
        if !is_winner {
            proof {
                lemma_build_indices_below(
                    Seq::empty(),
                    candidate,
                    identity_indices(all.len()),
                    all,
                    n,
                    extend,
                );
                lemma_node_views_push(trees@, tree);
                let lt = loser_trees(all, winner, n, extend, (c + 1) as nat);
                let prev = loser_trees(all, winner, n, extend, c as nat);
                assert(lt == prev.push(tree@));
                assert forall|j: int| 0 <= j < lt.len() implies indices_below(#[trigger] lt[j], all.len()) by {
                    if j < prev.len() {
                        assert(lt[j] == prev[j]);
                    }
                }
            }
            find_used.add_tree_forced(&tree);
            trees.push(tree);
        }
        c += 1;
    }
    let ghost trees_view = node_views(trees@);
    let ghost after_forced = find_used.assertions_used@;
    proof {
        lemma_node_views(trees@);
        let lt = loser_trees(all, winner, n, extend, n as nat);
        assert forall|j: int| 0 <= j < trees@.len() implies indices_below(
            #[trigger] trees_view[j],
            all.len(),
        ) by {
            assert(lt[j] == trees_view[j]);
        }
    }
    let mut k: usize = 0;
    while k < trees.len()
        invariant
            k <= trees.len(),
            n == num_candidates,
            extend == consider_children_of_eliminated_nodes,
            trees_view == node_views(trees@),
            trees_view.len() == trees@.len(),
            forall|j: int| 0 <= j < trees@.len() ==> #[trigger] trees_view[j] == trees@[j]@,
            trees_view == loser_trees(all, winner, n, extend, n as nat),
            sorted == sorted_records(old(assertions)@),
            forall|j: int| 0 <= j < trees@.len() ==> indices_below(#[trigger] trees_view[j], all.len()),
            find_used.assertions_used@.len() == all.len(),
            find_used.assertions_used@ == second_pass_all(trees_view.subrange(0, k as int), after_forced),
        decreases trees.len() - k,
    {
        assert(trees_view.subrange(0, k + 1).subrange(0, k as int) == trees_view.subrange(0, k as int));
        assert(trees_view[k as int] == trees@[k as int]@);
        find_used.add_tree_second_pass(&trees[k]);
        k += 1;
    }
    assert(trees_view.subrange(0, k as int) == trees_view);
    let ghost used = find_used.assertions_used@;
    assert(used == used_assertions(all, winner, n, extend));
    let mut res: Vec<AssertionAndDifficulty> = Vec::new();
    let total = assertions.len();
    let mut k: usize = 0;
    while k < total
        invariant
            k <= total,
            n == num_candidates,
            extend == consider_children_of_eliminated_nodes,
            total == sorted.len(),
            sorted == sorted_records(old(assertions)@),
            all == record_assertions(sorted),
            used == used_assertions(all, winner, n, extend),
            used.len() == total,
            used == find_used.assertions_used@,
            assertions@ == sorted.subrange(k as int, total as int),
            res@ == keep_used(sorted.subrange(0, k as int), used),
        decreases total - k,
    {
        let a = assertions.remove(0);
        proof {
            assert(sorted.subrange(0, k + 1).drop_last() == sorted.subrange(0, k as int));
            assert(sorted.subrange(0, k + 1).last() == a);
            assert(assertions@ == sorted.subrange(k + 1, total as int));
        }
        if find_used.uses(k) {
            res.push(a);
        }
        k += 1;
    }
    assert(sorted.subrange(0, total as int) == sorted);
    proof {
        lemma_sorted_records(old(assertions)@);
        lemma_keep_used(sorted, used);
    }
    *assertions = res;
    Ok(())
}

} // verus!
