//! Why trimming is sound: a tree is valid exactly when some complete elimination
//! order ending with its suffix satisfies every relevant assertion, and the marks
//! left by the two sweeps contradict every complete order that a loser could win.

use vstd::prelude::*;
use crate::assertions::{
    AssertionView, EffectOfAssertionOnEliminationOrderSuffix, all_continuing, effect_of,
    neb_effect, nen_effect,
};
use crate::assertions::AssertionAndDifficulty;
use crate::irv::CandidateIndex;
use crate::RaireError;
use crate::ordering::{lemma_sorted_records, sorted_records};
use crate::tree_showing_what_assertions_pruned_leaves::{
    PruneTree, any_valid, build, candidate_tree, children_upto, eliminated, forced, forced_all,
    identity_indices, indices_below, keep_used, lemma_build_indices_below, lemma_keep_used,
    loser_trees, record_assertions, trimming_outcome, tree_agrees, used_assertions,
    lemma_num_missing_prepend, lemma_select_below, num_missing, second_pass, second_pass_all, select,
};

verus! {

/// A suffix of distinct candidates, each below `n`.
pub open spec fn distinct_below(s: Seq<CandidateIndex>, n: u32) -> bool {
    &&& s.no_duplicates()
    &&& forall|i: int| 0 <= i < s.len() ==> (#[trigger] s[i]).0 < n
}

/// A complete elimination order of the candidates `0 .. n`.
pub open spec fn is_full(s: Seq<CandidateIndex>, n: u32) -> bool {
    distinct_below(s, n) && num_missing(s, n as nat) == 0
}

/// Whether `order` ends with `s`.
pub open spec fn ends_with(order: Seq<CandidateIndex>, s: Seq<CandidateIndex>) -> bool {
    order.len() >= s.len() && order.subrange(order.len() - s.len(), order.len() as int) == s
}

/// Once an assertion decides a suffix, it decides every longer one the same way.
pub proof fn lemma_effect_settled(a: AssertionView, p: Seq<CandidateIndex>, s: Seq<CandidateIndex>)
    requires
        effect_of(a, s) != EffectOfAssertionOnEliminationOrderSuffix::NeedsMoreDetail,
    ensures
        effect_of(a, p + s) == effect_of(a, s),
{
    match a {
        AssertionView::NEB { winner, loser } => lemma_neb_settled(winner, loser, p, s),
        AssertionView::NEN { winner, continuing, .. } => {
            let k = continuing.len();
            let t = p + s;
            if s.len() < k {
                let i = choose|i: int| 0 <= i < s.len() && !continuing.contains(#[trigger] s[i]);
                assert(t[p.len() + i] == s[i]);
                if t.len() >= k {
                    let last_k = t.subrange(t.len() - k, t.len() as int);
                    assert(last_k[p.len() + i - (t.len() - k)] == s[i]);
                }
            } else {
                assert(t.subrange(t.len() - k, t.len() as int) == s.subrange(s.len() - k, s.len() as int));
            }
        },
    }
}

proof fn lemma_neb_settled(
    winner: CandidateIndex,
    loser: CandidateIndex,
    p: Seq<CandidateIndex>,
    s: Seq<CandidateIndex>,
)
    requires
        neb_effect(winner, loser, s) != EffectOfAssertionOnEliminationOrderSuffix::NeedsMoreDetail,
    ensures
        neb_effect(winner, loser, p + s) == neb_effect(winner, loser, s),
    decreases s.len(),
{
    let t = p + s;
    assert(t.last() == s.last());
    if s.last() != winner && s.last() != loser {
        assert(t.drop_last() == p + s.drop_last());
        lemma_neb_settled(winner, loser, p, s.drop_last());
    }
}

/// An NEB leaves a suffix undecided only while its winner is not in it.
proof fn lemma_neb_undecided(winner: CandidateIndex, loser: CandidateIndex, s: Seq<CandidateIndex>)
    requires
        neb_effect(winner, loser, s) == EffectOfAssertionOnEliminationOrderSuffix::NeedsMoreDetail,
    ensures
        !s.contains(winner),
    decreases s.len(),
{
    if s.len() > 0 {
        lemma_neb_undecided(winner, loser, s.drop_last());
        if s.contains(winner) {
            let i = choose|i: int| 0 <= i < s.len() && s[i] == winner;
            assert(s.drop_last()[i] == winner);
        }
    }
}

/// Without any candidate, all below `x` are missing.
proof fn lemma_num_missing_empty(x: nat)
    ensures
        num_missing(Seq::empty(), x) == x,
    decreases x,
{
    if x > 0 {
        lemma_num_missing_empty((x - 1) as nat);
    }
}

/// Placing a candidate in front removes it from the missing ones, if it was.
proof fn lemma_num_missing_prepend_exact(s: Seq<CandidateIndex>, c: CandidateIndex, x: nat)
    requires
        x <= u32::MAX + 1,
    ensures
        num_missing(seq![c] + s, x) + (if c.0 < x && !s.contains(c) { 1nat } else { 0nat })
            == num_missing(s, x),
    decreases x,
{
    if x > 0 {
        lemma_num_missing_prepend_exact(s, c, (x - 1) as nat);
        let y = CandidateIndex((x - 1) as u32);
        let t = seq![c] + s;
        assert(t.contains(y) <==> (y == c || s.contains(y))) by {
            if s.contains(y) {
                let j = choose|j: int| 0 <= j < s.len() && s[j] == y;
                assert(t[j + 1] == y);
            }
            if y == c {
                assert(t[0] == y);
            }
            if t.contains(y) {
                let j = choose|j: int| 0 <= j < t.len() && t[j] == y;
                if j > 0 {
                    assert(s[j - 1] == y);
                }
            }
        }
    }
}

/// A suffix of distinct candidates below `n` and its missing ones make up `n`.
pub proof fn lemma_len_and_missing(s: Seq<CandidateIndex>, n: u32)
    requires
        distinct_below(s, n),
    ensures
        s.len() + num_missing(s, n as nat) == n,
    decreases s.len(),
{
    if s.len() == 0 {
        lemma_num_missing_empty(n as nat);
        assert(s == Seq::<CandidateIndex>::empty());
    } else {
        let r = s.drop_first();
        assert(s[0].0 < n);
        assert(distinct_below(r, n)) by {
            assert forall|i: int| 0 <= i < r.len() implies (#[trigger] r[i]).0 < n by {
                assert(r[i] == s[i + 1]);
            }
            assert forall|i: int, j: int| 0 <= i < r.len() && 0 <= j < r.len() && i != j implies r[i] != r[j] by {
                assert(r[i] == s[i + 1] && r[j] == s[j + 1]);
            }
        }
        lemma_len_and_missing(r, n);
        assert(!r.contains(s[0])) by {
            if r.contains(s[0]) {
                let j = choose|j: int| 0 <= j < r.len() && r[j] == s[0];
                assert(s[j + 1] == s[0]);
            }
        }
        assert(s == seq![s[0]] + r);
        lemma_num_missing_prepend_exact(r, s[0], n as nat);
    }
}

/// No candidate below `x` is missing from `s` when `num_missing` is zero.
proof fn lemma_none_missing(s: Seq<CandidateIndex>, x: nat, y: u32)
    requires
        num_missing(s, x) == 0,
        y < x,
    ensures
        s.contains(CandidateIndex(y)),
    decreases x,
{
    if y < x - 1 {
        lemma_none_missing(s, (x - 1) as nat, y);
    }
}

proof fn lemma_neb_undecided_iff(winner: CandidateIndex, loser: CandidateIndex, s: Seq<CandidateIndex>)
    ensures
        neb_effect(winner, loser, s) == EffectOfAssertionOnEliminationOrderSuffix::NeedsMoreDetail
            <==> (!s.contains(winner) && !s.contains(loser)),
    decreases s.len(),
{
    if s.len() > 0 {
        let d = s.drop_last();
        lemma_neb_undecided_iff(winner, loser, d);
        assert forall|x: CandidateIndex| #[trigger] s.contains(x) <==> (d.contains(x) || s.last() == x) by {
            if s.contains(x) {
                let i = choose|i: int| 0 <= i < s.len() && s[i] == x;
                if i < s.len() - 1 {
                    assert(d[i] == x);
                }
            }
            if d.contains(x) {
                let i = choose|i: int| 0 <= i < d.len() && d[i] == x;
                assert(s[i] == x);
            }
        }
    }
}

/// A complete order holds exactly the candidates below `n`.
proof fn lemma_full_contains(s: Seq<CandidateIndex>, n: u32, x: CandidateIndex)
    requires
        is_full(s, n),
    ensures
        s.contains(x) <==> x.0 < n,
{
    if x.0 < n {
        lemma_none_missing(s, n as nat, x.0);
        assert(x == CandidateIndex(x.0));
    }
    if s.contains(x) {
        let i = choose|i: int| 0 <= i < s.len() && s[i] == x;
        assert(s[i].0 < n);
    }
}

/// Whether an assertion leaves a complete order undecided does not depend on the order.
pub proof fn lemma_undecided_on_every_full_order(
    a: AssertionView,
    o1: Seq<CandidateIndex>,
    o2: Seq<CandidateIndex>,
    n: u32,
)
    requires
        is_full(o1, n),
        is_full(o2, n),
        effect_of(a, o1) == EffectOfAssertionOnEliminationOrderSuffix::NeedsMoreDetail,
    ensures
        effect_of(a, o2) == EffectOfAssertionOnEliminationOrderSuffix::NeedsMoreDetail,
{
    lemma_len_and_missing(o1, n);
    lemma_len_and_missing(o2, n);
    match a {
        AssertionView::NEB { winner, loser } => {
            lemma_neb_undecided_iff(winner, loser, o1);
            lemma_neb_undecided_iff(winner, loser, o2);
            lemma_full_contains(o1, n, winner);
            lemma_full_contains(o2, n, winner);
            lemma_full_contains(o1, n, loser);
            lemma_full_contains(o2, n, loser);
        },
        AssertionView::NEN { winner, continuing, .. } => {
            assert(o1.len() < continuing.len() && all_continuing(o1, continuing));
            assert forall|i: int| 0 <= i < o2.len() implies continuing.contains(#[trigger] o2[i]) by {
                assert(o2[i].0 < n);
                lemma_full_contains(o1, n, o2[i]);
                let j = choose|j: int| 0 <= j < o1.len() && o1[j] == o2[i];
                assert(continuing.contains(o1[j]));
            }
        },
    }
}

/// The candidates below `x` that are not in `s`, in increasing order.
pub open spec fn missing_list(s: Seq<CandidateIndex>, x: nat) -> Seq<CandidateIndex>
    decreases x,
{
    if x == 0 {
        Seq::empty()
    } else {
        let prev = missing_list(s, (x - 1) as nat);
        let c = CandidateIndex((x - 1) as u32);
        if s.contains(c) {
            prev
        } else {
            prev.push(c)
        }
    }
}

proof fn lemma_missing_list(s: Seq<CandidateIndex>, x: nat)
    requires
        x <= u32::MAX + 1,
    ensures
        missing_list(s, x).no_duplicates(),
        forall|i: int|
            0 <= i < missing_list(s, x).len() ==> (#[trigger] missing_list(s, x)[i]).0 < x
                && !s.contains(missing_list(s, x)[i]),
        forall|y: u32| y < x && !s.contains(CandidateIndex(y)) ==> #[trigger] missing_list(
            s,
            x,
        ).contains(CandidateIndex(y)),
    decreases x,
{
    if x > 0 {
        lemma_missing_list(s, (x - 1) as nat);
        let prev = missing_list(s, (x - 1) as nat);
        let m = missing_list(s, x);
        let c = CandidateIndex((x - 1) as u32);
        if !s.contains(c) {
            assert(m == prev.push(c));
            assert(m[prev.len() as int] == c);
            assert forall|y: u32| y < x && !s.contains(CandidateIndex(y)) implies #[trigger] m.contains(CandidateIndex(y)) by {
                if y < x - 1 {
                    assert(prev.contains(CandidateIndex(y)));
                    let i = choose|i: int| 0 <= i < prev.len() && prev[i] == CandidateIndex(y);
                    assert(m[i] == CandidateIndex(y));
                }
            }
            assert forall|i: int, j: int| 0 <= i < m.len() && 0 <= j < m.len() && i != j implies m[i] != m[j] by {
                if i < prev.len() && j < prev.len() {
                    assert(m[i] == prev[i] && m[j] == prev[j]);
                } else if i < prev.len() {
                    assert(m[i] == prev[i]);
                } else if j < prev.len() {
                    assert(m[j] == prev[j]);
                }
            }
        } else {
            assert forall|y: u32| y < x && !s.contains(CandidateIndex(y)) implies #[trigger] m.contains(CandidateIndex(y)) by {
                assert(prev.contains(CandidateIndex(y)));
            }
        }
    }
}

proof fn lemma_all_present(s: Seq<CandidateIndex>, x: nat)
    requires
        x <= u32::MAX + 1,
        forall|y: u32| y < x ==> #[trigger] s.contains(CandidateIndex(y)),
    ensures
        num_missing(s, x) == 0,
    decreases x,
{
    if x > 0 {
        lemma_all_present(s, (x - 1) as nat);
        assert(s.contains(CandidateIndex((x - 1) as u32)));
    }
}

/// Every suffix of distinct candidates below `n` is the end of some complete order.
pub proof fn lemma_completion(s: Seq<CandidateIndex>, n: u32)
    requires
        distinct_below(s, n),
    ensures
        is_full(missing_list(s, n as nat) + s, n),
        ends_with(missing_list(s, n as nat) + s, s),
{
    let m = missing_list(s, n as nat);
    let o = m + s;
    lemma_missing_list(s, n as nat);
    assert(o.subrange(o.len() - s.len(), o.len() as int) == s);
    assert forall|i: int| 0 <= i < o.len() implies (#[trigger] o[i]).0 < n by {
        if i < m.len() {
            assert(o[i] == m[i]);
        } else {
            assert(o[i] == s[i - m.len()]);
        }
    }
    assert forall|i: int, j: int| 0 <= i < o.len() && 0 <= j < o.len() && i != j implies o[i] != o[j] by {
        if i < m.len() && j >= m.len() {
            assert(o[i] == m[i] && o[j] == s[j - m.len()]);
        } else if j < m.len() && i >= m.len() {
            assert(o[j] == m[j] && o[i] == s[i - m.len()]);
        } else if i < m.len() {
            assert(o[i] == m[i] && o[j] == m[j]);
        } else {
            assert(o[i] == s[i - m.len()] && o[j] == s[j - m.len()]);
        }
    }
    assert forall|y: u32| y < n implies #[trigger] o.contains(CandidateIndex(y)) by {
        if s.contains(CandidateIndex(y)) {
            let i = choose|i: int| 0 <= i < s.len() && s[i] == CandidateIndex(y);
            assert(o[m.len() + i] == CandidateIndex(y));
        } else {
            assert(m.contains(CandidateIndex(y)));
            let i = choose|i: int| 0 <= i < m.len() && m[i] == CandidateIndex(y);
            assert(o[i] == CandidateIndex(y));
        }
    }
    lemma_all_present(o, n as nat);
}

/// `select` keeps exactly the relevant indices whose assertion has the given effect.
pub proof fn lemma_select_members(
    relevant: Seq<usize>,
    all: Seq<AssertionView>,
    suffix: Seq<CandidateIndex>,
    e: EffectOfAssertionOnEliminationOrderSuffix,
)
    ensures
        forall|x: usize|
            #[trigger] select(relevant, all, suffix, e).contains(x) <==> (relevant.contains(x)
                && effect_of(all[x as int], suffix) == e),
    decreases relevant.len(),
{
    if relevant.len() > 0 {
        let d = relevant.drop_last();
        lemma_select_members(d, all, suffix, e);
        let r = select(relevant, all, suffix, e);
        let sd = select(d, all, suffix, e);
        assert forall|x: usize| #[trigger] r.contains(x) <==> (relevant.contains(x) && effect_of(
            all[x as int],
            suffix,
        ) == e) by {
            if relevant.contains(x) {
                let i = choose|i: int| 0 <= i < relevant.len() && relevant[i] == x;
                if i < d.len() {
                    assert(d[i] == x);
                }
            }
            if d.contains(x) {
                let i = choose|i: int| 0 <= i < d.len() && d[i] == x;
                assert(relevant[i] == x);
            }
            if effect_of(all[relevant.last() as int], suffix) == e {
                assert(r == sd.push(relevant.last()));
                if sd.contains(x) {
                    let i = choose|i: int| 0 <= i < sd.len() && sd[i] == x;
                    assert(r[i] == x);
                }
                if r.contains(x) {
                    let i = choose|i: int| 0 <= i < r.len() && r[i] == x;
                    if i < sd.len() {
                        assert(sd[i] == x);
                    }
                }
                assert(r[sd.len() as int] == relevant.last());
            }
        }
    }
}

/// Each subtree below `x` is the tree of a candidate below `x` that is not in the suffix.
pub proof fn lemma_children_are_builds(
    suffix: Seq<CandidateIndex>,
    x: nat,
    relevant: Seq<usize>,
    all: Seq<AssertionView>,
    n: u32,
    extend: bool,
)
    requires
        x <= n,
    ensures
        forall|i: int|
            0 <= i < children_upto(suffix, x, relevant, all, n, extend).len() ==> exists|y: u32|
                y < x && y < n && !suffix.contains(CandidateIndex(y)) && #[trigger] children_upto(
                    suffix,
                    x,
                    relevant,
                    all,
                    n,
                    extend,
                )[i] == build(suffix, CandidateIndex(y), relevant, all, n, extend),
        forall|y: u32|
            y < x && y < n && !suffix.contains(CandidateIndex(y)) ==> children_upto(
                suffix,
                x,
                relevant,
                all,
                n,
                extend,
            ).contains(#[trigger] build(suffix, CandidateIndex(y), relevant, all, n, extend)),
    decreases x,
{
    if x > 0 && x <= n {
        lemma_children_are_builds(suffix, (x - 1) as nat, relevant, all, n, extend);
        let prev = children_upto(suffix, (x - 1) as nat, relevant, all, n, extend);
        let cur = children_upto(suffix, x, relevant, all, n, extend);
        let c = CandidateIndex((x - 1) as u32);
        if !suffix.contains(c) {
            let b = build(suffix, c, relevant, all, n, extend);
            assert(cur == prev.push(b));
            assert(cur[prev.len() as int] == b);
            assert forall|i: int| 0 <= i < cur.len() implies exists|y: u32|
                y < x && y < n && !suffix.contains(CandidateIndex(y)) && #[trigger] cur[i] == build(
                    suffix,
                    CandidateIndex(y),
                    relevant,
                    all,
                    n,
                    extend,
                ) by {
                if i < prev.len() {
                    assert(cur[i] == prev[i]);
                } else {
                    assert(cur[i] == build(suffix, CandidateIndex((x - 1) as u32), relevant, all, n, extend));
                }
            }
            assert forall|y: u32| y < x && y < n && !suffix.contains(CandidateIndex(y)) implies cur.contains(
                #[trigger] build(suffix, CandidateIndex(y), relevant, all, n, extend),
            ) by {
                if y < x - 1 {
                    let b2 = build(suffix, CandidateIndex(y), relevant, all, n, extend);
                    let i = choose|i: int| 0 <= i < prev.len() && prev[i] == b2;
                    assert(cur[i] == b2);
                }
            }
        } else {
            assert(cur == prev);
            assert forall|y: u32| y < x && y < n && !suffix.contains(CandidateIndex(y)) implies cur.contains(
                #[trigger] build(suffix, CandidateIndex(y), relevant, all, n, extend),
            ) by {
                assert(y != x - 1);
            }
        }
    }
}

/// Every assertion of `relevant` is satisfied by `order`.
pub open spec fn consistent_with(
    all: Seq<AssertionView>,
    relevant: Seq<usize>,
    order: Seq<CandidateIndex>,
) -> bool {
    forall|j: int|
        0 <= j < relevant.len() ==> effect_of(all[#[trigger] relevant[j] as int], order)
            == EffectOfAssertionOnEliminationOrderSuffix::Consistent
}

proof fn lemma_split(order: Seq<CandidateIndex>, s: Seq<CandidateIndex>)
    requires
        ends_with(order, s),
    ensures
        order == order.subrange(0, order.len() - s.len()) + s,
{
    assert(order =~= order.subrange(0, order.len() - s.len()) + s);
}

proof fn lemma_prepend_distinct(s: Seq<CandidateIndex>, x: CandidateIndex, n: u32)
    requires
        distinct_below(s, n),
        x.0 < n,
        !s.contains(x),
    ensures
        distinct_below(seq![x] + s, n),
{
    let t = seq![x] + s;
    assert forall|i: int| 0 <= i < t.len() implies (#[trigger] t[i]).0 < n by {
        if i > 0 {
            assert(t[i] == s[i - 1]);
        }
    }
    assert forall|i: int, j: int| 0 <= i < t.len() && 0 <= j < t.len() && i != j implies t[i] != t[j] by {
        if i > 0 && j > 0 {
            assert(t[i] == s[i - 1] && t[j] == s[j - 1]);
        } else if i > 0 {
            assert(t[i] == s[i - 1]);
        } else {
            assert(t[j] == s[j - 1]);
        }
    }
}

/// A relevant assertion that is neither contradicted nor undecided on `s`
/// stays satisfied on every order that ends with `s`.
proof fn lemma_relevant_outside_pruning(
    relevant: Seq<usize>,
    all: Seq<AssertionView>,
    s: Seq<CandidateIndex>,
    order: Seq<CandidateIndex>,
)
    requires
        ends_with(order, s),
        select(relevant, all, s, EffectOfAssertionOnEliminationOrderSuffix::Contradiction).len() == 0,
        consistent_with(
            all,
            select(relevant, all, s, EffectOfAssertionOnEliminationOrderSuffix::NeedsMoreDetail),
            order,
        ),
    ensures
        consistent_with(all, relevant, order),
{
    let still = select(relevant, all, s, EffectOfAssertionOnEliminationOrderSuffix::NeedsMoreDetail);
    let pruning = select(relevant, all, s, EffectOfAssertionOnEliminationOrderSuffix::Contradiction);
    lemma_select_members(relevant, all, s, EffectOfAssertionOnEliminationOrderSuffix::Contradiction);
    lemma_select_members(relevant, all, s, EffectOfAssertionOnEliminationOrderSuffix::NeedsMoreDetail);
    lemma_split(order, s);
    let p = order.subrange(0, order.len() - s.len());
    assert forall|j: int| 0 <= j < relevant.len() implies effect_of(
        all[#[trigger] relevant[j] as int],
        order,
    ) == EffectOfAssertionOnEliminationOrderSuffix::Consistent by {
        let i = relevant[j];
        assert(relevant.contains(i));
        let e = effect_of(all[i as int], s);
        if e == EffectOfAssertionOnEliminationOrderSuffix::Contradiction {
            assert(pruning.contains(i));
        } else if e == EffectOfAssertionOnEliminationOrderSuffix::NeedsMoreDetail {
            assert(still.contains(i));
            let k = choose|k: int| 0 <= k < still.len() && still[k] == i;
            assert(effect_of(all[still[k] as int], order) == EffectOfAssertionOnEliminationOrderSuffix::Consistent);
        } else {
            lemma_effect_settled(all[i as int], p, s);
        }
    }
}

/// The facts shared by the steps of the characterisation below.
pub open spec fn tree_inputs_ok(
    s: Seq<CandidateIndex>,
    relevant: Seq<usize>,
    all: Seq<AssertionView>,
    n: u32,
) -> bool {
    &&& distinct_below(s, n)
    &&& forall|j: int| 0 <= j < relevant.len() ==> #[trigger] relevant[j] < all.len()
}

/// Whether some complete order ending with `s` is contradicted by none of `relevant`.
pub open spec fn has_consistent_completion(
    s: Seq<CandidateIndex>,
    relevant: Seq<usize>,
    all: Seq<AssertionView>,
    n: u32,
) -> bool {
    exists|order: Seq<CandidateIndex>|
        is_full(order, n) && #[trigger] ends_with(order, s) && consistent_with(all, relevant, order)
}

/// A tree is valid exactly when some complete order that ends with its suffix is
/// contradicted by none of its relevant assertions.
pub proof fn lemma_valid_iff_completion(
    parent: Seq<CandidateIndex>,
    candidate: CandidateIndex,
    relevant: Seq<usize>,
    all: Seq<AssertionView>,
    n: u32,
    extend: bool,
)
    requires
        tree_inputs_ok(seq![candidate] + parent, relevant, all, n),
    ensures
        build(parent, candidate, relevant, all, n, extend).valid <==> has_consistent_completion(
            seq![candidate] + parent,
            relevant,
            all,
            n,
        ),
    decreases num_missing(seq![candidate] + parent, n as nat), 1nat,
{
    let s = seq![candidate] + parent;
    let pruning = select(relevant, all, s, EffectOfAssertionOnEliminationOrderSuffix::Contradiction);
    let still = select(relevant, all, s, EffectOfAssertionOnEliminationOrderSuffix::NeedsMoreDetail);
    let t = build(parent, candidate, relevant, all, n, extend);
    if pruning.len() > 0 {
        assert(!t.valid);
        lemma_select_members(relevant, all, s, EffectOfAssertionOnEliminationOrderSuffix::Contradiction);
        let i = pruning[0];
        assert(pruning.contains(i));
        assert forall|order: Seq<CandidateIndex>|
            is_full(order, n) && #[trigger] ends_with(order, s) && consistent_with(all, relevant, order) implies false by {
            lemma_split(order, s);
            lemma_effect_settled(all[i as int], order.subrange(0, order.len() - s.len()), s);
            let j = choose|j: int| 0 <= j < relevant.len() && relevant[j] == i;
            assert(effect_of(all[relevant[j] as int], order) == EffectOfAssertionOnEliminationOrderSuffix::Consistent);
        }
    } else if still.len() == 0 {
        assert(t.valid);
        lemma_completion(s, n);
        let order = missing_list(s, n as nat) + s;
        lemma_relevant_outside_pruning(relevant, all, s, order);
        assert(ends_with(order, s));
    } else {
        let children = children_upto(s, n as nat, still, all, n, extend);
        assert(t.children == children);
        assert(t.valid == any_valid(children));
        if t.valid {
            lemma_valid_children_forward(parent, candidate, relevant, all, n, extend);
        }
        lemma_valid_children_backward(parent, candidate, relevant, all, n, extend);
    }
}

proof fn lemma_valid_children_forward(
    parent: Seq<CandidateIndex>,
    candidate: CandidateIndex,
    relevant: Seq<usize>,
    all: Seq<AssertionView>,
    n: u32,
    extend: bool,
)
    requires
        tree_inputs_ok(seq![candidate] + parent, relevant, all, n),
        select(relevant, all, seq![candidate] + parent, EffectOfAssertionOnEliminationOrderSuffix::Contradiction).len() == 0,
        any_valid(
            children_upto(
                seq![candidate] + parent,
                n as nat,
                select(relevant, all, seq![candidate] + parent, EffectOfAssertionOnEliminationOrderSuffix::NeedsMoreDetail),
                all,
                n,
                extend,
            ),
        ),
    ensures
        has_consistent_completion(seq![candidate] + parent, relevant, all, n),
    decreases num_missing(seq![candidate] + parent, n as nat), 0nat,
{
    let s = seq![candidate] + parent;
    let still = select(relevant, all, s, EffectOfAssertionOnEliminationOrderSuffix::NeedsMoreDetail);
    let children = children_upto(s, n as nat, still, all, n, extend);
    lemma_children_are_builds(s, n as nat, still, all, n, extend);
    lemma_select_below(relevant, all, s, EffectOfAssertionOnEliminationOrderSuffix::NeedsMoreDetail, all.len());
    let k = choose|k: int| 0 <= k < children.len() && children[k].valid;
    let y = choose|y: u32|
        y < n && y < n && !s.contains(CandidateIndex(y)) && #[trigger] children[k] == build(
            s,
            CandidateIndex(y),
            still,
            all,
            n,
            extend,
        );
    let x = CandidateIndex(y);
    lemma_num_missing_prepend(s, x, n as nat);
    lemma_prepend_distinct(s, x, n);
    lemma_valid_iff_completion(s, x, still, all, n, extend);
    let order = choose|order: Seq<CandidateIndex>|
        is_full(order, n) && #[trigger] ends_with(order, seq![x] + s) && consistent_with(all, still, order);
    assert(order.subrange(order.len() - s.len(), order.len() as int) == (seq![x] + s).subrange(1, s.len() + 1int));
    assert((seq![x] + s).subrange(1, s.len() + 1int) == s);
    assert(ends_with(order, s));
    lemma_relevant_outside_pruning(relevant, all, s, order);
}

proof fn lemma_valid_children_backward(
    parent: Seq<CandidateIndex>,
    candidate: CandidateIndex,
    relevant: Seq<usize>,
    all: Seq<AssertionView>,
    n: u32,
    extend: bool,
)
    requires
        tree_inputs_ok(seq![candidate] + parent, relevant, all, n),
        select(relevant, all, seq![candidate] + parent, EffectOfAssertionOnEliminationOrderSuffix::NeedsMoreDetail).len() > 0,
    ensures
        has_consistent_completion(seq![candidate] + parent, relevant, all, n) ==> any_valid(
            children_upto(
                seq![candidate] + parent,
                n as nat,
                select(relevant, all, seq![candidate] + parent, EffectOfAssertionOnEliminationOrderSuffix::NeedsMoreDetail),
                all,
                n,
                extend,
            ),
        ),
    decreases num_missing(seq![candidate] + parent, n as nat), 0nat,
{
    let s = seq![candidate] + parent;
    let still = select(relevant, all, s, EffectOfAssertionOnEliminationOrderSuffix::NeedsMoreDetail);
    let children = children_upto(s, n as nat, still, all, n, extend);
    if has_consistent_completion(s, relevant, all, n) {
        lemma_children_are_builds(s, n as nat, still, all, n, extend);
        lemma_select_below(relevant, all, s, EffectOfAssertionOnEliminationOrderSuffix::NeedsMoreDetail, all.len());
        lemma_select_members(relevant, all, s, EffectOfAssertionOnEliminationOrderSuffix::NeedsMoreDetail);
        let order = choose|order: Seq<CandidateIndex>|
            is_full(order, n) && #[trigger] ends_with(order, s) && consistent_with(all, relevant, order);
        let len = order.len();
        if len == s.len() {
            assert(order == order.subrange(len - s.len(), len as int));
            let i = still[0];
            assert(still.contains(i));
            let j = choose|j: int| 0 <= j < relevant.len() && relevant[j] == i;
            assert(effect_of(all[relevant[j] as int], order) == EffectOfAssertionOnEliminationOrderSuffix::Consistent);
        } else {
            let x = order[len - s.len() - 1];
            assert(x.0 < n);
            assert(!s.contains(x)) by {
                if s.contains(x) {
                    let j = choose|j: int| 0 <= j < s.len() && s[j] == x;
                    assert(order[len - s.len() + j] == s[j]);
                }
            }
            assert(order.subrange(len - s.len() - 1, len as int) =~= seq![x] + s);
            assert(ends_with(order, seq![x] + s));
            assert forall|j: int| 0 <= j < still.len() implies effect_of(
                all[#[trigger] still[j] as int],
                order,
            ) == EffectOfAssertionOnEliminationOrderSuffix::Consistent by {
                assert(still.contains(still[j]));
                let r = choose|r: int| 0 <= r < relevant.len() && relevant[r] == still[j];
                assert(effect_of(all[relevant[r] as int], order) == EffectOfAssertionOnEliminationOrderSuffix::Consistent);
            }
            lemma_num_missing_prepend(s, x, n as nat);
            lemma_prepend_distinct(s, x, n);
            lemma_valid_iff_completion(s, x, still, all, n, extend);
            let b = build(s, x, still, all, n, extend);
            assert(b.valid);
            assert(x == CandidateIndex(x.0));
            assert(children.contains(b));
            let k = choose|k: int| 0 <= k < children.len() && children[k] == b;
            assert(children[k].valid);
        }
    }
}

/// Every mark of `u1` is also a mark of `u2`, and both cover the same assertions.
pub open spec fn marks_grow(u1: Seq<bool>, u2: Seq<bool>) -> bool {
    u1.len() == u2.len() && forall|k: int| 0 <= k < u1.len() && #[trigger] u1[k] ==> u2[k]
}

/// Whether every node where the sweeps stop is ruled out by the marks: a pruned
/// node is already eliminated, and an unpruned one has all its children covered.
pub open spec fn covered(t: PruneTree, used: Seq<bool>) -> bool
    decreases t,
{
    if t.pruning.len() > 0 {
        eliminated(t, used)
    } else {
        forall|i: int| 0 <= i < t.children.len() ==> covered(#[trigger] t.children[i], used)
    }
}

proof fn lemma_eliminated_grows(t: PruneTree, u1: Seq<bool>, u2: Seq<bool>)
    requires
        marks_grow(u1, u2),
        indices_below(t, u1.len()),
        eliminated(t, u1),
    ensures
        eliminated(t, u2),
    decreases t,
{
    if exists|i: int| 0 <= i < t.pruning.len() && u1[#[trigger] t.pruning[i] as int] {
        let i = choose|i: int| 0 <= i < t.pruning.len() && u1[#[trigger] t.pruning[i] as int];
        assert(u2[t.pruning[i] as int]);
    } else {
        assert forall|i: int| 0 <= i < t.children.len() implies eliminated(#[trigger] t.children[i], u2) by {
            lemma_eliminated_grows(t.children[i], u1, u2);
        }
    }
}

proof fn lemma_covered_grows(t: PruneTree, u1: Seq<bool>, u2: Seq<bool>)
    requires
        marks_grow(u1, u2),
        indices_below(t, u1.len()),
        covered(t, u1),
    ensures
        covered(t, u2),
    decreases t,
{
    if t.pruning.len() > 0 {
        lemma_eliminated_grows(t, u1, u2);
    } else {
        assert forall|i: int| 0 <= i < t.children.len() implies covered(#[trigger] t.children[i], u2) by {
            lemma_covered_grows(t.children[i], u1, u2);
        }
    }
}

proof fn lemma_forced_grows(t: PruneTree, u: Seq<bool>)
    requires
        indices_below(t, u.len()),
    ensures
        marks_grow(u, forced(t, u)),
    decreases t, 1nat,
{
    if t.pruning.len() == 0 {
        lemma_forced_all_grows(t.children, u);
    } else {
        assert(t.pruning[0] < u.len());
    }
}

proof fn lemma_forced_all_grows(ts: Seq<PruneTree>, u: Seq<bool>)
    requires
        forall|i: int| 0 <= i < ts.len() ==> indices_below(#[trigger] ts[i], u.len()),
    ensures
        marks_grow(u, forced_all(ts, u)),
    decreases ts, 0nat,
{
    if ts.len() > 0 {
        let d = ts.subrange(0, ts.len() - 1);
        assert forall|i: int| 0 <= i < d.len() implies indices_below(#[trigger] d[i], u.len()) by {
            assert(d[i] == ts[i]);
        }
        lemma_forced_all_grows(d, u);
        let m = forced_all(d, u);
        lemma_forced_grows(ts[ts.len() - 1], m);
    }
}

/// The second sweep over a tree only adds marks, and leaves the tree covered.
proof fn lemma_second_pass_covers(t: PruneTree, u: Seq<bool>)
    requires
        indices_below(t, u.len()),
    ensures
        marks_grow(u, second_pass(t, u)),
        covered(t, second_pass(t, u)),
    decreases t, 1nat,
{
    if t.pruning.len() == 0 {
        lemma_second_pass_all_covers(t.children, u);
    } else {
        assert(t.pruning[0] < u.len());
        if !eliminated(t, u) {
            let u2 = u.update(t.pruning[0] as int, true);
            assert(u2[t.pruning[0] as int]);
        }
    }
}

/// The second sweep over each tree in turn only adds marks, and leaves every one covered.
proof fn lemma_second_pass_all_covers(ts: Seq<PruneTree>, u: Seq<bool>)
    requires
        forall|i: int| 0 <= i < ts.len() ==> indices_below(#[trigger] ts[i], u.len()),
    ensures
        marks_grow(u, second_pass_all(ts, u)),
        forall|i: int| 0 <= i < ts.len() ==> covered(#[trigger] ts[i], second_pass_all(ts, u)),
    decreases ts, 0nat,
{
    if ts.len() > 0 {
        let d = ts.subrange(0, ts.len() - 1);
        assert forall|i: int| 0 <= i < d.len() implies indices_below(#[trigger] d[i], u.len()) by {
            assert(d[i] == ts[i]);
        }
        lemma_second_pass_all_covers(d, u);
        let m = second_pass_all(d, u);
        let last = ts[ts.len() - 1];
        lemma_second_pass_covers(last, m);
        let f = second_pass(last, m);
        assert forall|i: int| 0 <= i < ts.len() implies covered(#[trigger] ts[i], second_pass_all(ts, u)) by {
            if i < ts.len() - 1 {
                assert(d[i] == ts[i]);
                lemma_covered_grows(ts[i], m, f);
            }
        }
    }
}

/// Whether some marked assertion contradicts `order`.
pub open spec fn ruled_out_by_marks(
    all: Seq<AssertionView>,
    used: Seq<bool>,
    order: Seq<CandidateIndex>,
) -> bool {
    exists|k: int|
        0 <= k < used.len() && used[k] && #[trigger] effect_of(all[k], order)
            == EffectOfAssertionOnEliminationOrderSuffix::Contradiction
}

/// The candidate just before `s` in a complete order that ends with it.
proof fn lemma_next_in_order(order: Seq<CandidateIndex>, s: Seq<CandidateIndex>, n: u32)
    requires
        is_full(order, n),
        ends_with(order, s),
        order.len() > s.len(),
    ensures
        order[order.len() - s.len() - 1].0 < n,
        !s.contains(order[order.len() - s.len() - 1]),
        ends_with(order, seq![order[order.len() - s.len() - 1]] + s),
{
    let len = order.len();
    let x = order[len - s.len() - 1];
    assert(x.0 < n);
    assert(!s.contains(x)) by {
        if s.contains(x) {
            let j = choose|j: int| 0 <= j < s.len() && s[j] == x;
            assert(order[len - s.len() + j] == s[j]);
        }
    }
    assert(order.subrange(len - s.len() - 1, len as int) =~= seq![x] + s);
}

/// A node that the marks eliminate has every complete order below it contradicted
/// by a marked assertion.
pub proof fn lemma_eliminated_rules_out(
    parent: Seq<CandidateIndex>,
    candidate: CandidateIndex,
    relevant: Seq<usize>,
    all: Seq<AssertionView>,
    n: u32,
    extend: bool,
    used: Seq<bool>,
)
    requires
        tree_inputs_ok(seq![candidate] + parent, relevant, all, n),
        used.len() == all.len(),
        eliminated(build(parent, candidate, relevant, all, n, extend), used),
    ensures
        forall|order: Seq<CandidateIndex>|
            is_full(order, n) && #[trigger] ends_with(order, seq![candidate] + parent)
                ==> ruled_out_by_marks(all, used, order),
    decreases num_missing(seq![candidate] + parent, n as nat),
{
    let s = seq![candidate] + parent;
    let t = build(parent, candidate, relevant, all, n, extend);
    let pruning = select(relevant, all, s, EffectOfAssertionOnEliminationOrderSuffix::Contradiction);
    let still = select(relevant, all, s, EffectOfAssertionOnEliminationOrderSuffix::NeedsMoreDetail);
    lemma_select_members(relevant, all, s, EffectOfAssertionOnEliminationOrderSuffix::Contradiction);
    lemma_select_below(relevant, all, s, EffectOfAssertionOnEliminationOrderSuffix::Contradiction, all.len());
    lemma_select_below(relevant, all, s, EffectOfAssertionOnEliminationOrderSuffix::NeedsMoreDetail, all.len());
    if exists|i: int| 0 <= i < t.pruning.len() && used[#[trigger] t.pruning[i] as int] {
        let i = choose|i: int| 0 <= i < t.pruning.len() && used[#[trigger] t.pruning[i] as int];
        let k = t.pruning[i];
        assert(pruning.contains(k));
        assert forall|order: Seq<CandidateIndex>|
            is_full(order, n) && #[trigger] ends_with(order, s) implies ruled_out_by_marks(all, used, order) by {
            lemma_split(order, s);
            lemma_effect_settled(all[k as int], order.subrange(0, order.len() - s.len()), s);
        }
    } else {
        let ce = extend && pruning.len() == 0;
        let children = children_upto(s, n as nat, still, all, n, ce);
        assert(t.children == children);
        lemma_children_are_builds(s, n as nat, still, all, n, ce);
        assert forall|order: Seq<CandidateIndex>|
            is_full(order, n) && #[trigger] ends_with(order, s) implies ruled_out_by_marks(all, used, order) by {
            if order.len() == s.len() {
                assert(order == order.subrange(0, order.len() as int));
                let y = choose|y: u32|
                    y < n && y < n && !s.contains(CandidateIndex(y)) && #[trigger] children[0] == build(
                        s,
                        CandidateIndex(y),
                        still,
                        all,
                        n,
                        ce,
                    );
                lemma_none_missing(order, n as nat, y);
            } else {
                lemma_next_in_order(order, s, n);
                let x = order[order.len() - s.len() - 1];
                lemma_num_missing_prepend(s, x, n as nat);
                lemma_prepend_distinct(s, x, n);
                let b = build(s, x, still, all, n, ce);
                assert(x == CandidateIndex(x.0));
                assert(children.contains(b));
                let k = choose|k: int| 0 <= k < children.len() && children[k] == b;
                assert(eliminated(children[k], used));
                lemma_eliminated_rules_out(s, x, still, all, n, ce, used);
            }
        }
    }
}

/// Whether some assertion of `all` leaves `order` undecided.
pub open spec fn undecided_at(all: Seq<AssertionView>, order: Seq<CandidateIndex>) -> bool {
    exists|i: int|
        0 <= i < all.len() && #[trigger] effect_of(all[i], order)
            == EffectOfAssertionOnEliminationOrderSuffix::NeedsMoreDetail
}

/// An invalid tree that the marks cover has every complete order below it
/// contradicted by a marked assertion or left undecided by some assertion.
pub proof fn lemma_covered_rules_out(
    parent: Seq<CandidateIndex>,
    candidate: CandidateIndex,
    relevant: Seq<usize>,
    all: Seq<AssertionView>,
    n: u32,
    extend: bool,
    used: Seq<bool>,
)
    requires
        tree_inputs_ok(seq![candidate] + parent, relevant, all, n),
        used.len() == all.len(),
        covered(build(parent, candidate, relevant, all, n, extend), used),
        !build(parent, candidate, relevant, all, n, extend).valid,
    ensures
        forall|order: Seq<CandidateIndex>|
            is_full(order, n) && #[trigger] ends_with(order, seq![candidate] + parent)
                ==> ruled_out_by_marks(all, used, order) || undecided_at(all, order),
    decreases num_missing(seq![candidate] + parent, n as nat),
{
    let s = seq![candidate] + parent;
    let t = build(parent, candidate, relevant, all, n, extend);
    let pruning = select(relevant, all, s, EffectOfAssertionOnEliminationOrderSuffix::Contradiction);
    let still = select(relevant, all, s, EffectOfAssertionOnEliminationOrderSuffix::NeedsMoreDetail);
    if pruning.len() > 0 {
        lemma_eliminated_rules_out(parent, candidate, relevant, all, n, extend, used);
    } else {
        lemma_select_members(relevant, all, s, EffectOfAssertionOnEliminationOrderSuffix::NeedsMoreDetail);
        lemma_select_below(relevant, all, s, EffectOfAssertionOnEliminationOrderSuffix::NeedsMoreDetail, all.len());
        let children = children_upto(s, n as nat, still, all, n, extend);
        assert(t.children == children);
        lemma_children_are_builds(s, n as nat, still, all, n, extend);
        assert forall|order: Seq<CandidateIndex>|
            is_full(order, n) && #[trigger] ends_with(order, s) implies ruled_out_by_marks(all, used, order) || undecided_at(all, order) by {
            if order.len() == s.len() {
                assert(order == order.subrange(0, order.len() as int));
                let i = still[0];
                assert(still.contains(i));
                assert(i < all.len());
                assert(effect_of(all[i as int], order) == EffectOfAssertionOnEliminationOrderSuffix::NeedsMoreDetail);
            } else {
                lemma_next_in_order(order, s, n);
                let x = order[order.len() - s.len() - 1];
                lemma_num_missing_prepend(s, x, n as nat);
                lemma_prepend_distinct(s, x, n);
                let b = build(s, x, still, all, n, extend);
                assert(x == CandidateIndex(x.0));
                assert(children.contains(b));
                let k = choose|k: int| 0 <= k < children.len() && children[k] == b;
                assert(covered(children[k], used));
                if b.valid {
                    assert(any_valid(children));
                }
                lemma_covered_rules_out(s, x, still, all, n, extend, used);
            }
        }
    }
}

/// `keep_used` keeps every marked record.
proof fn lemma_keep_used_keeps(s: Seq<AssertionAndDifficulty>, used: Seq<bool>, k: int)
    requires
        0 <= k < s.len(),
        used[k],
    ensures
        keep_used(s, used).contains(s[k]),
    decreases s.len(),
{
    let d = s.drop_last();
    let kd = keep_used(d, used);
    if k < s.len() - 1 {
        lemma_keep_used_keeps(d, used, k);
        assert(d[k] == s[k]);
        let i = choose|i: int| 0 <= i < kd.len() && kd[i] == s[k];
        if used[s.len() - 1] {
            assert(keep_used(s, used)[i] == s[k]);
        }
    } else {
        assert(keep_used(s, used)[kd.len() as int] == s[k]);
    }
}

/// The losers' trees are the trees of every candidate below `x` but the winner,
/// and hold only indices of assertions.
proof fn lemma_loser_trees(
    all: Seq<AssertionView>,
    winner: CandidateIndex,
    n: u32,
    extend: bool,
    x: nat,
)
    requires
        x <= n,
    ensures
        forall|i: int|
            0 <= i < loser_trees(all, winner, n, extend, x).len() ==> indices_below(
                #[trigger] loser_trees(all, winner, n, extend, x)[i],
                all.len(),
            ),
        forall|c: nat|
            c < x && CandidateIndex(c as u32) != winner ==> loser_trees(all, winner, n, extend, x).contains(
                #[trigger] candidate_tree(all, c, n, extend),
            ),
    decreases x,
{
    if x > 0 {
        lemma_loser_trees(all, winner, n, extend, (x - 1) as nat);
        let prev = loser_trees(all, winner, n, extend, (x - 1) as nat);
        let cur = loser_trees(all, winner, n, extend, x);
        if CandidateIndex((x - 1) as u32) != winner {
            let b = candidate_tree(all, (x - 1) as nat, n, extend);
            lemma_build_indices_below(Seq::empty(), CandidateIndex((x - 1) as u32), identity_indices(all.len()), all, n, extend);
            assert(cur == prev.push(b));
            assert(cur[prev.len() as int] == b);
            assert forall|i: int| 0 <= i < cur.len() implies indices_below(#[trigger] cur[i], all.len()) by {
                if i < prev.len() {
                    assert(cur[i] == prev[i]);
                }
            }
            assert forall|c: nat| c < x && CandidateIndex(c as u32) != winner implies cur.contains(
                #[trigger] candidate_tree(all, c, n, extend),
            ) by {
                if c < x - 1 {
                    let i = choose|i: int| 0 <= i < prev.len() && prev[i] == candidate_tree(all, c, n, extend);
                    assert(cur[i] == prev[i]);
                }
            }
        } else {
            assert forall|c: nat| c < x && CandidateIndex(c as u32) != winner implies cur.contains(
                #[trigger] candidate_tree(all, c, n, extend),
            ) by {
                assert(c != x - 1);
            }
        }
    }
}

/// Trimming never drops an assertion that some loser's exclusion needs: after a
/// successful run for a winner among the `n` candidates, every candidate's tree
/// built from the kept assertions alone, with or without extension, is again
/// valid exactly when that candidate is the winner.
pub proof fn lemma_trimming_sound(
    records: Seq<AssertionAndDifficulty>,
    winner: CandidateIndex,
    n: u32,
    extend: bool,
    r: Result<(), RaireError>,
    out: Seq<AssertionAndDifficulty>,
    c: nat,
    rebuild_extend: bool,
)
    requires
        trimming_outcome(records, winner, n, extend, r, out),
        r is Ok,
        records.len() <= usize::MAX,
        winner.0 < n,
        c < n,
    ensures
        tree_agrees(record_assertions(out), winner, c, n, rebuild_extend),
{
    let sorted = sorted_records(records);
    let all = record_assertions(sorted);
    let used = used_assertions(all, winner, n, extend);
    let kept = record_assertions(out);
    let cand = CandidateIndex(c as u32);
    let s0 = seq![cand] + Seq::<CandidateIndex>::empty();
    let sw = seq![winner] + Seq::<CandidateIndex>::empty();
    assert(tree_agrees(all, winner, c, n, extend));
    assert(tree_agrees(all, winner, winner.0 as nat, n, extend));
    assert(CandidateIndex((winner.0 as nat) as u32) == winner);
    lemma_sorted_records(records);
    lemma_keep_used(sorted, used);
    assert(out == keep_used(sorted, used));
    assert forall|j: int| 0 <= j < out.len() implies exists|k: int|
        0 <= k < sorted.len() && #[trigger] out[j] == sorted[k] by {
        assert(sorted.contains(out[j]));
    }
    assert(distinct_below(s0, n)) by {
        assert(s0.len() == 1);
        assert(s0[0] == cand);
    }
    assert(distinct_below(sw, n)) by {
        assert(sw.len() == 1);
        assert(sw[0] == winner);
    }
    lemma_valid_iff_completion(Seq::empty(), winner, identity_indices(all.len()), all, n, extend);
    lemma_valid_iff_completion(Seq::empty(), cand, identity_indices(all.len()), all, n, extend);
    lemma_valid_iff_completion(Seq::empty(), cand, identity_indices(kept.len()), kept, n, rebuild_extend);
    let winning_order = choose|order: Seq<CandidateIndex>|
        is_full(order, n) && #[trigger] ends_with(order, sw) && consistent_with(
            all,
            identity_indices(all.len()),
            order,
        );
    if cand == winner {
        assert forall|j: int| 0 <= j < identity_indices(kept.len()).len() implies effect_of(
            kept[#[trigger] identity_indices(kept.len())[j] as int],
            winning_order,
        ) == EffectOfAssertionOnEliminationOrderSuffix::Consistent by {
            let k = choose|k: int| 0 <= k < sorted.len() && out[j] == sorted[k];
            assert(kept[j] == all[k]);
            assert(k <= usize::MAX);
            assert((k as usize) as int == k);
            assert(identity_indices(all.len())[k] as int == k);
            assert(j <= usize::MAX);
            assert((j as usize) as int == j);
        }
        assert(s0 == sw);
        assert(has_consistent_completion(s0, identity_indices(kept.len()), kept, n));
    } else {
        let trees = loser_trees(all, winner, n, extend, n as nat);
        let unmarked = Seq::new(all.len(), |i: int| false);
        lemma_loser_trees(all, winner, n, extend, n as nat);
        lemma_forced_all_grows(trees, unmarked);
        let after_forced = forced_all(trees, unmarked);
        lemma_second_pass_all_covers(trees, after_forced);
        let t = candidate_tree(all, c, n, extend);
        assert(trees.contains(t));
        let i = choose|i: int| 0 <= i < trees.len() && trees[i] == t;
        assert(covered(trees[i], used));
        lemma_covered_rules_out(Seq::empty(), cand, identity_indices(all.len()), all, n, extend, used);
        assert forall|order: Seq<CandidateIndex>|
            is_full(order, n) && #[trigger] ends_with(order, s0) implies !consistent_with(
                kept,
                identity_indices(kept.len()),
                order,
            ) by {
            if ruled_out_by_marks(all, used, order) {
                let k = choose|k: int|
                    0 <= k < used.len() && used[k] && #[trigger] effect_of(all[k], order)
                        == EffectOfAssertionOnEliminationOrderSuffix::Contradiction;
                lemma_keep_used_keeps(sorted, used, k);
                let j = choose|j: int| 0 <= j < out.len() && out[j] == sorted[k];
                assert(kept[j] == all[k]);
                assert(j <= usize::MAX);
                assert((j as usize) as int == j);
                assert(identity_indices(kept.len())[j] as int == j);
            } else {
                let k = choose|k: int|
                    0 <= k < all.len() && #[trigger] effect_of(all[k], order)
                        == EffectOfAssertionOnEliminationOrderSuffix::NeedsMoreDetail;
                lemma_undecided_on_every_full_order(all[k], order, winning_order, n);
                assert(k <= usize::MAX);
                assert((k as usize) as int == k);
                assert(identity_indices(all.len())[k] as int == k);
                assert(effect_of(all[identity_indices(all.len())[k] as int], winning_order)
                    == EffectOfAssertionOnEliminationOrderSuffix::Consistent);
            }
        }
    }
}

} // verus!
