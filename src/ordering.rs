//! The order in which assertions are listed, and a stable sort by it.

use vstd::prelude::*;
use crate::assertions::{Assertion, AssertionAndDifficulty, AssertionView};
use crate::irv::CandidateIndex;

verus! {

/// Lexicographic order on candidate lists, by candidate number.
pub open spec fn lex_lt(a: Seq<CandidateIndex>, b: Seq<CandidateIndex>) -> bool
    decreases a.len(),
{
    if a.len() == 0 || b.len() == 0 {
        false
    } else if a[0].0 != b[0].0 {
        a[0].0 < b[0].0
    } else {
        lex_lt(a.drop_first(), b.drop_first())
    }
}

/// The order in which assertions are listed: every NEN before every NEB; NENs by
/// the length of `continuing`, then winner, then loser, then `continuing` itself;
/// NEBs by winner, then loser.
pub open spec fn assertion_lt(a: AssertionView, b: AssertionView) -> bool {
    match (a, b) {
        (AssertionView::NEN { .. }, AssertionView::NEB { .. }) => true,
        (AssertionView::NEB { .. }, AssertionView::NEN { .. }) => false,
        (
            AssertionView::NEN { winner: w1, loser: l1, continuing: c1 },
            AssertionView::NEN { winner: w2, loser: l2, continuing: c2 },
        ) => c1.len() < c2.len() || (c1.len() == c2.len() && (w1.0 < w2.0 || (w1 == w2 && (l1.0
            < l2.0 || (l1 == l2 && lex_lt(c1, c2)))))),
        (AssertionView::NEB { winner: w1, loser: l1 }, AssertionView::NEB { winner: w2, loser: l2 }) =>
            w1.0 < w2.0 || (w1 == w2 && l1.0 < l2.0),
    }
}

/// Whether the records are listed in the order of their assertions.
pub open spec fn is_sorted(s: Seq<AssertionAndDifficulty>) -> bool {
    forall|i: int, j: int|
        0 <= i < j < s.len() ==> !assertion_lt(#[trigger] s[j].assertion@, #[trigger] s[i].assertion@)
}

/// Where `x` goes in `s`: after every record whose assertion does not come after it.
pub open spec fn insert_pos(s: Seq<AssertionAndDifficulty>, x: AssertionAndDifficulty) -> nat
    decreases s.len(),
{
    if s.len() == 0 {
        0
    } else if assertion_lt(x.assertion@, s.last().assertion@) {
        insert_pos(s.drop_last(), x)
    } else {
        s.len()
    }
}

/// The records in the order of their assertions; records whose assertions are
/// equal keep their relative order.
pub open spec fn sorted_records(s: Seq<AssertionAndDifficulty>) -> Seq<AssertionAndDifficulty>
    decreases s.len(),
{
    if s.len() == 0 {
        s
    } else {
        let r = sorted_records(s.drop_last());
        r.insert(insert_pos(r, s.last()) as int, s.last())
    }
}

/// `lex_lt` is transitive.
pub proof fn lemma_lex_lt_transitive(a: Seq<CandidateIndex>, b: Seq<CandidateIndex>, c: Seq<CandidateIndex>)
    requires
        lex_lt(a, b),
        lex_lt(b, c),
    ensures
        lex_lt(a, c),
    decreases a.len(),
{
    if a[0].0 == b[0].0 && b[0].0 == c[0].0 {
        lemma_lex_lt_transitive(a.drop_first(), b.drop_first(), c.drop_first());
    }
}

/// `lex_lt` is asymmetric.
pub proof fn lemma_lex_lt_asymmetric(a: Seq<CandidateIndex>, b: Seq<CandidateIndex>)
    requires
        lex_lt(a, b),
    ensures
        !lex_lt(b, a),
    decreases a.len(),
{
    if a[0].0 == b[0].0 {
        lemma_lex_lt_asymmetric(a.drop_first(), b.drop_first());
    }
}

/// Two different lists of one length are ordered one way or the other.
pub proof fn lemma_lex_lt_total(a: Seq<CandidateIndex>, b: Seq<CandidateIndex>)
    requires
        a.len() == b.len(),
        a != b,
    ensures
        lex_lt(a, b) || lex_lt(b, a),
    decreases a.len(),
{
    if a.len() == 0 {
        assert(a =~= b);
    } else if a[0].0 == b[0].0 {
        if a.drop_first() == b.drop_first() {
            assert(a =~= b) by {
                assert forall|i: int| 0 <= i < a.len() implies a[i] == b[i] by {
                    if i > 0 {
                        assert(a[i] == a.drop_first()[i - 1]);
                        assert(b[i] == b.drop_first()[i - 1]);
                    }
                }
            }
        }
        lemma_lex_lt_total(a.drop_first(), b.drop_first());
    }
}

/// The order of assertions is a strict total order: transitive, asymmetric, and
/// any two different assertions are ordered one way or the other.
pub proof fn lemma_assertion_lt_strict_total(a: AssertionView, b: AssertionView, c: AssertionView)
    ensures
        assertion_lt(a, b) && assertion_lt(b, c) ==> assertion_lt(a, c),
        assertion_lt(a, b) ==> !assertion_lt(b, a),
        a != b ==> assertion_lt(a, b) || assertion_lt(b, a),
{
    match (a, b) {
        (
            AssertionView::NEN { winner: w1, loser: l1, continuing: c1 },
            AssertionView::NEN { winner: w2, loser: l2, continuing: c2 },
        ) => {
            if lex_lt(c1, c2) {
                lemma_lex_lt_asymmetric(c1, c2);
            }
            if a != b && c1.len() == c2.len() && w1 == w2 && l1 == l2 {
                lemma_lex_lt_total(c1, c2);
            }
            if let AssertionView::NEN { winner: w3, loser: l3, continuing: c3 } = c {
                if lex_lt(c1, c2) && lex_lt(c2, c3) {
                    lemma_lex_lt_transitive(c1, c2, c3);
                }
            }
        },
        _ => {},
    }
}

/// Inserting at `insert_pos` keeps a sorted list sorted.
pub proof fn lemma_insert_keeps_sorted(s: Seq<AssertionAndDifficulty>, x: AssertionAndDifficulty)
    requires
        is_sorted(s),
    ensures
        insert_pos(s, x) <= s.len(),
        is_sorted(s.insert(insert_pos(s, x) as int, x)),
    decreases s.len(),
{
    let p = insert_pos(s, x) as int;
    if s.len() > 0 && assertion_lt(x.assertion@, s.last().assertion@) {
        let d = s.drop_last();
        assert(is_sorted(d)) by {
            assert forall|i: int, j: int| 0 <= i < j < d.len() implies !assertion_lt(
                #[trigger] d[j].assertion@,
                #[trigger] d[i].assertion@,
            ) by {
                assert(d[i] == s[i] && d[j] == s[j]);
            }
        }
        lemma_insert_keeps_sorted(d, x);
        let rd = d.insert(p, x);
        let r = s.insert(p, x);
        assert(r == rd.push(s.last()));
        assert forall|i: int, j: int| 0 <= i < j < r.len() implies !assertion_lt(
            #[trigger] r[j].assertion@,
            #[trigger] r[i].assertion@,
        ) by {
            if j == r.len() - 1 {
                if i == p {
                    lemma_assertion_lt_strict_total(x.assertion@, s.last().assertion@, x.assertion@);
                } else if i < p {
                    assert(r[i] == s[i]);
                } else {
                    assert(r[i] == s[i - 1]);
                }
            } else {
                assert(r[i] == rd[i] && r[j] == rd[j]);
            }
        }
    } else {
        let r = s.insert(p, x);
        assert(p == s.len());
        assert(r == s.push(x));
        assert forall|i: int, j: int| 0 <= i < j < r.len() implies !assertion_lt(
            #[trigger] r[j].assertion@,
            #[trigger] r[i].assertion@,
        ) by {
            if j == r.len() - 1 {
                let last = s.last().assertion@;
                let y = r[i].assertion@;
                assert(r[i] == s[i]);
                assert(!assertion_lt(x.assertion@, last));
                if i < s.len() - 1 {
                    assert(!assertion_lt(last, y));
                    lemma_assertion_lt_strict_total(x.assertion@, y, last);
                    lemma_assertion_lt_strict_total(y, last, x.assertion@);
                    lemma_assertion_lt_strict_total(last, y, x.assertion@);
                    lemma_assertion_lt_strict_total(x.assertion@, last, y);
                }
            } else {
                assert(r[i] == s[i] && r[j] == s[j]);
            }
        }
    }
}

/// `sorted_records` is sorted and has as many records as its input.
pub proof fn lemma_sorted_records(s: Seq<AssertionAndDifficulty>)
    ensures
        is_sorted(sorted_records(s)),
        sorted_records(s).len() == s.len(),
    decreases s.len(),
{
    if s.len() > 0 {
        lemma_sorted_records(s.drop_last());
        lemma_insert_keeps_sorted(sorted_records(s.drop_last()), s.last());
    }
}

/// `sorted_records` only reorders: it holds each record as often as its input does.
pub proof fn lemma_sorted_records_reorders(s: Seq<AssertionAndDifficulty>)
    ensures
        sorted_records(s).to_multiset() =~= s.to_multiset(),
    decreases s.len(),
{
    broadcast use vstd::seq_lib::group_to_multiset_ensures;

    if s.len() > 0 {
        let d = s.drop_last();
        lemma_sorted_records_reorders(d);
        lemma_sorted_records(d);
        let r = sorted_records(d);
        lemma_insert_keeps_sorted(r, s.last());
        let p = insert_pos(r, s.last()) as int;
        let q = r.insert(p, s.last());
        assert(q.remove(p) =~= r);
        assert(q[p] == s.last());
        assert(q.to_multiset().count(s.last()) > 0);
        assert(q.to_multiset() =~= r.to_multiset().insert(s.last()));
        assert(s =~= d.push(s.last()));
    }
}

fn lex_less(a: &Vec<CandidateIndex>, b: &Vec<CandidateIndex>) -> (r: bool)
    ensures
        r == lex_lt(a@, b@),
{
    let mut i: usize = 0;
    assert(a@.subrange(0, a@.len() as int) == a@);
    assert(b@.subrange(0, b@.len() as int) == b@);
    while i < a.len() && i < b.len()
        invariant
            i <= a.len(),
            i <= b.len(),
            lex_lt(a@, b@) == lex_lt(a@.subrange(i as int, a@.len() as int), b@.subrange(i as int, b@.len() as int)),
        decreases a.len() - i,
    {
        let ghost sa = a@.subrange(i as int, a@.len() as int);
        let ghost sb = b@.subrange(i as int, b@.len() as int);
        assert(sa.drop_first() == a@.subrange(i + 1, a@.len() as int));
        assert(sb.drop_first() == b@.subrange(i + 1, b@.len() as int));
        if a[i].0 != b[i].0 {
            return a[i].0 < b[i].0;
        }
        i += 1;
    }
    false
}

/// Whether assertion `a` is listed before assertion `b`.
pub fn precedes(a: &Assertion, b: &Assertion) -> (r: bool)
    ensures
        r == assertion_lt(a@, b@),
{
    match (a, b) {
        (Assertion::NEN(_), Assertion::NEB(_)) => true,
        (Assertion::NEB(_), Assertion::NEN(_)) => false,
        (Assertion::NEN(a), Assertion::NEN(b)) => {
            if a.continuing.len() != b.continuing.len() {
                a.continuing.len() < b.continuing.len()
            } else if a.winner.0 != b.winner.0 {
                a.winner.0 < b.winner.0
            } else if a.loser.0 != b.loser.0 {
                a.loser.0 < b.loser.0
            } else {
                lex_less(&a.continuing, &b.continuing)
            }
        },
        (Assertion::NEB(a), Assertion::NEB(b)) => {
            if a.winner.0 != b.winner.0 {
                a.winner.0 < b.winner.0
            } else {
                a.loser.0 < b.loser.0
            }
        },
    }
}

/// Put the records in the order of their assertions, keeping the relative order
/// of records whose assertions are equal.
pub fn sort_records(assertions: &mut Vec<AssertionAndDifficulty>)
    ensures
        final(assertions)@ == sorted_records(old(assertions)@),
        is_sorted(final(assertions)@),
        final(assertions)@.to_multiset() =~= old(assertions)@.to_multiset(),
{
    let ghost input = old(assertions)@;
    let mut sorted: Vec<AssertionAndDifficulty> = Vec::new();
    let mut k: usize = 0;
    let total = assertions.len();
    while assertions.len() > 0
        invariant
            k + assertions@.len() == total,
            total == input.len(),
            assertions@ == input.subrange(k as int, total as int),
            sorted@ == sorted_records(input.subrange(0, k as int)),
        decreases assertions@.len(),
    {
        let x = assertions.remove(0);
        proof {
            assert(input.subrange(0, k + 1).drop_last() == input.subrange(0, k as int));
            assert(input.subrange(0, k + 1).last() == x);
            assert(assertions@ == input.subrange(k + 1, total as int));
        }
        let mut p: usize = sorted.len();
        assert(sorted@.subrange(0, p as int) == sorted@);
        while p > 0 && precedes(&x.assertion, &sorted[p - 1].assertion)
            invariant
                p <= sorted.len(),
                insert_pos(sorted@, x) == insert_pos(sorted@.subrange(0, p as int), x),
            decreases p,
        {
            proof {
                assert(sorted@.subrange(0, p as int).drop_last() == sorted@.subrange(0, p - 1));
            }
            p -= 1;
        }
        sorted.insert(p, x);
        k += 1;
    }
    proof {
        assert(input.subrange(0, total as int) == input);
        lemma_sorted_records(input);
        lemma_sorted_records_reorders(input);
    }
    *assertions = sorted;
}

} // verus!
