//! Evaluation of assertions against the end of an elimination order.

use vstd::prelude::*;
use crate::irv::CandidateIndex;
use vstd::slice::slice_subrange;

verus! {

/// The claim that `winner` is never eliminated before `loser`.
#[derive(Clone, Copy, Debug, PartialEq, Eq, Structural)]
pub struct NotEliminatedBefore {
    pub winner: CandidateIndex,
    pub loser: CandidateIndex,
}

/// The claim that, when exactly the candidates in `continuing` remain,
/// `winner` has more votes than `loser` and so is not the next one eliminated.
#[derive(Clone, Debug)]
pub struct NotEliminatedNext {
    pub winner: CandidateIndex,
    pub loser: CandidateIndex,
    pub continuing: Vec<CandidateIndex>,
}

/// One step of an audit's proof.
#[derive(Clone, Debug)]
pub enum Assertion {
    NEB(NotEliminatedBefore),
    NEN(NotEliminatedNext),
}

/// An assertion with the audit metadata that travels with it.
#[derive(Clone, Debug)]
pub struct AssertionAndDifficulty {
    pub assertion: Assertion,
    pub difficulty: u64,
    pub margin: u32,
}

/// What an assertion says of the orders that end with a given suffix.
#[derive(Clone, Copy, Debug, PartialEq, Eq, Structural)]
pub enum EffectOfAssertionOnEliminationOrderSuffix {
    /// Every such order is ruled out.
    Contradiction,
    /// No such order is ruled out.
    Consistent,
    /// Some are and some are not: a longer suffix is needed to tell.
    NeedsMoreDetail,
}

/// The mathematical content of an assertion.
pub ghost enum AssertionView {
    NEB { winner: CandidateIndex, loser: CandidateIndex },
    NEN { winner: CandidateIndex, loser: CandidateIndex, continuing: Seq<CandidateIndex> },
}

impl View for Assertion {
    type V = AssertionView;

    open spec fn view(&self) -> AssertionView {
        match self {
            Assertion::NEB(a) => AssertionView::NEB { winner: a.winner, loser: a.loser },
            Assertion::NEN(a) => AssertionView::NEN {
                winner: a.winner,
                loser: a.loser,
                continuing: a.continuing@,
            },
        }
    }
}

/// An elimination order suffix lists candidates from the earliest eliminated to
/// the last one standing. Scanning from the end, the first of the two that is met
/// outlasts the other.
pub open spec fn neb_effect(
    winner: CandidateIndex,
    loser: CandidateIndex,
    suffix: Seq<CandidateIndex>,
) -> EffectOfAssertionOnEliminationOrderSuffix
    decreases suffix.len(),
{
    if suffix.len() == 0 {
        EffectOfAssertionOnEliminationOrderSuffix::NeedsMoreDetail
    } else if suffix.last() == winner {
        EffectOfAssertionOnEliminationOrderSuffix::Consistent
    } else if suffix.last() == loser {
        EffectOfAssertionOnEliminationOrderSuffix::Contradiction
    } else {
        neb_effect(winner, loser, suffix.drop_last())
    }
}

/// Whether every candidate of `s` is in `continuing`.
pub open spec fn all_continuing(s: Seq<CandidateIndex>, continuing: Seq<CandidateIndex>) -> bool {
    forall|i: int| 0 <= i < s.len() ==> continuing.contains(#[trigger] s[i])
}

/// The last `continuing.len()` candidates of the suffix are those that remain when
/// exactly that many are left; the first of them is the next one eliminated.
pub open spec fn nen_effect(
    winner: CandidateIndex,
    continuing: Seq<CandidateIndex>,
    suffix: Seq<CandidateIndex>,
) -> EffectOfAssertionOnEliminationOrderSuffix {
    let k = continuing.len();
    if suffix.len() < k {
        if all_continuing(suffix, continuing) {
            EffectOfAssertionOnEliminationOrderSuffix::NeedsMoreDetail
        } else {
            EffectOfAssertionOnEliminationOrderSuffix::Consistent
        }
    } else {
        let last_k = suffix.subrange(suffix.len() - k, suffix.len() as int);
        if k > 0 && all_continuing(last_k, continuing) && last_k[0] == winner {
            EffectOfAssertionOnEliminationOrderSuffix::Contradiction
        } else {
            EffectOfAssertionOnEliminationOrderSuffix::Consistent
        }
    }
}

/// What assertion `a` says of the orders ending with `suffix`.
pub open spec fn effect_of(a: AssertionView, suffix: Seq<CandidateIndex>) -> EffectOfAssertionOnEliminationOrderSuffix {
    match a {
        AssertionView::NEB { winner, loser } => neb_effect(winner, loser, suffix),
        AssertionView::NEN { winner, continuing, .. } => nen_effect(winner, continuing, suffix),
    }
}

pub(crate) fn contains_candidate(s: &[CandidateIndex], c: CandidateIndex) -> (r: bool)
    ensures
        r == s@.contains(c),
{
    let mut i: usize = 0;
    while i < s.len()
        invariant
            0 <= i <= s.len(),
            forall|j: int| 0 <= j < i ==> s@[j] != c,
        decreases s.len() - i,
    {
        if s[i] == c {
            return true;
        }
        i += 1;
    }
    false
}

fn all_in(s: &[CandidateIndex], continuing: &[CandidateIndex]) -> (r: bool)
    ensures
        r == all_continuing(s@, continuing@),
{
    let mut i: usize = 0;
    while i < s.len()
        invariant
            0 <= i <= s.len(),
            all_continuing(s@.subrange(0, i as int), continuing@),
        decreases s.len() - i,
    {
        if !contains_candidate(continuing, s[i]) {
            return false;
        }
        proof {
            assert(s@.subrange(0, i + 1) =~= s@.subrange(0, i as int).push(s@[i as int]));
        }
        i += 1;
    }
    proof {
        assert(s@.subrange(0, s@.len() as int) =~= s@);
    }
    true
}

impl NotEliminatedBefore {
    pub fn ok_elimination_order_suffix(&self, elimination_order_suffix: &[CandidateIndex]) -> (r:
        EffectOfAssertionOnEliminationOrderSuffix)
        ensures
            r == neb_effect(self.winner, self.loser, elimination_order_suffix@),
    {
        let s = elimination_order_suffix;
        let mut i: usize = s.len();
        assert(s@.subrange(0, i as int) =~= s@);
        while i > 0
            invariant
                i <= s.len(),
                s@ == elimination_order_suffix@,
                neb_effect(self.winner, self.loser, s@) == neb_effect(
                    self.winner,
                    self.loser,
                    s@.subrange(0, i as int),
                ),
            decreases i,
        {
            proof {
                assert(s@.subrange(0, i as int).drop_last() =~= s@.subrange(0, i - 1));
                assert(s@.subrange(0, i as int).last() == s@[i - 1]);
            }
            let c = s[i - 1];
            if c.0 == self.winner.0 {
                assert(c == self.winner);
                return EffectOfAssertionOnEliminationOrderSuffix::Consistent;
            }
            if c.0 == self.loser.0 {
                assert(c == self.loser);
                return EffectOfAssertionOnEliminationOrderSuffix::Contradiction;
            }
            i -= 1;
        }
        EffectOfAssertionOnEliminationOrderSuffix::NeedsMoreDetail
    }
}

impl NotEliminatedNext {
    pub fn ok_elimination_order_suffix(&self, elimination_order_suffix: &[CandidateIndex]) -> (r:
        EffectOfAssertionOnEliminationOrderSuffix)
        ensures
            r == nen_effect(self.winner, self.continuing@, elimination_order_suffix@),
    {
        let s = elimination_order_suffix;
        let k = self.continuing.len();
        if s.len() < k {
            if all_in(s, self.continuing.as_slice()) {
                EffectOfAssertionOnEliminationOrderSuffix::NeedsMoreDetail
            } else {
                EffectOfAssertionOnEliminationOrderSuffix::Consistent
            }
        } else {
            let last_k = slice_subrange(s, s.len() - k, s.len());
            if k > 0 && all_in(last_k, self.continuing.as_slice()) && last_k[0] == self.winner {
                EffectOfAssertionOnEliminationOrderSuffix::Contradiction
            } else {
                EffectOfAssertionOnEliminationOrderSuffix::Consistent
            }
        }
    }
}

impl Assertion {
    /// What this assertion says of the orders that end with the given suffix.
    pub fn ok_elimination_order_suffix(&self, elimination_order_suffix: &[CandidateIndex]) -> (r:
        EffectOfAssertionOnEliminationOrderSuffix)
        ensures
            r == effect_of(self@, elimination_order_suffix@),
    {
        match self {
            Assertion::NEB(a) => a.ok_elimination_order_suffix(elimination_order_suffix),
            Assertion::NEN(a) => a.ok_elimination_order_suffix(elimination_order_suffix),
        }
    }

    /// A copy with the same content.
    pub fn duplicate(&self) -> (r: Assertion)
        ensures
            r@ == self@,
    {
        match self {
            Assertion::NEB(a) => Assertion::NEB(*a),
            Assertion::NEN(a) => {
                let mut continuing: Vec<CandidateIndex> = Vec::new();
                let mut i: usize = 0;
                while i < a.continuing.len()
                    invariant
                        0 <= i <= a.continuing.len(),
                        continuing@ =~= a.continuing@.subrange(0, i as int),
                    decreases a.continuing.len() - i,
                {
                    continuing.push(a.continuing[i]);
                    i += 1;
                }
                assert(continuing@ =~= a.continuing@);
                Assertion::NEN(NotEliminatedNext { winner: a.winner, loser: a.loser, continuing })
            },
        }
    }
}

} // verus!
