//! The values that flow through a rating session: match outcomes and the
//! records built from them.

use vstd::prelude::*;

verus! {

/// The outcome of one comparison between the entities `a` and `b` of a match.
#[derive(Clone, Copy, Debug, PartialEq, Eq, Structural)]
pub enum MatchResult {
    AWin,
    BWin,
    Draw,
    BothLose,
}

/// The same outcome seen from the other side of the match.
pub open spec fn mirror_spec(r: MatchResult) -> MatchResult {
    match r {
        MatchResult::AWin => MatchResult::BWin,
        MatchResult::BWin => MatchResult::AWin,
        MatchResult::Draw => MatchResult::Draw,
        MatchResult::BothLose => MatchResult::BothLose,
    }
}

/// Score of side `a`, in half points: a win is two halves, a draw one, a loss none.
pub open spec fn score_a_spec(r: MatchResult) -> nat {
    match r {
        MatchResult::AWin => 2,
        MatchResult::BWin => 0,
        MatchResult::Draw => 1,
        MatchResult::BothLose => 0,
    }
}

/// Score of side `b`, in half points.
pub open spec fn score_b_spec(r: MatchResult) -> nat {
    score_a_spec(mirror_spec(r))
}

/// Mirroring a match's outcome swaps the scores of its two sides, and
/// mirroring twice gives the outcome back.
pub proof fn lemma_mirror_swaps_scores(r: MatchResult)
    ensures
        score_a_spec(mirror_spec(r)) == score_b_spec(r),
        score_b_spec(mirror_spec(r)) == score_a_spec(r),
        mirror_spec(mirror_spec(r)) == r,
{
}

/// `BothLose` scores each side strictly below what `Draw` scores it.
pub proof fn lemma_both_lose_below_draw()
    ensures
        score_a_spec(MatchResult::BothLose) < score_a_spec(MatchResult::Draw),
        score_b_spec(MatchResult::BothLose) < score_b_spec(MatchResult::Draw),
{
}

impl MatchResult {
    /// The outcome from the point of view of side `b`.
    pub fn mirror(&self) -> (r: MatchResult)
        ensures
            r == mirror_spec(*self),
    {
        match self {
            MatchResult::AWin => MatchResult::BWin,
            MatchResult::BWin => MatchResult::AWin,
            MatchResult::Draw => MatchResult::Draw,
            MatchResult::BothLose => MatchResult::BothLose,
        }
    }

    /// The scores of both sides in half points: `AWin` is (2, 0), `BWin` is
    /// (0, 2), `Draw` is (1, 1) and `BothLose` is (0, 0).
    pub fn scores(&self) -> (r: (u8, u8))
        ensures
            r.0 as nat == score_a_spec(*self),
            r.1 as nat == score_b_spec(*self),
    {
        match self {
            MatchResult::AWin => (2, 0),
            MatchResult::BWin => (0, 2),
            MatchResult::Draw => (1, 1),
            MatchResult::BothLose => (0, 0),
        }
    }
}

/// A judged comparison between the entities with ids `a` and `b`.
#[derive(Clone, Copy, Debug, PartialEq, Eq, Structural)]
pub struct Match {
    pub a: usize,
    pub b: usize,
    pub res: MatchResult,
}

impl Match {
    pub fn new(a: usize, b: usize, res: MatchResult) -> (r: Match)
        ensures
            r == (Match { a, b, res }),
    {
        Match { a, b, res }
    }

    /// Entity `id` is one of the two sides.
    pub open spec fn involves(&self, id: int) -> bool {
        self.a == id || self.b == id
    }

    /// Both ids are entities of a pool of `n` and they differ.
    pub open spec fn valid(&self, n: nat) -> bool {
        self.a < n && self.b < n && self.a != self.b
    }
}

/// One entry of an entity's recent battles: the opponent's id and the
/// outcome from the entity's own point of view (`AWin` means it won).
#[derive(Clone, Copy, Debug, PartialEq, Eq, Structural)]
pub struct Battle {
    pub oppo: usize,
    pub res: MatchResult,
}

impl Battle {
    pub fn new(oppo: usize, res: MatchResult) -> (r: Battle)
        ensures
            r == (Battle { oppo, res }),
    {
        Battle { oppo, res }
    }
}

} // verus!
