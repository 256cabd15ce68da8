//! Strategies and their battles. An individual is one soldier distribution;
//! a battle compares two distributions castle by castle, awarding each
//! castle's points to the strictly greater count.

use vstd::prelude::*;
use crate::sums::{seq_sum, lemma_sum_take_step, lemma_sum_take_le};

verus! {

/// One candidate strategy: a soldier count per castle.
#[derive(Debug, PartialEq, Eq)]
pub struct Individual {
    pub soldier_distribution: Vec<u32>,
}

impl View for Individual {
    type V = Seq<u32>;

    open spec fn view(&self) -> Seq<u32> {
        self.soldier_distribution@
    }
}

impl Clone for Individual {
    fn clone(&self) -> (r: Self)
        ensures
            r@ == self@,
    {
        let r = Individual { soldier_distribution: self.soldier_distribution.clone() };
        proof {
            assert(r@ =~= self@);
        }
        r
    }
}

/// An individual together with the score one tournament gave it.
#[derive(Debug, PartialEq, Eq)]
pub struct IndividualResult {
    pub details: Individual,
    pub score: u32,
}

impl View for IndividualResult {
    type V = (Seq<u32>, int);

    open spec fn view(&self) -> (Seq<u32>, int) {
        (self.details@, self.score as int)
    }
}

impl Clone for IndividualResult {
    fn clone(&self) -> (r: Self)
        ensures
            r@ == self@,
    {
        IndividualResult { details: self.details.clone(), score: self.score }
    }
}

/// The points `a` takes from `b` over the first `i` castles: at each castle
/// the strictly greater soldier count wins that castle's point value, an
/// equal count wins for neither side.
pub open spec fn duel_points_upto(a: Seq<u32>, b: Seq<u32>, pts: Seq<u32>, i: int) -> int
    decreases i,
{
    if i <= 0 {
        0
    } else {
        duel_points_upto(a, b, pts, i - 1) + if a[i - 1] > b[i - 1] {
            pts[i - 1] as int
        } else {
            0
        }
    }
}

/// The points `a` takes from `b` over all castles.
pub open spec fn duel_points(a: Seq<u32>, b: Seq<u32>, pts: Seq<u32>) -> int {
    duel_points_upto(a, b, pts, pts.len() as int)
}

/// The two sides' winnings are disjoint shares of the castle points on the
/// table, so each side's total is bounded by the points seen so far.
pub proof fn lemma_duel_bounds(a: Seq<u32>, b: Seq<u32>, pts: Seq<u32>, i: int)
    requires
        0 <= i <= pts.len(),
    ensures
        duel_points_upto(a, b, pts, i) >= 0,
        duel_points_upto(b, a, pts, i) >= 0,
        duel_points_upto(a, b, pts, i) + duel_points_upto(b, a, pts, i) <= seq_sum(pts.take(i)),
    decreases i,
{
    if i > 0 {
        lemma_duel_bounds(a, b, pts, i - 1);
        lemma_sum_take_step(pts, i - 1);
    }
}

/// A duel of a distribution against itself awards nothing to either side.
pub proof fn lemma_duel_self_zero(a: Seq<u32>, pts: Seq<u32>, i: int)
    ensures
        duel_points_upto(a, a, pts, i) == 0,
    decreases i,
{
    if i > 0 {
        lemma_duel_self_zero(a, pts, i - 1);
    }
}

impl Individual {
    /// Fights one battle: per castle, the strictly greater count wins the
    /// castle's points; returns `(own points, other's points)`.
    pub fn battle(&self, other: &Individual, castle_points: &[u32]) -> (r: (u32, u32))
        requires
            self@.len() == castle_points@.len(),
            other@.len() == castle_points@.len(),
            seq_sum(castle_points@) <= u32::MAX,
        ensures
            r.0 == duel_points(self@, other@, castle_points@),
            r.1 == duel_points(other@, self@, castle_points@),
    {
        let n = castle_points.len();
        let mut score: u32 = 0;
        let mut o_score: u32 = 0;
        for i in 0..n
            invariant
                n == castle_points@.len(),
                self@.len() == n,
                other@.len() == n,
                seq_sum(castle_points@) <= u32::MAX,
                score == duel_points_upto(self@, other@, castle_points@, i as int),
                o_score == duel_points_upto(other@, self@, castle_points@, i as int),
        {
            proof {
                lemma_duel_bounds(self@, other@, castle_points@, i as int);
                lemma_sum_take_step(castle_points@, i as int);
                lemma_sum_take_le(castle_points@, i + 1);
            }
            let pts = castle_points[i];
            if self.soldier_distribution[i] > other.soldier_distribution[i] {
                score = score + pts;
            } else if self.soldier_distribution[i] < other.soldier_distribution[i] {
                o_score = o_score + pts;
            }
        }
        (score, o_score)
    }
}

/// Lays a sorted result set out flat for transport across a host boundary:
/// each individual's castle counts in order, followed by its score.
pub open spec fn flatten_spec(rs: Seq<IndividualResult>) -> Seq<u32>
    decreases rs.len(),
{
    if rs.len() == 0 {
        Seq::empty()
    } else {
        flatten_spec(rs.drop_last()) + rs.last().details@ + seq![rs.last().score]
    }
}

/// Flattens results into one numeric row per individual, score last.
pub fn flatten_for_wasm(results: &[IndividualResult]) -> (r: Vec<u32>)
    ensures
        r@ == flatten_spec(results@),
{
    let mut output: Vec<u32> = Vec::new();
    let n = results.len();
    for i in 0..n
        invariant
            n == results@.len(),
            output@ == flatten_spec(results@.take(i as int)),
    {
        let ghost pre = output@;
        let row = &results[i];
        let m = row.details.soldier_distribution.len();
        for j in 0..m
            invariant
                n == results@.len(),
                i < n,
                m == row.details@.len(),
                row == results@[i as int],
                output@ == pre + row.details@.take(j as int),
        {
            output.push(row.details.soldier_distribution[j]);
            proof {
                assert(pre + row.details@.take(j as int) + seq![row.details@[j as int]]
                    =~= pre + row.details@.take(j + 1));
            }
        }
        output.push(row.score);
        proof {
            assert(row.details@.take(m as int) =~= row.details@);
            assert(results@.take(i + 1).drop_last() =~= results@.take(i as int));
            assert(results@.take(i + 1).last() == results@[i as int]);
            assert(flatten_spec(results@.take(i + 1)) =~= pre + row.details@ + seq![
                row.score,
            ]);
        }
    }
    proof {
        assert(results@.take(n as int) =~= results@);
    }
    output
}

} // verus!
