//! Round-robin tournament evaluation. Every individual battles every other;
//! a scoring policy turns battles into scores; the generation comes back
//! sorted best-first.

use vstd::prelude::*;
use vstd::arithmetic::mul::lemma_mul_inequality;
use vstd::multiset::Multiset;
use crate::individual::{Individual, IndividualResult, duel_points, lemma_duel_bounds};
use crate::sums::{seq_sum, lemma_sum_nonneg, lemma_sum_take_full};

verus! {

broadcast use vstd::seq_lib::group_to_multiset_ensures;

/// How battles turn into scores.
#[derive(Debug, Clone, Copy)]
pub enum Scoring {
    /// The strictly higher aggregate point total of a pairing earns its owner
    /// one win; an aggregate tie earns neither side anything.
    Wins,
    /// Each side of a pairing banks the points it won, with no comparison.
    Points,
}

/// The views of a population of individuals.
pub open spec fn population_views(inds: Seq<Individual>) -> Seq<Seq<u32>> {
    inds.map_values(|i: Individual| i@)
}

/// The views of a scored population.
pub open spec fn result_views(rs: Seq<IndividualResult>) -> Seq<(Seq<u32>, int)> {
    rs.map_values(|x: IndividualResult| x@)
}

/// What one pairing can add to a score at most.
pub open spec fn per_battle_max(pts: Seq<u32>, scoring: Scoring) -> int {
    match scoring {
        Scoring::Wins => 1,
        Scoring::Points => seq_sum(pts),
    }
}

/// The tournament score of the individual at position `k` against the first
/// `j` members of the population. The member at `k` itself contributes
/// nothing: a battle against oneself ties every castle.
pub open spec fn score_upto(
    pop: Seq<Seq<u32>>,
    k: int,
    pts: Seq<u32>,
    scoring: Scoring,
    j: int,
) -> int
    decreases j,
{
    if j <= 0 {
        0
    } else {
        score_upto(pop, k, pts, scoring, j - 1) + match scoring {
            Scoring::Wins => if duel_points(pop[k], pop[j - 1], pts) > duel_points(
                pop[j - 1],
                pop[k],
                pts,
            ) {
                1int
            } else {
                0int
            },
            Scoring::Points => duel_points(pop[k], pop[j - 1], pts),
        }
    }
}

/// The full round-robin score of the individual at position `k`.
pub open spec fn tournament_score(pop: Seq<Seq<u32>>, k: int, pts: Seq<u32>, scoring: Scoring) -> int {
    score_upto(pop, k, pts, scoring, pop.len() as int)
}

/// The population paired with its tournament scores, in input order.
pub open spec fn scored_results(pop: Seq<Seq<u32>>, pts: Seq<u32>, scoring: Scoring) -> Seq<
    (Seq<u32>, int),
> {
    Seq::new(pop.len(), |k: int| (pop[k], tournament_score(pop, k, pts, scoring)))
}

/// A score over `j` pairings stays between 0 and `j` times the most one
/// pairing can add.
pub proof fn lemma_score_upto_bound(
    pop: Seq<Seq<u32>>,
    k: int,
    pts: Seq<u32>,
    scoring: Scoring,
    j: int,
)
    requires
        j >= 0,
    ensures
        0 <= score_upto(pop, k, pts, scoring, j),
        score_upto(pop, k, pts, scoring, j) <= j * per_battle_max(pts, scoring),
    decreases j,
{
    let per = per_battle_max(pts, scoring);
    lemma_sum_nonneg(pts);
    if j == 0 {
        assert(0 * per == 0) by (nonlinear_arith);
    } else {
        lemma_score_upto_bound(pop, k, pts, scoring, j - 1);
        lemma_duel_bounds(pop[k], pop[j - 1], pts, pts.len() as int);
        lemma_sum_take_full(pts);
        assert((j - 1) * per + per == j * per) by (nonlinear_arith);
    }
}

/// Scores one individual against the whole population.
fn score_of(individuals: &Vec<Individual>, k: usize, castle_points: &[u32], scoring: Scoring) -> (s:
    u32)
    requires
        k < individuals@.len(),
        forall|i: int|
            0 <= i < individuals@.len() ==> #[trigger] individuals@[i]@.len()
                == castle_points@.len(),
        seq_sum(castle_points@) <= u32::MAX,
        individuals@.len() * per_battle_max(castle_points@, scoring) <= u32::MAX,
    ensures
        s == tournament_score(population_views(individuals@), k as int, castle_points@, scoring),
{
    let ghost pop = population_views(individuals@);
    let ghost pts = castle_points@;
    let ghost per = per_battle_max(castle_points@, scoring);
    let n = individuals.len();
    let mut s: u32 = 0;
    for j in 0..n
        invariant
            n == individuals@.len(),
            k < n,
            pop == population_views(individuals@),
            pts == castle_points@,
            per == per_battle_max(castle_points@, scoring),
            forall|i: int|
                0 <= i < individuals@.len() ==> #[trigger] individuals@[i]@.len()
                    == castle_points@.len(),
            seq_sum(castle_points@) <= u32::MAX,
            n * per <= u32::MAX,
            s == score_upto(pop, k as int, pts, scoring, j as int),
    {
        let (mine, theirs) = individuals[k].battle(&individuals[j], castle_points);
        proof {
            lemma_score_upto_bound(pop, k as int, pts, scoring, j + 1);
            lemma_sum_nonneg(pts);
            lemma_mul_inequality(j + 1, n as int, per);
        }
        match scoring {
            Scoring::Wins => {
                if mine > theirs {
                    s = s + 1;
                }
            },
            Scoring::Points => {
                s = s + mine;
            },
        }
    }
    s
}

/// Reorders a scored population so that scores never increase; the multiset
/// of scored individuals is untouched, so exactly tied scores keep no
/// particular order.
fn sort_results_desc(input: Vec<IndividualResult>) -> (r: Vec<IndividualResult>)
    ensures
        r@.len() == input@.len(),
        forall|k1: int, k2: int| 0 <= k1 < k2 < r@.len() ==> r@[k1].score >= r@[k2].score,
        result_views(r@).to_multiset() == result_views(input@).to_multiset(),
{
    let ghost total = result_views(input@).to_multiset();
    let mut work = input;
    let mut out: Vec<IndividualResult> = Vec::new();
    while work.len() > 0
        invariant
            forall|k1: int, k2: int| 0 <= k1 < k2 < out@.len() ==> out@[k1].score >= out@[k2].score,
            result_views(out@).to_multiset().add(result_views(work@).to_multiset()) == total,
            total == result_views(input@).to_multiset(),
        decreases work@.len(),
    {
        let ghost work_pre = work@;
        let x = work.remove(0);
        proof {
            assert(result_views(work@) =~= result_views(work_pre).remove(0));
            assert(result_views(work_pre)[0] == x@);
        }
        let mut p: usize = 0;
        while p < out.len() && out[p].score >= x.score
            invariant
                p <= out@.len(),
                forall|k: int| 0 <= k < p ==> out@[k].score >= x.score,
            decreases out@.len() - p,
        {
            p = p + 1;
        }
        let ghost out_pre = out@;
        out.insert(p, x);
        proof {
            assert(out@ == out_pre.insert(p as int, x));
            assert(result_views(out@) =~= result_views(out_pre).insert(p as int, x@));
            assert(result_views(out@).to_multiset().add(result_views(work@).to_multiset())
                =~= total);
            assert forall|k1: int, k2: int| 0 <= k1 < k2 < out@.len() implies out@[k1].score
                >= out@[k2].score by {
                if k2 < p {
                    assert(out@[k1] == out_pre[k1] && out@[k2] == out_pre[k2]);
                } else if k1 > p {
                    assert(out@[k1] == out_pre[k1 - 1] && out@[k2] == out_pre[k2 - 1]);
                } else if k1 == p {
                    assert(out@[k1] == x && out@[k2] == out_pre[k2 - 1]);
                    assert(p < out_pre.len());
                    assert(out_pre[p as int].score < x.score);
                    if k2 - 1 > p {
                        assert(out_pre[p as int].score >= out_pre[k2 - 1].score);
                    }
                } else if k2 == p {
                    assert(out@[k1] == out_pre[k1] && out@[k2] == x);
                } else {
                    assert(out@[k1] == out_pre[k1] && out@[k2] == out_pre[k2 - 1]);
                    if k2 - 1 > p {
                        assert(out_pre[p as int].score >= out_pre[k2 - 1].score);
                        assert(out_pre[k1].score >= x.score);
                        assert(out_pre[p as int].score < x.score);
                    }
                }
            }
        }
    }
    proof {
        assert(work@.len() == 0);
        assert(result_views(work@) =~= Seq::<(Seq<u32>, int)>::empty());
        assert(result_views(work@).to_multiset() =~= Multiset::<(Seq<u32>, int)>::empty());
        assert(result_views(out@).to_multiset() =~= total);
        assert(out@.len() == result_views(out@).len());
        assert(input@.len() == result_views(input@).len());
        assert(result_views(out@).to_multiset().len() == result_views(out@).len());
        assert(result_views(input@).to_multiset().len() == result_views(input@).len());
    }
    out
}

/// Every entry of an evaluated result set carries one of the population's
/// distributions: evaluation scores individuals, it never invents them.
pub proof fn lemma_result_element_origin(
    rs: Seq<IndividualResult>,
    pop: Seq<Seq<u32>>,
    pts: Seq<u32>,
    scoring: Scoring,
    k: int,
)
    requires
        result_views(rs).to_multiset() == scored_results(pop, pts, scoring).to_multiset(),
        0 <= k < rs.len(),
    ensures
        exists|j: int| 0 <= j < pop.len() && #[trigger] pop[j] == rs[k].details@,
{
    let a = result_views(rs);
    let b = scored_results(pop, pts, scoring);
    assert(a[k] == rs[k]@);
    assert(a.contains(a[k]));
    assert(a.to_multiset().count(a[k]) > 0);
    assert(b.to_multiset().count(a[k]) > 0);
    assert(b.contains(a[k]));
    let j = choose|j: int| 0 <= j < b.len() && b[j] == a[k];
    assert(b[j].0 == pop[j]);
    assert(pop[j] == rs[k].details@);
}

/// Scores the whole population by exhaustive round-robin battles and returns
/// it sorted by descending score: as a multiset the result is exactly the
/// input individuals paired with their tournament scores.
pub fn evaluate(individuals: Vec<Individual>, castle_points: &[u32], scoring: Scoring) -> (r: Vec<
    IndividualResult,
>)
    requires
        forall|i: int|
            0 <= i < individuals@.len() ==> #[trigger] individuals@[i]@.len()
                == castle_points@.len(),
        seq_sum(castle_points@) <= u32::MAX,
        individuals@.len() * per_battle_max(castle_points@, scoring) <= u32::MAX,
    ensures
        r@.len() == individuals@.len(),
        forall|k1: int, k2: int| 0 <= k1 < k2 < r@.len() ==> r@[k1].score >= r@[k2].score,
        result_views(r@).to_multiset() == scored_results(
            population_views(individuals@),
            castle_points@,
            scoring,
        ).to_multiset(),
{
    let ghost pop = population_views(individuals@);
    let n = individuals.len();
    let mut scored: Vec<IndividualResult> = Vec::new();
    for i in 0..n
        invariant
            n == individuals@.len(),
            pop == population_views(individuals@),
            forall|j: int|
                0 <= j < individuals@.len() ==> #[trigger] individuals@[j]@.len()
                    == castle_points@.len(),
            seq_sum(castle_points@) <= u32::MAX,
            individuals@.len() * per_battle_max(castle_points@, scoring) <= u32::MAX,
            scored@.len() == i,
            forall|k: int|
                0 <= k < i ==> #[trigger] scored@[k]@ == (pop[k], tournament_score(
                    pop,
                    k,
                    castle_points@,
                    scoring,
                )),
    {
        let s = score_of(&individuals, i, castle_points, scoring);
        let details = individuals[i].clone();
        scored.push(IndividualResult { details, score: s });
    }
    proof {
        assert(result_views(scored@) =~= scored_results(pop, castle_points@, scoring));
    }
    sort_results_desc(scored)
}

} // verus!
