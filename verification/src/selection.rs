//! Fitness-proportionate (roulette) selection over a scored generation.
//! Zero-score individuals can never be drawn, so the roulette table skips
//! them; if every score is zero, selection falls back to a uniform draw over
//! the whole generation.

use vstd::prelude::*;
use crate::individual::IndividualResult;
use crate::rng::rand_u64;

verus! {

/// The scores of the first `i` individuals, summed in generation order.
pub open spec fn total_score_upto(gen: Seq<IndividualResult>, i: int) -> int
    decreases i,
{
    if i <= 0 {
        0
    } else {
        total_score_upto(gen, i - 1) + gen[i - 1].score
    }
}

/// The total score of a generation.
pub open spec fn total_score(gen: Seq<IndividualResult>) -> int {
    total_score_upto(gen, gen.len() as int)
}

/// The roulette table over the first `i` individuals: one entry per
/// individual with a strictly positive score, in order, pairing the running
/// score total with the individual's position in the generation.
pub open spec fn roulette_table(gen: Seq<IndividualResult>, i: int) -> Seq<(int, int)>
    decreases i,
{
    if i <= 0 {
        Seq::empty()
    } else {
        let rest = roulette_table(gen, i - 1);
        if gen[i - 1].score == 0 {
            rest
        } else {
            rest.push((total_score_upto(gen, i), i - 1))
        }
    }
}

/// Whether `tab` is the executable image of the generation's roulette table.
pub open spec fn matches_roulette_table(gen: Seq<IndividualResult>, tab: Seq<(u64, usize)>) -> bool {
    let spec_tab = roulette_table(gen, gen.len() as int);
    &&& tab.len() == spec_tab.len()
    &&& forall|k: int|
        0 <= k < tab.len() ==> #[trigger] tab[k].0 == spec_tab[k].0 && tab[k].1 == spec_tab[k].1
}

pub proof fn lemma_total_score_nonneg(gen: Seq<IndividualResult>, i: int)
    ensures
        total_score_upto(gen, i) >= 0,
    decreases i,
{
    if i > 0 {
        lemma_total_score_nonneg(gen, i - 1);
    }
}

/// What each roulette-table entry says: a valid position with a positive
/// score, running totals that strictly increase from at least 1, and the last
/// running total equal to the generation's whole score.
pub proof fn lemma_roulette_table_props(gen: Seq<IndividualResult>, i: int)
    requires
        0 <= i <= gen.len(),
    ensures
        forall|k: int|
            0 <= k < roulette_table(gen, i).len() ==> {
                let e = #[trigger] roulette_table(gen, i)[k];
                &&& 0 <= e.1 < i
                &&& gen[e.1].score > 0
                &&& e.0 == total_score_upto(gen, e.1 + 1)
                &&& e.0 >= 1
            },
        forall|k1: int, k2: int|
            0 <= k1 < k2 < roulette_table(gen, i).len() ==> roulette_table(gen, i)[k1].0
                < roulette_table(gen, i)[k2].0 && roulette_table(gen, i)[k1].1 < roulette_table(
                gen,
                i,
            )[k2].1,
        roulette_table(gen, i).len() > 0 ==> roulette_table(gen, i).last().0 == total_score_upto(
            gen,
            i,
        ),
        roulette_table(gen, i).len() == 0 ==> total_score_upto(gen, i) == 0,
    decreases i,
{
    if i > 0 {
        lemma_roulette_table_props(gen, i - 1);
        lemma_total_score_nonneg(gen, i - 1);
    }
}

/// Builds the roulette table: a prefix-sum scan over the strictly positive
/// scores, remembering each scorer's position.
pub fn cumulative_scores(previous_generation: &Vec<IndividualResult>) -> (r: Vec<(u64, usize)>)
    requires
        previous_generation@.len() <= u32::MAX,
    ensures
        matches_roulette_table(previous_generation@, r@),
{
    let n = previous_generation.len();
    let mut table: Vec<(u64, usize)> = Vec::new();
    let mut acc: u64 = 0;
    for i in 0..n
        invariant
            n == previous_generation@.len(),
            n <= u32::MAX,
            acc == total_score_upto(previous_generation@, i as int),
            acc <= (i as int) * (u32::MAX as int),
            table@.len() == roulette_table(previous_generation@, i as int).len(),
            forall|k: int|
                0 <= k < table@.len() ==> #[trigger] table@[k].0 == roulette_table(
                    previous_generation@,
                    i as int,
                )[k].0 && table@[k].1 == roulette_table(previous_generation@, i as int)[k].1,
    {
        let score = previous_generation[i].score;
        proof {
            lemma_total_score_nonneg(previous_generation@, i as int);
        }
        acc = acc + score as u64;
        if score != 0 {
            table.push((acc, i));
        }
        proof {
            let gen = previous_generation@;
            assert(roulette_table(gen, i + 1) == if gen[i as int].score == 0 {
                roulette_table(gen, i as int)
            } else {
                roulette_table(gen, i as int).push((total_score_upto(gen, i + 1), i as int))
            });
        }
    }
    table
}

/// Draws one parent's position. With a non-empty roulette table the draw is
/// weighted by score: a uniform lot in `1..=total` falls to the first entry
/// whose running total reaches it, so an individual owns a slice of lots
/// equal to its score and a zero scorer owns none. With an empty table (a
/// perfect zero tie) the draw is uniform over the whole generation.
pub fn roulette_select(
    previous_generation: &Vec<IndividualResult>,
    cumulative_sum: &Vec<(u64, usize)>,
    rng: &mut rand::rngs::ThreadRng,
) -> (r: usize)
    requires
        previous_generation@.len() >= 1,
        previous_generation@.len() <= u32::MAX,
        matches_roulette_table(previous_generation@, cumulative_sum@),
    ensures
        r < previous_generation@.len(),
        cumulative_sum@.len() > 0 ==> previous_generation@[r as int].score > 0,
        cumulative_sum@.len() > 0 ==> exists|k: int|
            0 <= k < cumulative_sum@.len() && #[trigger] cumulative_sum@[k].1 == r,
{
    proof {
        lemma_roulette_table_props(previous_generation@, previous_generation@.len() as int);
    }
    let m = cumulative_sum.len();
    if m == 0 {
        // All individuals are perfectly tied at zero fitness.
        return rand_u64(rng, 0, (previous_generation.len() - 1) as u64) as usize;
    }
    proof {
        let spec_tab = roulette_table(previous_generation@, previous_generation@.len() as int);
        assert forall|k1: int, k2: int| 0 <= k1 < k2 < m implies cumulative_sum@[k1].0
            < cumulative_sum@[k2].0 by {
            assert(cumulative_sum@[k1].0 == spec_tab[k1].0);
            assert(cumulative_sum@[k2].0 == spec_tab[k2].0);
            assert(spec_tab[k1].0 < spec_tab[k2].0);
        }
    }
    let total = cumulative_sum[m - 1].0;
    let p = rand_u64(rng, 1, total);
    // The first table entry whose running total reaches the lot.
    let mut lo: usize = 0;
    let mut hi: usize = m - 1;
    while lo < hi
        invariant
            m == cumulative_sum@.len(),
            lo <= hi < m,
            forall|k1: int, k2: int|
                0 <= k1 < k2 < m ==> cumulative_sum@[k1].0 < cumulative_sum@[k2].0,
            forall|k: int| 0 <= k < lo ==> #[trigger] cumulative_sum@[k].0 < p,
            forall|k: int| hi <= k < m ==> #[trigger] cumulative_sum@[k].0 >= p,
        decreases hi - lo,
    {
        let mid = lo + (hi - lo) / 2;
        if cumulative_sum[mid].0 >= p {
            hi = mid;
            proof {
                assert forall|k: int| hi <= k < m implies #[trigger] cumulative_sum@[k].0 >= p by {
                    if k > mid {
                        assert(cumulative_sum@[mid as int].0 < cumulative_sum@[k].0);
                    }
                }
            }
        } else {
            lo = mid + 1;
            proof {
                assert forall|k: int| 0 <= k < lo implies #[trigger] cumulative_sum@[k].0 < p by {
                    if k < mid {
                        assert(cumulative_sum@[k].0 < cumulative_sum@[mid as int].0);
                    }
                }
            }
        }
    }
    let chosen = cumulative_sum[lo].1;
    proof {
        let spec_tab = roulette_table(previous_generation@, previous_generation@.len() as int);
        assert(cumulative_sum@[lo as int].1 == spec_tab[lo as int].1);
        assert(0 <= spec_tab[lo as int].1 < previous_generation@.len());
        assert(previous_generation@[spec_tab[lo as int].1].score > 0);
        assert(cumulative_sum@[lo as int].1 == chosen);
    }
    chosen
}

} // verus!
