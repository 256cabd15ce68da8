//! Variation operators: crossover of two parents and the two mutation
//! policies. Every operator conserves the soldier total exactly.

use vstd::prelude::*;
use crate::individual::Individual;
use crate::rng::rand_u64;
use crate::sums::{
    seq_sum, lemma_sum_push, lemma_sum_nonneg, lemma_sum_take_step, lemma_sum_take_full,
    lemma_sum_take_le, lemma_sum_update, lemma_elem_le_sum, lemma_two_elems_le_sum,
};
use crate::util::{random_sample, lemma_ascending_gap};

verus! {

/// Combines two parents of one common soldier total into a child with the
/// same total: per castle the child gets the rounded-down average of the two
/// parents' counts, and the units lost to rounding (always an even number)
/// are restored by giving one extra unit to a uniformly random half of the
/// rounded-down castles.
pub fn crossover(p1: &Individual, p2: &Individual, rng: &mut rand::rngs::ThreadRng) -> (r:
    Individual)
    requires
        p1@.len() == p2@.len(),
        seq_sum(p1@) == seq_sum(p2@),
        seq_sum(p1@) <= u32::MAX,
    ensures
        r@.len() == p1@.len(),
        seq_sum(r@) == seq_sum(p1@),
        forall|c: int|
            0 <= c < p1@.len() && (p1@[c] + p2@[c]) % 2 == 0 ==> r@[c] == (p1@[c] + p2@[c]) / 2,
        forall|c: int|
            0 <= c < p1@.len() && (p1@[c] + p2@[c]) % 2 == 1 ==> (r@[c] == (p1@[c] + p2@[c]) / 2
                || r@[c] == (p1@[c] + p2@[c]) / 2 + 1),
{
    let n = p1.soldier_distribution.len();
    let mut dist: Vec<u32> = Vec::new();
    // Castle indices whose parent counts summed odd, in ascending order.
    let mut rounded_down: Vec<usize> = Vec::new();
    for i in 0..n
        invariant
            n == p1@.len(),
            n == p2@.len(),
            seq_sum(p1@) == seq_sum(p2@),
            seq_sum(p1@) <= u32::MAX,
            dist@.len() == i,
            forall|c: int| 0 <= c < i ==> #[trigger] dist@[c] == (p1@[c] + p2@[c]) / 2,
            forall|j: int|
                0 <= j < rounded_down@.len() ==> #[trigger] rounded_down@[j] < i
                    && (p1@[rounded_down@[j] as int] + p2@[rounded_down@[j] as int]) % 2 == 1,
            forall|j1: int, j2: int|
                0 <= j1 < j2 < rounded_down@.len() ==> rounded_down@[j1] < rounded_down@[j2],
            2 * seq_sum(dist@) + rounded_down@.len() == seq_sum(p1@.take(i as int)) + seq_sum(
                p2@.take(i as int),
            ),
    {
        proof {
            lemma_elem_le_sum(p1@, i as int);
            lemma_elem_le_sum(p2@, i as int);
            lemma_sum_take_step(p1@, i as int);
            lemma_sum_take_step(p2@, i as int);
        }
        let ghost pre = dist@;
        let a = p1.soldier_distribution[i];
        let b = p2.soldier_distribution[i];
        let pair_total = a as u64 + b as u64;
        dist.push((pair_total / 2) as u32);
        proof {
            lemma_sum_push(pre, (pair_total / 2) as u32);
        }
        if pair_total % 2 != 0 {
            rounded_down.push(i);
        }
    }
    proof {
        lemma_sum_take_full(p1@);
        lemma_sum_take_full(p2@);
        lemma_sum_nonneg(dist@);
    }
    let ghost base = dist@;
    // An even number of castles lost half a unit each; hand the lost units to
    // a uniform half of them, at most one each.
    let n_odd = rounded_down.len();
    let to_bump = n_odd / 2;
    let picks = random_sample(n_odd as u64, to_bump, rng);
    let ghost mut frontier: int = 0;
    for k in 0..to_bump
        invariant
            n == p1@.len(),
            n == p2@.len(),
            seq_sum(p1@) == seq_sum(p2@),
            seq_sum(p1@) <= u32::MAX,
            n_odd == rounded_down@.len(),
            2 * to_bump == n_odd,
            2 * seq_sum(base) + n_odd == 2 * seq_sum(p1@),
            forall|c: int| 0 <= c < n ==> #[trigger] base[c] == (p1@[c] + p2@[c]) / 2,
            forall|j: int|
                0 <= j < n_odd ==> #[trigger] rounded_down@[j] < n
                    && (p1@[rounded_down@[j] as int] + p2@[rounded_down@[j] as int]) % 2 == 1,
            forall|j1: int, j2: int|
                0 <= j1 < j2 < n_odd ==> rounded_down@[j1] < rounded_down@[j2],
            picks@.len() == to_bump,
            forall|j: int| 0 <= j < to_bump ==> #[trigger] picks@[j] < n_odd,
            forall|j1: int, j2: int| 0 <= j1 < j2 < to_bump ==> picks@[j1] < picks@[j2],
            dist@.len() == n,
            seq_sum(dist@) == seq_sum(base) + k,
            forall|c: int|
                0 <= c < n ==> (#[trigger] dist@[c] == base[c] || ((p1@[c] + p2@[c]) % 2 == 1
                    && dist@[c] == base[c] + 1)),
            0 <= frontier,
            k > 0 ==> frontier == rounded_down@[picks@[k - 1] as int] + 1,
            k == 0 ==> frontier == 0,
            forall|c: int| frontier <= c < n ==> #[trigger] dist@[c] == base[c],
    {
        let pos = picks[k] as usize;
        let castle = rounded_down[pos];
        proof {
            if k > 0 {
                assert(picks@[k - 1] < picks@[k as int]);
                assert(rounded_down@[picks@[k - 1] as int]
                    < rounded_down@[picks@[k as int] as int]);
            }
            assert(dist@[castle as int] == base[castle as int]);
            lemma_elem_le_sum(p1@, castle as int);
            lemma_elem_le_sum(p2@, castle as int);
        }
        let ghost pre = dist@;
        let cur = dist[castle];
        dist.set(castle, cur + 1);
        proof {
            lemma_sum_update(pre, castle as int, (cur + 1) as u32);
            frontier = castle + 1;
        }
    }
    Individual { soldier_distribution: dist }
}

/// Budgeted redistribution: `floor(num_soldiers * rate)` soldiers — the rate
/// given as the fraction `rate_numer / rate_denom` of the total — are drawn
/// uniformly without replacement, each leaves the castle currently holding
/// it, and each then lands on an independently uniform castle (possibly the
/// one it left). The soldier total is conserved exactly; a zero rate is a
/// no-op.
pub fn mutate(
    individual: &mut Individual,
    num_soldiers: u32,
    rate_numer: u32,
    rate_denom: u32,
    rng: &mut rand::rngs::ThreadRng,
)
    requires
        seq_sum(old(individual)@) == num_soldiers,
        rate_numer <= rate_denom,
        rate_denom >= 1,
    ensures
        final(individual)@.len() == old(individual)@.len(),
        seq_sum(final(individual)@) == num_soldiers,
        rate_numer == 0 ==> final(individual)@ == old(individual)@,
{
    proof {
        assert(num_soldiers as int * rate_numer as int <= u64::MAX) by (nonlinear_arith)
            requires
                num_soldiers <= u32::MAX,
                rate_numer <= u32::MAX,
        ;
    }
    let budget = num_soldiers as u64 * rate_numer as u64 / rate_denom as u64;
    proof {
        assert(budget <= num_soldiers && (rate_numer == 0 ==> budget == 0)) by (nonlinear_arith)
            requires
                rate_numer <= rate_denom,
                rate_denom >= 1,
                budget == num_soldiers as int * rate_numer as int / rate_denom as int,
        ;
    }
    let num_move = budget as usize;
    // Number the soldiers by the castle holding them, in castle order, and
    // draw the soldiers to displace as a uniform subset.
    let picks = random_sample(num_soldiers as u64, num_move, rng);
    let n = individual.soldier_distribution.len();
    let ghost dist0 = individual@;
    let mut j: usize = 0;  // displaced soldiers accounted for so far
    let mut boundary: u64 = 0;  // soldiers held by the castles walked so far
    for c in 0..n
        invariant
            num_move <= num_soldiers,
            picks@.len() == num_move,
            forall|idx: int| 0 <= idx < num_move ==> #[trigger] picks@[idx] < num_soldiers,
            forall|i1: int, i2: int| 0 <= i1 < i2 < num_move ==> picks@[i1] < picks@[i2],
            n == dist0.len(),
            seq_sum(dist0) == num_soldiers,
            individual@.len() == n,
            j <= num_move,
            boundary == seq_sum(dist0.take(c as int)),
            boundary <= num_soldiers,
            forall|idx: int| 0 <= idx < j ==> #[trigger] picks@[idx] < boundary,
            forall|idx: int| j <= idx < num_move ==> #[trigger] picks@[idx] >= boundary,
            forall|cc: int| c <= cc < n ==> individual@[cc] == dist0[cc],
            seq_sum(individual@) == num_soldiers - j,
            num_move == 0 ==> individual@ == dist0,
    {
        proof {
            lemma_sum_take_step(dist0, c as int);
            lemma_sum_take_le(dist0, c + 1);
        }
        let cnt_before = j;
        let ghost b0 = boundary;
        proof {
            if cnt_before < num_move {
                assert(picks@[cnt_before as int] >= b0);
            }
        }
        boundary = boundary + individual.soldier_distribution[c] as u64;
        while j < num_move && picks[j] < boundary
            invariant
                picks@.len() == num_move,
                forall|i1: int, i2: int| 0 <= i1 < i2 < num_move ==> picks@[i1] < picks@[i2],
                cnt_before <= j <= num_move,
                forall|idx: int| 0 <= idx < j ==> #[trigger] picks@[idx] < boundary,
            decreases num_move - j,
        {
            j = j + 1;
        }
        proof {
            assert forall|idx: int| j <= idx < num_move implies #[trigger] picks@[idx]
                >= boundary by {
                if idx > j {
                    assert(picks@[j as int] < picks@[idx]);
                }
            }
        }
        let taken = j - cnt_before;
        if taken > 0 {
            proof {
                lemma_ascending_gap(picks@, cnt_before as int, j - 1);
                assert(picks@[j - 1] < boundary);
                assert(picks@[cnt_before as int] >= b0);
                assert(taken <= dist0[c as int]);
            }
            let ghost pre = individual@;
            let cur = individual.soldier_distribution[c];
            individual.soldier_distribution.set(c, cur - taken as u32);
            proof {
                lemma_sum_update(pre, c as int, (cur - taken as u32) as u32);
            }
        }
    }
    proof {
        lemma_sum_take_full(dist0);
        if j < num_move {
            assert(picks@[j as int] >= boundary);
            assert(false);
        }
        if num_move > 0 && n == 0 {
            assert(dist0 =~= Seq::<u32>::empty());
            assert(seq_sum(dist0) == 0);
            assert(false);
        }
    }
    // Every displaced soldier lands on an independently uniform castle.
    for k in 0..num_move
        invariant
            n == individual@.len(),
            num_move <= num_soldiers,
            num_move > 0 ==> n >= 1,
            seq_sum(individual@) == num_soldiers - num_move + k,
            num_soldiers <= u32::MAX,
            num_move == 0 ==> individual@ == dist0,
    {
        let target = rand_u64(rng, 0, (n - 1) as u64) as usize;
        let ghost pre = individual@;
        proof {
            lemma_elem_le_sum(pre, target as int);
        }
        let cur = individual.soldier_distribution[target];
        individual.soldier_distribution.set(target, cur + 1);
        proof {
            lemma_sum_update(pre, target as int, (cur + 1) as u32);
        }
    }
}

/// Castle indices in ascending order of point value. The result visits every
/// castle exactly once.
pub fn sorted_castle_indices(castle_points: &Vec<u32>) -> (r: Vec<usize>)
    ensures
        r@.len() == castle_points@.len(),
        forall|k: int| 0 <= k < r@.len() ==> #[trigger] r@[k] < castle_points@.len(),
        forall|k1: int, k2: int| 0 <= k1 < k2 < r@.len() ==> r@[k1] != r@[k2],
        forall|k1: int, k2: int|
            0 <= k1 < k2 < r@.len() ==> castle_points@[r@[k1] as int] <= castle_points@[
                r@[k2] as int
            ],
{
    let n = castle_points.len();
    let mut order: Vec<usize> = Vec::new();
    for i in 0..n
        invariant
            n == castle_points@.len(),
            order@.len() == i,
            forall|k: int| 0 <= k < i ==> #[trigger] order@[k] < i,
            forall|k1: int, k2: int| 0 <= k1 < k2 < i ==> order@[k1] != order@[k2],
            forall|k1: int, k2: int|
                0 <= k1 < k2 < i ==> castle_points@[order@[k1] as int] <= castle_points@[
                    order@[k2] as int
                ],
    {
        let mut p: usize = 0;
        while p < order.len() && castle_points[order[p]] <= castle_points[i]
            invariant
                n == castle_points@.len(),
                i < n,
                order@.len() == i,
                forall|k: int| 0 <= k < i ==> #[trigger] order@[k] < i,
                p <= i,
                forall|k: int|
                    0 <= k < p ==> castle_points@[#[trigger] order@[k] as int] <= castle_points@[
                        i as int
                    ],
            decreases order@.len() - p,
        {
            p = p + 1;
        }
        let ghost pre = order@;
        order.insert(p, i);
        proof {
            assert(order@ == pre.insert(p as int, i));
            assert forall|k1: int, k2: int| 0 <= k1 < k2 < i + 1 implies castle_points@[order@[k1] as int]
                <= castle_points@[order@[k2] as int] by {
                if k2 < p {
                    assert(order@[k1] == pre[k1] && order@[k2] == pre[k2]);
                } else if k1 > p {
                    assert(order@[k1] == pre[k1 - 1] && order@[k2] == pre[k2 - 1]);
                } else if k1 == p {
                    assert(order@[k1] == i && order@[k2] == pre[k2 - 1]);
                    if p < pre.len() {
                        assert(castle_points@[pre[p as int] as int] > castle_points@[i as int]);
                        assert(castle_points@[pre[p as int] as int] <= castle_points@[
                            pre[k2 - 1] as int
                        ]);
                    }
                } else if k2 == p {
                    assert(order@[k1] == pre[k1] && order@[k2] == i);
                } else {
                    // k1 < p < k2
                    assert(order@[k1] == pre[k1] && order@[k2] == pre[k2 - 1]);
                    if p < pre.len() && k2 - 1 > p {
                        assert(castle_points@[pre[p as int] as int] <= castle_points@[
                            pre[k2 - 1] as int
                        ]);
                    }
                }
            }
        }
    }
    order
}

/// Whether `post` differs from `pre` only in the two castles adjacent at
/// position `li` of the by-points ordering, whose combined soldiers moved
/// between them.
pub open spec fn swapped_pair(pre: Seq<u32>, post: Seq<u32>, order: Seq<usize>, li: int) -> bool {
    &&& 0 <= li < order.len() - 1
    &&& forall|c: int|
        0 <= c < pre.len() && c != order[li] && c != order[li + 1] ==> post[c] == pre[c]
    &&& post[order[li] as int] + post[order[li + 1] as int] == pre[order[li] as int] + pre[order[
        li + 1
    ] as int]
}

/// Neighbor-swap mutation: one uniformly random pair of castles adjacent in
/// the ascending by-points order pools its soldiers and redraws the split
/// uniformly among all possibilities, including giving one castle everything.
/// The soldier total is conserved exactly.
pub fn mutate_neighbor_swap(
    individual: &mut Individual,
    sorted_castles: &Vec<usize>,
    rng: &mut rand::rngs::ThreadRng,
)
    requires
        sorted_castles@.len() == old(individual)@.len(),
        old(individual)@.len() >= 2,
        seq_sum(old(individual)@) <= u32::MAX,
        forall|k: int|
            0 <= k < sorted_castles@.len() ==> #[trigger] sorted_castles@[k] < sorted_castles@.len(),
        forall|k1: int, k2: int|
            0 <= k1 < k2 < sorted_castles@.len() ==> sorted_castles@[k1] != sorted_castles@[k2],
    ensures
        final(individual)@.len() == old(individual)@.len(),
        seq_sum(final(individual)@) == seq_sum(old(individual)@),
        exists|li: int|
            swapped_pair(old(individual)@, final(individual)@, sorted_castles@, li),
{
    let n = individual.soldier_distribution.len();
    let li = rand_u64(rng, 0, (n - 2) as u64) as usize;
    let c1 = sorted_castles[li];
    let c2 = sorted_castles[li + 1];
    let ghost pre = individual@;
    proof {
        lemma_two_elems_le_sum(pre, c1 as int, c2 as int);
    }
    let total = individual.soldier_distribution[c1] + individual.soldier_distribution[c2];
    let left = rand_u64(rng, 0, total as u64) as u32;
    let right = total - left;
    individual.soldier_distribution.set(c1, left);
    let ghost mid = individual@;
    individual.soldier_distribution.set(c2, right);
    proof {
        lemma_sum_update(pre, c1 as int, left);
        lemma_sum_update(mid, c2 as int, right);
        assert(swapped_pair(pre, individual@, sorted_castles@, li as int));
    }
}

} // verus!
