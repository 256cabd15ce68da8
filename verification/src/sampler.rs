//! Uniform sampling of soldier distributions. A distribution of
//! `num_soldiers` soldiers over `num_castles` castles is a composition, and
//! every composition is drawn with the same probability via stars and bars.

use vstd::prelude::*;
use crate::individual::Individual;
use crate::sums::{seq_sum, lemma_sum_push, lemma_sum_nonneg};
use crate::util::random_sample;

verus! {

/// Draws one soldier distribution uniformly over all compositions of
/// `num_soldiers` into `num_castles` non-negative parts: lay out
/// `num_soldiers` stars and `num_castles - 1` bars in a line, pick the bar
/// slots as a uniform subset, and read each castle's count off as the gap
/// between consecutive bars.
pub fn uniform_random_individual(
    num_castles: usize,
    num_soldiers: u32,
    rng: &mut rand::rngs::ThreadRng,
) -> (r: Individual)
    requires
        2 <= num_castles,
        num_castles <= u32::MAX,
    ensures
        r@.len() == num_castles,
        seq_sum(r@) == num_soldiers,
{
    let choose = num_castles - 1;
    let total: u64 = num_soldiers as u64 + choose as u64;
    let bars = random_sample(total, choose, rng);
    let mut dist: Vec<u32> = Vec::new();
    // `start` is the first line slot not yet accounted for; the stars between
    // `start` and the next bar belong to the next castle.
    let mut start: u64 = 0;
    for k in 0..choose
        invariant
            total == num_soldiers + choose,
            bars@.len() == choose,
            forall|j: int| 0 <= j < choose ==> #[trigger] bars@[j] < total,
            forall|j1: int, j2: int| 0 <= j1 < j2 < choose ==> bars@[j1] < bars@[j2],
            forall|j: int| 0 <= j < choose ==> #[trigger] bars@[j] + (choose - j) <= total,
            dist@.len() == k,
            start == seq_sum(dist@) + k,
            seq_sum(dist@) <= num_soldiers,
            k == 0 ==> start == 0,
            k > 0 ==> start == bars@[k - 1] + 1,
    {
        proof {
            if k > 0 {
                assert(bars@[k - 1] < bars@[k as int]);
            }
            assert(bars@[k as int] + (choose - k) <= total);
        }
        let ghost pre = dist@;
        let gap = bars[k] - start;
        proof {
            lemma_sum_nonneg(pre);
            assert(seq_sum(pre) + gap == bars@[k as int] - k);
            assert(bars@[k as int] - k <= total - choose);
            assert(gap <= num_soldiers);
        }
        dist.push(gap as u32);
        proof {
            lemma_sum_push(pre, gap as u32);
        }
        start = bars[k] + 1;
    }
    let ghost pre = dist@;
    let last_gap = total - start;
    dist.push(last_gap as u32);
    proof {
        lemma_sum_push(pre, last_gap as u32);
    }
    Individual { soldier_distribution: dist }
}

} // verus!
