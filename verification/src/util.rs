//! Uniform sampling of a k-subset of `0..n` in one linear pass
//! (selection sampling): walk the positions in order and accept each with
//! probability `needed / remaining`.

use vstd::prelude::*;
use crate::rng::rand_u64;

verus! {

/// Draws `choose` distinct values out of `0..n`, returned in ascending order.
///
/// Every position is inspected at most once; position `i` is accepted with
/// probability `needed / remaining`, which yields each k-subset with equal
/// probability and never needs a retry.
pub fn random_sample(n: u64, choose: usize, rng: &mut rand::rngs::ThreadRng) -> (r: Vec<u64>)
    requires
        choose as u64 <= n,
    ensures
        r@.len() == choose,
        forall|k: int| 0 <= k < choose ==> #[trigger] r@[k] < n,
        forall|k1: int, k2: int| 0 <= k1 < k2 < choose ==> r@[k1] < r@[k2],
        forall|k: int| 0 <= k < choose ==> k <= #[trigger] r@[k],
        forall|k: int| 0 <= k < choose ==> #[trigger] r@[k] + (choose - k) <= n,
{
    let mut result: Vec<u64> = Vec::new();
    let mut i: u64 = 0;
    while i < n && result.len() < choose
        invariant
            choose as u64 <= n,
            i <= n,
            result@.len() <= choose,
            choose - result@.len() <= n - i,
            forall|k: int| 0 <= k < result@.len() ==> #[trigger] result@[k] < i,
            forall|k1: int, k2: int| 0 <= k1 < k2 < result@.len() ==> result@[k1] < result@[k2],
            forall|k: int| 0 <= k < result@.len() ==> k <= #[trigger] result@[k],
            forall|k: int| 0 <= k < result@.len() ==> #[trigger] result@[k] + (choose - k) <= n,
        decreases n - i,
    {
        let remaining = n - i;
        let needed = (choose - result.len()) as u64;
        let draw = rand_u64(rng, 1, remaining);
        if draw <= needed {
            proof {
                if result@.len() > 0 {
                    let last = result@.len() - 1;
                    assert(result@[last] < i);
                    assert(last <= result@[last]);
                }
            }
            result.push(i);
        }
        i = i + 1;
    }
    result
}

/// In a strictly ascending sequence the values grow at least as fast as the
/// indices.
pub proof fn lemma_ascending_gap(s: Seq<u64>, a: int, b: int)
    requires
        forall|k1: int, k2: int| 0 <= k1 < k2 < s.len() ==> s[k1] < s[k2],
        0 <= a <= b < s.len(),
    ensures
        s[b] - s[a] >= b - a,
    decreases b - a,
{
    if a < b {
        lemma_ascending_gap(s, a, b - 1);
        assert(s[b - 1] < s[b]);
    }
}

} // verus!
