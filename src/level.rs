//! Assignment of a new node's maximum level from a table of weights.
use vstd::prelude::*;

verus! {

/// Sum of the first `n` weights.
pub open spec fn cumulative(w: Seq<u32>, n: nat) -> int
    decreases n,
{
    if n == 0 {
        0
    } else {
        cumulative(w, (n - 1) as nat) + w[n - 1] as int
    }
}

/// The level drawn for `sample`: the smallest level whose cumulative weight
/// exceeds `sample`, or the last level when none does.
pub open spec fn is_level_for(w: Seq<u32>, sample: int, level: int) -> bool {
    &&& 0 <= level < w.len()
    &&& forall|l: int| 0 <= l < level ==> #[trigger] cumulative(w, (l + 1) as nat) <= sample
    &&& level < w.len() - 1 ==> cumulative(w, (level + 1) as nat) > sample
}

/// The level weights in use, bottom level first, as percentages:
/// 50, 30, 15 and 5.
pub open spec fn level_weights() -> Seq<u32> {
    seq![50u32, 30u32, 15u32, 5u32]
}

/// Sum of the level weights in use.
pub const WEIGHT_TOTAL: u32 = 100;

proof fn lemma_cumulative_bound(w: Seq<u32>, n: nat)
    requires
        n <= w.len(),
    ensures
        0 <= cumulative(w, n) <= n * 0xffff_ffff,
    decreases n,
{
    if n > 0 {
        lemma_cumulative_bound(w, (n - 1) as nat);
    }
}

/// Picks the level for `sample` from cumulative weights.
pub fn generate_level(assign_weights: &Vec<u32>, sample: u32) -> (r: usize)
    requires
        0 < assign_weights.len() <= 0xffff_ffff,
    ensures
        is_level_for(assign_weights@, sample as int, r as int),
{
    let mut cum: u64 = 0;
    let mut level: usize = 0;
    while level < assign_weights.len() - 1
        invariant
            0 < assign_weights.len() <= 0xffff_ffff,
            level < assign_weights.len(),
            cum as int == cumulative(assign_weights@, level as nat),
            forall|l: int| 0 <= l < level ==> #[trigger] cumulative(assign_weights@, (l + 1) as nat) <= sample,
        decreases assign_weights.len() - level,
    {
        proof {
            lemma_cumulative_bound(assign_weights@, (level + 1) as nat);
            assert((level + 1) as int * 0xffff_ffff <= 0xffff_ffff * 0xffff_ffff) by (nonlinear_arith)
                requires
                    level + 1 <= 0xffff_ffff,
            ;
        }
        cum = cum + assign_weights[level] as u64;
        assert(cum as int == cumulative(assign_weights@, (level + 1) as nat));
        if (sample as u64) < cum {
            return level;
        }
        level = level + 1;
    }
    level
}

/// Relies on `rand::thread_rng` and `rand_distr::Uniform::new(0, bound)`:
/// a uniform sample in `[0, bound)`; `Uniform::new` panics when `bound` is 0.
#[verifier::external_body]
fn uniform_below(bound: u32) -> (r: u32)
    requires
        bound > 0,
    ensures
        r < bound,
{
    rand::Rng::sample(&mut rand::thread_rng(), rand_distr::Uniform::new(0u32, bound))
}

/// Draws a maximum level for a new node with the weights in use.
pub fn draw_level() -> (r: usize)
    ensures
        exists|u: int| 0 <= u < WEIGHT_TOTAL && is_level_for(level_weights(), u, r as int),
{
    let weights: Vec<u32> = vec![50, 30, 15, 5];
    assert(weights@ =~= level_weights());
    let sample = uniform_below(WEIGHT_TOTAL);
    generate_level(&weights, sample)
}

} // verus!
