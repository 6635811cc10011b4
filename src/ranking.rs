//! Rank order of scored nodes (more similar first, then lower id), and the
//! bounded sorted lists built by inserting into that order.
use crate::vector::{cos_gt, lemma_cos_gt_asymmetric, lemma_cos_transitive, more_similar, Cosine};
use vstd::prelude::*;

verus! {

/// A node id with its similarity to some fixed vector.
#[derive(Clone, Copy, Debug, PartialEq, Eq, Structural)]
pub struct Scored {
    pub id: u32,
    pub score: Cosine,
}

/// `x` ranks before `y`: it is more similar, or as similar with a lower id.
pub open spec fn ranks_before(x: Scored, y: Scored) -> bool {
    cos_gt(x.score, y.score) || (!cos_gt(y.score, x.score) && x.id < y.id)
}

/// Length of the leading run of `s` whose elements rank before `x`.
pub open spec fn run_before(s: Seq<Scored>, x: Scored) -> nat
    decreases s.len(),
{
    if s.len() == 0 {
        0
    } else if ranks_before(s[0], x) {
        1 + run_before(s.drop_first(), x)
    } else {
        0
    }
}

/// `s` with `x` placed right after the leading run that ranks before it.
pub open spec fn insert_ranked(s: Seq<Scored>, x: Scored) -> Seq<Scored> {
    let p = run_before(s, x) as int;
    s.take(p).push(x) + s.skip(p)
}

/// `s` put in rank order, one element at a time.
pub open spec fn ranked(s: Seq<Scored>) -> Seq<Scored>
    decreases s.len(),
{
    if s.len() == 0 {
        s
    } else {
        insert_ranked(ranked(s.drop_last()), s.last())
    }
}

/// The first `m` elements of `s`, or all of `s` when it is shorter.
pub open spec fn prefix(s: Seq<Scored>, m: nat) -> Seq<Scored> {
    if s.len() <= m {
        s
    } else {
        s.take(m as int)
    }
}

/// The ids of a sequence of scored nodes.
pub open spec fn ids_of(s: Seq<Scored>) -> Seq<u32> {
    s.map_values(|x: Scored| x.id)
}

/// Every score of `s` is a similarity to a vector of squared norm `base`,
/// within the comparison bounds.
pub open spec fn comparable(s: Seq<Scored>, base: u64) -> bool {
    forall|i: int| 0 <= i < s.len() ==> (#[trigger] s[i]).score.fits() && s[i].score.norm_sq_b == base
}

/// Each element of `s` ranks before every later one.
pub open spec fn rank_sorted(s: Seq<Scored>) -> bool {
    forall|i: int, j: int| 0 <= i < j < s.len() ==> ranks_before(#[trigger] s[i], #[trigger] s[j])
}

/// Ranking is a strict total order on scored nodes with distinct ids.
pub proof fn lemma_rank_order(x: Scored, y: Scored, z: Scored)
    ensures
        !ranks_before(x, x),
        ranks_before(x, y) ==> !ranks_before(y, x),
        x.id != y.id ==> ranks_before(x, y) || ranks_before(y, x),
        ranks_before(x, y) && ranks_before(y, z) ==> ranks_before(x, z),
        ranks_before(x, y) ==> !cos_gt(y.score, x.score),
{
    lemma_cos_gt_asymmetric(x.score, y.score);
    lemma_cos_gt_asymmetric(y.score, z.score);
    lemma_cos_gt_asymmetric(x.score, z.score);
    lemma_cos_transitive(x.score, y.score, z.score);
    lemma_cos_transitive(y.score, z.score, x.score);
    lemma_cos_transitive(z.score, x.score, y.score);
    lemma_cos_transitive(x.score, z.score, y.score);
    lemma_cos_transitive(z.score, y.score, x.score);
    lemma_cos_transitive(y.score, x.score, z.score);
}

/// Inserting a node whose id is new into a rank-sorted sequence keeps it
/// rank-sorted.
pub proof fn lemma_insert_rank_sorted(s: Seq<Scored>, x: Scored)
    requires
        rank_sorted(s),
        forall|i: int| 0 <= i < s.len() ==> (#[trigger] s[i]).id != x.id,
    ensures
        rank_sorted(insert_ranked(s, x)),
{
    lemma_run_before(s, x);
    let p = run_before(s, x) as int;
    let t = insert_ranked(s, x);
    if p < s.len() {
        lemma_rank_order(s[p], x, x);
    }
    assert forall|j: int| p <= j < s.len() implies ranks_before(x, #[trigger] s[j]) by {
        if j > p {
            lemma_rank_order(x, s[p], s[j]);
        }
    }
    assert forall|i: int, j: int| 0 <= i < j < t.len() implies ranks_before(
        #[trigger] t[i],
        #[trigger] t[j],
    ) by {
        if j < p {
            assert(t[i] == s[i] && t[j] == s[j]);
        } else if j == p {
            assert(t[i] == s[i] && t[j] == x);
        } else if i < p {
            assert(t[i] == s[i] && t[j] == s[j - 1]);
        } else if i == p {
            assert(t[i] == x && t[j] == s[j - 1]);
        } else {
            assert(t[i] == s[i - 1] && t[j] == s[j - 1]);
        }
    }
}

/// What `run_before` counts: a leading run of elements ranking before `x`,
/// ended by one that does not.
pub proof fn lemma_run_before(s: Seq<Scored>, x: Scored)
    ensures
        run_before(s, x) <= s.len(),
        forall|i: int| 0 <= i < run_before(s, x) ==> ranks_before(#[trigger] s[i], x),
        run_before(s, x) < s.len() ==> !ranks_before(s[run_before(s, x) as int], x),
    decreases s.len(),
{
    if s.len() > 0 && ranks_before(s[0], x) {
        lemma_run_before(s.drop_first(), x);
        assert forall|i: int| 0 <= i < run_before(s, x) implies ranks_before(#[trigger] s[i], x) by {
            if i > 0 {
                assert(s[i] == s.drop_first()[i - 1]);
            }
        }
    }
}

proof fn lemma_run_before_skip(s: Seq<Scored>, x: Scored, p: int)
    requires
        0 <= p <= s.len(),
        forall|i: int| 0 <= i < p ==> ranks_before(#[trigger] s[i], x),
    ensures
        run_before(s, x) == p + run_before(s.skip(p), x),
    decreases p,
{
    if p > 0 {
        assert(ranks_before(s[0], x));
        let t = s.drop_first();
        assert forall|i: int| 0 <= i < p - 1 implies ranks_before(#[trigger] t[i], x) by {
            assert(t[i] == s[i + 1]);
        }
        lemma_run_before_skip(t, x, p - 1);
        assert(t.skip(p - 1) =~= s.skip(p));
    } else {
        assert(s.skip(0) =~= s);
    }
}

proof fn lemma_run_before_take(s: Seq<Scored>, x: Scored, m: int)
    requires
        0 <= m <= s.len(),
    ensures
        run_before(s.take(m), x) == if run_before(s, x) < m { run_before(s, x) as int } else { m },
    decreases m,
{
    if m > 0 {
        let t = s.take(m);
        assert(t[0] == s[0]);
        if ranks_before(s[0], x) {
            lemma_run_before_take(s.drop_first(), x, m - 1);
            assert(t.drop_first() =~= s.drop_first().take(m - 1));
        }
    }
}

/// Keeping only the first `m` elements before an insertion changes nothing
/// among the first `m` elements after it.
pub proof fn lemma_prefix_insert(s: Seq<Scored>, x: Scored, m: nat)
    ensures
        prefix(insert_ranked(s, x), m) == prefix(insert_ranked(prefix(s, m), x), m),
{
    if s.len() > m {
        let t = s.take(m as int);
        lemma_run_before(s, x);
        lemma_run_before_take(s, x, m as int);
        let p = run_before(s, x) as int;
        let q = run_before(t, x) as int;
        let a = insert_ranked(s, x);
        let b = insert_ranked(t, x);
        assert(a.take(m as int) =~= b.take(m as int)) by {
            assert forall|i: int| 0 <= i < m implies a[i] == b[i] by {
                if i < q {
                    assert(a[i] == s[i] && b[i] == t[i]);
                } else if i == q {
                    assert(a[i] == x && b[i] == x);
                } else {
                    assert(a[i] == s[i - 1] && b[i] == t[i - 1]);
                }
            }
        }
    }
}

/// Ranking the first `i + 1` elements inserts element `i` into the ranking
/// of the first `i`.
pub proof fn lemma_ranked_step(s: Seq<Scored>, i: int)
    requires
        0 <= i < s.len(),
    ensures
        ranked(s.take(i + 1)) == insert_ranked(ranked(s.take(i)), s[i]),
{
    assert(s.take(i + 1).drop_last() =~= s.take(i));
}

/// An inserted sequence holds `x` and the elements of `s`, one more than `s`.
pub proof fn lemma_insert_elements(s: Seq<Scored>, x: Scored)
    ensures
        insert_ranked(s, x).len() == s.len() + 1,
        forall|i: int|
            0 <= i < insert_ranked(s, x).len() ==> #[trigger] insert_ranked(s, x)[i] == x
                || s.contains(insert_ranked(s, x)[i]),
        insert_ranked(s, x).contains(x),
        forall|i: int| 0 <= i < s.len() ==> insert_ranked(s, x).contains(#[trigger] s[i]),
{
    lemma_run_before(s, x);
    let p = run_before(s, x) as int;
    let t = insert_ranked(s, x);
    assert(t[p] == x);
    assert forall|i: int| 0 <= i < t.len() implies #[trigger] t[i] == x || s.contains(t[i]) by {
        if i < p {
            assert(t[i] == s[i]);
        } else if i > p {
            assert(t[i] == s[i - 1]);
        }
    }
    assert forall|i: int| 0 <= i < s.len() implies t.contains(#[trigger] s[i]) by {
        if i < p {
            assert(t[i] == s[i]);
        } else {
            assert(t[i + 1] == s[i]);
        }
    }
}

/// Whether `x` ranks before `y`, for similarities to the same vector.
pub fn ranks_before_exec(x: &Scored, y: &Scored) -> (r: bool)
    requires
        x.score.fits(),
        y.score.fits(),
        x.score.norm_sq_b == y.score.norm_sq_b,
    ensures
        r == ranks_before(*x, *y),
{
    if more_similar(&x.score, &y.score) {
        true
    } else {
        !more_similar(&y.score, &x.score) && x.id < y.id
    }
}

/// Inserts `x` into `v` right after the leading run that ranks before it.
pub fn insert_ranked_exec(v: &mut Vec<Scored>, x: Scored)
    requires
        comparable(old(v)@, x.score.norm_sq_b),
        x.score.fits(),
    ensures
        final(v)@ == insert_ranked(old(v)@, x),
{
    let ghost s = v@;
    let mut p: usize = 0;
    while p < v.len() && ranks_before_exec(&v[p], &x)
        invariant
            v@ == s,
            comparable(s, x.score.norm_sq_b),
            x.score.fits(),
            p <= s.len(),
            forall|i: int| 0 <= i < p ==> ranks_before(#[trigger] s[i], x),
        decreases s.len() - p,
    {
        p = p + 1;
    }
    proof {
        lemma_run_before_skip(s, x, p as int);
        if p < s.len() {
            assert(run_before(s.skip(p as int), x) == 0) by {
                assert(s.skip(p as int)[0] == s[p as int]);
            }
        } else {
            assert(s.skip(p as int).len() == 0);
        }
    }
    v.insert(p, x);
    assert(v@ =~= s.take(p as int).push(x) + s.skip(p as int));
}

} // verus!
