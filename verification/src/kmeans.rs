use vstd::prelude::*;
use crate::errors::IndexError;
use crate::model::{DistanceType, valid_vec, valid_vecs, deep, MAX_DIM, COORD_BOUND, MAX_SAMPLES};
use crate::distance::nearest_in_range;

verus! {

/// Copies the components of one vector.
pub fn copy_vec(v: &Vec<i64>) -> (r: Vec<i64>)
    ensures
        r@ == v@,
{
    let mut r: Vec<i64> = Vec::new();
    let mut i: usize = 0;
    while i < v.len()
        invariant
            i <= v.len(),
            r@ == v@.subrange(0, i as int),
        decreases v.len() - i,
    {
        r.push(v[i]);
        i = i + 1;
    }
    proof {
        assert(r@ =~= v@);
    }
    r
}

/// A flat row-major index stays inside the flat vector.
proof fn lemma_flat_in_bounds(k: int, dim: int, q: int, e: int)
    requires
        0 <= q < k,
        0 <= e < dim,
    ensures
        0 <= q * dim + e < k * dim,
{
    assert(0 <= q * dim + e && q * dim + e < k * dim) by (nonlinear_arith)
        requires 0 <= q, q < k, 0 <= e, e < dim;
}

/// Distinct (row, column) pairs give distinct flat indices.
proof fn lemma_flat_distinct(dim: int, q1: int, e1: int, q2: int, e2: int)
    requires
        0 <= e1 < dim,
        0 <= e2 < dim,
        0 <= q1,
        0 <= q2,
        q1 != q2 || e1 != e2,
    ensures
        q1 * dim + e1 != q2 * dim + e2,
{
    assert(q1 * dim + e1 != q2 * dim + e2) by (nonlinear_arith)
        requires
            0 <= e1, e1 < dim, 0 <= e2, e2 < dim, 0 <= q1, 0 <= q2,
            q1 != q2 || e1 != e2;
}

/// Truncated mean: `sum / c` for a sum of `c` values of magnitude at most
/// `bound` stays within `bound`.
fn div_mean(sum: i64, c: u64, bound: i64) -> (q: i64)
    requires
        1 <= c <= MAX_SAMPLES as u64,
        1 <= bound <= COORD_BOUND,
        -(c as int * bound as int) <= sum as int <= c as int * bound as int,
    ensures
        -bound <= q <= bound,
{
    proof {
        assert(c as int * bound as int <= MAX_SAMPLES as int * COORD_BOUND as int)
            by (nonlinear_arith)
            requires
                1 <= c as int,
                c as int <= MAX_SAMPLES as int,
                1 <= bound as int,
                bound as int <= COORD_BOUND as int;
    }
    if sum >= 0 {
        let u: u64 = sum as u64;
        let q: u64 = u / c;
        proof {
            assert(u as int / c as int <= bound as int) by (nonlinear_arith)
                requires
                    1 <= c as int,
                    0 <= u as int <= c as int * bound as int,
                    1 <= bound as int;
        }
        q as i64
    } else {
        let u: u64 = (-sum) as u64;
        let q: u64 = u / c;
        proof {
            assert(u as int / c as int <= bound as int) by (nonlinear_arith)
                requires
                    1 <= c as int,
                    0 <= u as int <= c as int * bound as int,
                    1 <= bound as int;
        }
        -(q as i64)
    }
}

/// Lloyd's k-means on bounded fixed-point vectors.
///
/// Centroids are initialized from the first `k` samples; each of `max_iters`
/// rounds assigns every sample to its nearest centroid under `dt` and
/// replaces each centroid by the truncated mean of its cluster.  A round in
/// which some cluster receives no sample fails with `Training`: a degenerate
/// partition is reported, never silently dropped.
pub fn train_kmeans(
    samples: &Vec<Vec<i64>>,
    k: usize,
    dim: usize,
    dt: DistanceType,
    max_iters: usize,
    bound: i64,
) -> (r: Result<Vec<Vec<i64>>, IndexError>)
    requires
        1 <= dim <= MAX_DIM,
        1 <= k,
        k * dim <= MAX_SAMPLES,
        samples@.len() <= MAX_SAMPLES,
        1 <= bound <= COORD_BOUND,
        valid_vecs(deep(samples@), dim as int, bound as int),
    ensures
        samples@.len() < k ==> r == Err::<Vec<Vec<i64>>, IndexError>(IndexError::Training),
        r is Err ==> r == Err::<Vec<Vec<i64>>, IndexError>(IndexError::Training),
        r is Ok ==> r->Ok_0@.len() == k,
        r is Ok ==> valid_vecs(deep(r->Ok_0@), dim as int, bound as int),
        max_iters == 0 && samples@.len() >= k ==> r is Ok,
{
    if samples.len() < k {
        return Err(IndexError::Training);
    }
    let mut cents: Vec<Vec<i64>> = Vec::new();
    let mut i: usize = 0;
    while i < k
        invariant
            i <= k <= samples@.len(),
            cents@.len() == i,
            1 <= dim <= MAX_DIM,
            valid_vecs(deep(samples@), dim as int, bound as int),
            valid_vecs(deep(cents@), dim as int, bound as int),
        decreases k - i,
    {
        proof {
            assert(deep(samples@)[i as int] == samples@[i as int]@);
        }
        let c = copy_vec(&samples[i]);
        let ghost pre = cents@;
        let ghost cv = c@;
        cents.push(c);
        proof {
            assert forall|j: int| 0 <= j < cents@.len() implies
                valid_vec(#[trigger] deep(cents@)[j], dim as int, bound as int) by {
                assert(deep(cents@)[j] == cents@[j]@);
                if j < pre.len() {
                    assert(cents@[j] == pre[j]);
                    assert(deep(pre)[j] == pre[j]@);
                } else {
                    assert(cents@[j]@ == cv);
                    assert(cv == deep(samples@)[i as int]);
                }
            }
        }
        i = i + 1;
    }
    let mut it: usize = 0;
    while it < max_iters
        invariant
            1 <= dim <= MAX_DIM,
            1 <= k <= samples@.len() <= MAX_SAMPLES,
            k * dim <= MAX_SAMPLES,
            1 <= bound <= COORD_BOUND,
            valid_vecs(deep(samples@), dim as int, bound as int),
            cents@.len() == k,
            valid_vecs(deep(cents@), dim as int, bound as int),
            it <= max_iters,
        decreases max_iters - it,
    {
        // Accumulate, per cluster, the number of assigned samples and the
        // per-component sums.
        let mut counts: Vec<u64> = Vec::new();
        let mut p: usize = 0;
        while p < k
            invariant
                p <= k,
                counts@.len() == p,
                forall|q: int| 0 <= q < p ==> counts@[q] == 0u64,
            decreases k - p,
        {
            counts.push(0);
            p = p + 1;
        }
        let mut sums: Vec<i64> = Vec::new();
        let mut f: usize = 0;
        while f < k * dim
            invariant
                f <= k * dim <= MAX_SAMPLES,
                sums@.len() == f,
                forall|q: int| 0 <= q < f ==> sums@[q] == 0i64,
            decreases k * dim - f,
        {
            sums.push(0);
            f = f + 1;
        }
        proof {
            assert forall|q: int, d: int| 0 <= q < k && 0 <= d < dim implies
                -(counts@[q] as int * bound as int)
                    <= #[trigger] sums@[q * dim + d] as int
                    <= counts@[q] as int * bound as int by {
                lemma_flat_in_bounds(k as int, dim as int, q, d);
                assert(sums@[q * dim + d] == 0i64);
                assert(counts@[q] == 0u64);
            }
        }
        let mut s: usize = 0;
        while s < samples.len()
            invariant
                s <= samples@.len() <= MAX_SAMPLES,
                1 <= dim <= MAX_DIM,
                1 <= k,
                k * dim <= MAX_SAMPLES,
                1 <= bound <= COORD_BOUND,
                valid_vecs(deep(samples@), dim as int, bound as int),
                cents@.len() == k,
                valid_vecs(deep(cents@), dim as int, bound as int),
                counts@.len() == k,
                sums@.len() == k * dim,
                forall|q: int| 0 <= q < k ==> #[trigger] counts@[q] <= s as u64,
                forall|q: int, d: int| 0 <= q < k && 0 <= d < dim ==>
                    -(counts@[q] as int * bound as int)
                        <= #[trigger] sums@[q * dim + d] as int
                        <= counts@[q] as int * bound as int,
            decreases samples@.len() - s,
        {
            proof {
                assert(deep(samples@)[s as int] == samples@[s as int]@);
            }
            let p = nearest_in_range(dt, &cents, 0, k, &samples[s]);
            proof {
                assert(deep(cents@).subrange(0, k as int) =~= deep(cents@));
            }
            let ghost old_counts = counts@;
            let ghost old_sums = sums@;
            counts[p] = counts[p] + 1;
            let mut d: usize = 0;
            while d < dim
                invariant
                    d <= dim,
                    p < k,
                    s < samples@.len() <= MAX_SAMPLES,
                    1 <= dim <= MAX_DIM,
                    k * dim <= MAX_SAMPLES,
                    1 <= bound <= COORD_BOUND,
                    valid_vecs(deep(samples@), dim as int, bound as int),
                    counts@ == old_counts.update(p as int, (old_counts[p as int] + 1) as u64),
                    counts@.len() == k,
                    sums@.len() == k * dim,
                    old_counts[p as int] <= s as u64,
                    forall|q: int| 0 <= q < k ==> #[trigger] old_counts[q] <= s as u64,
                    forall|q: int, e: int| 0 <= q < k && 0 <= e < dim && (q != p || e >= d) ==>
                        #[trigger] sums@[q * dim + e] == old_sums[q * dim + e],
                    forall|q: int, e: int| 0 <= q < k && 0 <= e < dim ==>
                        -(old_counts[q] as int * bound as int)
                            <= #[trigger] old_sums[q * dim + e] as int
                            <= old_counts[q] as int * bound as int,
                    forall|e: int| 0 <= e < d ==>
                        #[trigger] sums@[p as int * dim + e] as int
                            == old_sums[p as int * dim + e] as int + samples@[s as int]@[e],
                decreases dim - d,
            {
                proof {
                    lemma_flat_in_bounds(k as int, dim as int, p as int, d as int);
                    assert(deep(samples@)[s as int] == samples@[s as int]@);
                    assert(old_counts[p as int] as int * bound as int + bound as int
                        <= MAX_SAMPLES as int * bound as int) by (nonlinear_arith)
                        requires
                            0 <= old_counts[p as int] as int,
                            old_counts[p as int] as int + 1 <= MAX_SAMPLES as int,
                            bound as int >= 1;
                    assert(MAX_SAMPLES as int * bound as int
                        <= MAX_SAMPLES as int * COORD_BOUND as int) by (nonlinear_arith)
                        requires 1 <= bound as int, bound as int <= COORD_BOUND as int;
                }
                let idx = p * dim + d;
                let ghost prev_sums = sums@;
                sums[idx] = sums[idx] + samples[s][d];
                proof {
                    assert forall|q: int, e: int|
                        0 <= q < k && 0 <= e < dim && (q != p || e >= d + 1) implies
                        #[trigger] sums@[q * dim + e] == old_sums[q * dim + e] by {
                        lemma_flat_in_bounds(k as int, dim as int, q, e);
                        lemma_flat_distinct(dim as int, q, e, p as int, d as int);
                        assert(sums@[q * dim + e] == prev_sums[q * dim + e]);
                    }
                    assert forall|e: int| 0 <= e < d + 1 implies
                        #[trigger] sums@[p as int * dim + e] as int
                            == old_sums[p as int * dim + e] as int + samples@[s as int]@[e] by {
                        lemma_flat_in_bounds(k as int, dim as int, p as int, e);
                        if e < d {
                            lemma_flat_distinct(dim as int, p as int, e, p as int, d as int);
                            assert(sums@[p as int * dim + e] == prev_sums[p as int * dim + e]);
                        }
                    }
                }
                d = d + 1;
            }
            proof {
                assert forall|q: int, e: int| 0 <= q < k && 0 <= e < dim implies
                    -(counts@[q] as int * bound as int)
                        <= #[trigger] sums@[q * dim + e] as int
                        <= counts@[q] as int * bound as int by {
                    lemma_flat_in_bounds(k as int, dim as int, q, e);
                    if q == p as int {
                        assert(counts@[q] == old_counts[q] + 1);
                        assert(sums@[q * dim + e] as int
                            == old_sums[q * dim + e] as int + samples@[s as int]@[e]);
                        assert(valid_vec(deep(samples@)[s as int], dim as int, bound as int));
                        assert(deep(samples@)[s as int] == samples@[s as int]@);
                        assert((old_counts[q] as int + 1) * bound as int
                            == old_counts[q] as int * bound as int + bound as int)
                            by (nonlinear_arith);
                    } else {
                        assert(sums@[q * dim + e] == old_sums[q * dim + e]);
                        assert(counts@[q] == old_counts[q]);
                    }
                }
            }
            s = s + 1;
        }
        // Update step: replace each centroid by its cluster's truncated mean;
        // an empty cluster is a degenerate partition and fails the training.
        let mut p: usize = 0;
        while p < k
            invariant
                p <= k,
                1 <= dim <= MAX_DIM,
                1 <= k <= samples@.len() <= MAX_SAMPLES,
                k * dim <= MAX_SAMPLES,
                1 <= bound <= COORD_BOUND,
                it < max_iters,
                valid_vecs(deep(samples@), dim as int, bound as int),
                cents@.len() == k,
                valid_vecs(deep(cents@), dim as int, bound as int),
                counts@.len() == k,
                sums@.len() == k * dim,
                forall|q: int| 0 <= q < k ==> #[trigger] counts@[q] <= samples@.len() as u64,
                forall|q: int, e: int| 0 <= q < k && 0 <= e < dim ==>
                    -(counts@[q] as int * bound as int)
                        <= #[trigger] sums@[q * dim + e] as int
                        <= counts@[q] as int * bound as int,
            decreases k - p,
        {
            if counts[p] == 0 {
                return Err(IndexError::Training);
            }
            let mut c: Vec<i64> = Vec::new();
            let mut d: usize = 0;
            while d < dim
                invariant
                    d <= dim,
                    p < k,
                    1 <= dim <= MAX_DIM,
                    k * dim <= MAX_SAMPLES,
                    1 <= bound <= COORD_BOUND,
                    counts@.len() == k,
                    sums@.len() == k * dim,
                    1 <= counts@[p as int] <= MAX_SAMPLES as u64,
                    forall|q: int, e: int| 0 <= q < k && 0 <= e < dim ==>
                        -(counts@[q] as int * bound as int)
                            <= #[trigger] sums@[q * dim + e] as int
                            <= counts@[q] as int * bound as int,
                    c@.len() == d,
                    forall|e: int| 0 <= e < d ==> -bound <= #[trigger] c@[e] <= bound,
                decreases dim - d,
            {
                proof {
                    lemma_flat_in_bounds(k as int, dim as int, p as int, d as int);
                }
                let idx = p * dim + d;
                let m = div_mean(sums[idx], counts[p], bound);
                c.push(m);
                d = d + 1;
            }
            let ghost pre = cents@;
            let ghost cv = c@;
            cents[p] = c;
            proof {
                assert forall|j: int| 0 <= j < k implies
                    valid_vec(#[trigger] deep(cents@)[j], dim as int, bound as int) by {
                    assert(deep(cents@)[j] == cents@[j]@);
                    if j == p as int {
                        assert(cents@[j]@ == cv);
                    } else {
                        assert(cents@[j] == pre[j]);
                        assert(deep(pre)[j] == pre[j]@);
                    }
                }
            }
            p = p + 1;
        }
        it = it + 1;
    }
    Ok(cents)
}

} // verus!
