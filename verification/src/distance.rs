use vstd::prelude::*;
use crate::model::{DistanceType, valid_vec, deep, MAX_DIM, COORD_BOUND};

verus! {

/// Squared Euclidean distance between two equal-length sequences.
pub open spec fn sq_l2(a: Seq<i64>, b: Seq<i64>) -> int
    decreases a.len(),
{
    if a.len() == 0 {
        0
    } else {
        sq_l2(a.drop_last(), b.drop_last()) + (a.last() - b.last()) * (a.last() - b.last())
    }
}

/// Dot product of two equal-length sequences.
pub open spec fn dot(a: Seq<i64>, b: Seq<i64>) -> int
    decreases a.len(),
{
    if a.len() == 0 {
        0
    } else {
        dot(a.drop_last(), b.drop_last()) + a.last() * b.last()
    }
}

/// The distance used for nearest-centroid assignment under a metric: squared
/// Euclidean for `L2` and `Cosine` (cosine inputs are pre-normalized), and
/// negated dot product for `Dot`, so that smaller is always nearer.
pub open spec fn dist_of(dt: DistanceType, a: Seq<i64>, b: Seq<i64>) -> int {
    match dt {
        DistanceType::Dot => -dot(a, b),
        _ => sq_l2(a, b),
    }
}

pub proof fn lemma_sq_l2_bounds(a: Seq<i64>, b: Seq<i64>, bound: int)
    requires
        a.len() == b.len(),
        0 < bound <= COORD_BOUND as int,
        forall|i: int| 0 <= i < a.len() ==> -bound <= #[trigger] a[i] <= bound,
        forall|i: int| 0 <= i < b.len() ==> -bound <= #[trigger] b[i] <= bound,
    ensures
        0 <= sq_l2(a, b) <= a.len() * 4 * bound * bound,
    decreases a.len(),
{
    if a.len() == 0 {
    } else {
        lemma_sq_l2_bounds(a.drop_last(), b.drop_last(), bound);
        let d = a.last() - b.last();
        assert(-2 * bound <= d <= 2 * bound);
        assert(0 <= d * d <= 4 * bound * bound) by (nonlinear_arith)
            requires -2 * bound <= d <= 2 * bound, bound > 0;
        assert((a.len() - 1) * 4 * bound * bound + 4 * bound * bound == a.len() * 4 * bound * bound)
            by (nonlinear_arith);
    }
}

pub proof fn lemma_dot_bounds(a: Seq<i64>, b: Seq<i64>, bound: int)
    requires
        a.len() == b.len(),
        0 < bound <= COORD_BOUND as int,
        forall|i: int| 0 <= i < a.len() ==> -bound <= #[trigger] a[i] <= bound,
        forall|i: int| 0 <= i < b.len() ==> -bound <= #[trigger] b[i] <= bound,
    ensures
        -(a.len() * bound * bound) <= dot(a, b) <= a.len() * bound * bound,
    decreases a.len(),
{
    if a.len() == 0 {
    } else {
        lemma_dot_bounds(a.drop_last(), b.drop_last(), bound);
        let x = a.last();
        let y = b.last();
        assert(-(bound * bound) <= x * y <= bound * bound) by (nonlinear_arith)
            requires -bound <= x <= bound, -bound <= y <= bound, bound > 0;
        assert((a.len() - 1) * bound * bound + bound * bound == a.len() * bound * bound)
            by (nonlinear_arith);
    }
}

/// Computes `dist_of` on machine integers.  The magnitude and dimension
/// bounds keep the running sum inside `i64`.
pub fn distance(dt: DistanceType, a: &Vec<i64>, b: &Vec<i64>) -> (d: i64)
    requires
        a@.len() == b@.len() <= MAX_DIM,
        valid_vec(a@, a@.len() as int, COORD_BOUND as int),
        valid_vec(b@, b@.len() as int, COORD_BOUND as int),
    ensures
        d as int == dist_of(dt, a@, b@),
{
    let n = a.len();
    let ghost bnd: int = COORD_BOUND as int;
    proof {
        lemma_sq_l2_bounds(a@, b@, bnd);
        lemma_dot_bounds(a@, b@, bnd);
    }
    match dt {
        DistanceType::Dot => {
            let mut acc: i64 = 0;
            let mut i: usize = 0;
            while i < n
                invariant
                    i <= n,
                    n == a@.len() == b@.len(),
                    n <= MAX_DIM,
                    bnd == COORD_BOUND as int,
                    valid_vec(a@, n as int, bnd),
                    valid_vec(b@, n as int, bnd),
                    acc as int == dot(a@.subrange(0, i as int), b@.subrange(0, i as int)),
                    -(i as int * bnd * bnd) <= acc as int <= i as int * bnd * bnd,
                decreases n - i,
            {
                let ghost pa = a@.subrange(0, i as int);
                let ghost pb = b@.subrange(0, i as int);
                let x = a[i];
                let y = b[i];
                proof {
                    lemma_dot_bounds(pa, pb, bnd);
                    assert(-(bnd * bnd) <= x as int * y as int <= bnd * bnd) by (nonlinear_arith)
                        requires -bnd <= x as int <= bnd, -bnd <= y as int <= bnd, bnd > 0;
                    assert(i as int * bnd * bnd + bnd * bnd == (i + 1) as int * bnd * bnd)
                        by (nonlinear_arith);
                    assert((i + 1) as int * bnd * bnd <= MAX_DIM as int * bnd * bnd)
                        by (nonlinear_arith)
                        requires 0 <= (i + 1) as int <= MAX_DIM as int, bnd > 0;
                    assert(a@.subrange(0, i + 1).drop_last() =~= pa);
                    assert(b@.subrange(0, i + 1).drop_last() =~= pb);
                    assert(a@.subrange(0, i + 1).last() == x);
                    assert(b@.subrange(0, i + 1).last() == y);
                }
                acc = acc + x * y;
                i = i + 1;
            }
            proof {
                assert(a@.subrange(0, n as int) =~= a@);
                assert(b@.subrange(0, n as int) =~= b@);
            }
            -acc
        },
        _ => {
            let mut acc: i64 = 0;
            let mut i: usize = 0;
            while i < n
                invariant
                    i <= n,
                    n == a@.len() == b@.len(),
                    n <= MAX_DIM,
                    bnd == COORD_BOUND as int,
                    valid_vec(a@, n as int, bnd),
                    valid_vec(b@, n as int, bnd),
                    acc as int == sq_l2(a@.subrange(0, i as int), b@.subrange(0, i as int)),
                    0 <= acc as int <= i as int * 4 * bnd * bnd,
                decreases n - i,
            {
                let ghost pa = a@.subrange(0, i as int);
                let ghost pb = b@.subrange(0, i as int);
                let x = a[i];
                let y = b[i];
                let diff = x - y;
                proof {
                    lemma_sq_l2_bounds(pa, pb, bnd);
                    assert(0 <= diff as int * diff as int <= 4 * bnd * bnd) by (nonlinear_arith)
                        requires -2 * bnd <= diff as int <= 2 * bnd, bnd > 0;
                    assert(i as int * 4 * bnd * bnd + 4 * bnd * bnd == (i + 1) as int * 4 * bnd * bnd)
                        by (nonlinear_arith);
                    assert((i + 1) as int * 4 * bnd * bnd <= MAX_DIM as int * 4 * bnd * bnd)
                        by (nonlinear_arith)
                        requires 0 <= (i + 1) as int <= MAX_DIM as int, bnd > 0;
                    assert(a@.subrange(0, i + 1).drop_last() =~= pa);
                    assert(b@.subrange(0, i + 1).drop_last() =~= pb);
                    assert(a@.subrange(0, i + 1).last() == x);
                    assert(b@.subrange(0, i + 1).last() == y);
                }
                acc = acc + diff * diff;
                i = i + 1;
            }
            proof {
                assert(a@.subrange(0, n as int) =~= a@);
                assert(b@.subrange(0, n as int) =~= b@);
            }
            acc
        },
    }
}

/// The index, among the first `n` centroids, of the centroid nearest to `v`;
/// ties go to the smaller index.
pub open spec fn nearest_in(dt: DistanceType, cents: Seq<Seq<i64>>, v: Seq<i64>, n: int) -> int
    decreases n,
{
    if n <= 1 {
        0
    } else {
        let p = nearest_in(dt, cents, v, n - 1);
        if dist_of(dt, cents[n - 1], v) < dist_of(dt, cents[p], v) {
            n - 1
        } else {
            p
        }
    }
}

/// The partition id of `v`: the index of its nearest centroid.
pub open spec fn nearest(dt: DistanceType, cents: Seq<Seq<i64>>, v: Seq<i64>) -> int {
    nearest_in(dt, cents, v, cents.len() as int)
}

/// `nearest` indeed names the first index of minimal distance.
pub proof fn lemma_nearest_in_is_min(dt: DistanceType, cents: Seq<Seq<i64>>, v: Seq<i64>, n: int)
    requires
        1 <= n <= cents.len(),
    ensures
        0 <= nearest_in(dt, cents, v, n) < n,
        forall|j: int| 0 <= j < n ==>
            dist_of(dt, cents[nearest_in(dt, cents, v, n)], v) <= dist_of(dt, #[trigger] cents[j], v),
        forall|j: int| 0 <= j < nearest_in(dt, cents, v, n) ==>
            dist_of(dt, #[trigger] cents[j], v) > dist_of(dt, cents[nearest_in(dt, cents, v, n)], v),
    decreases n,
{
    if n > 1 {
        lemma_nearest_in_is_min(dt, cents, v, n - 1);
    }
}

/// The partition invariant behind every `TransformedRecord`: the assigned
/// partition is a real partition, its centroid is at least as near to the
/// vector as every other centroid, and it is the first such centroid.
pub proof fn lemma_nearest_is_nearest(dt: DistanceType, cents: Seq<Seq<i64>>, v: Seq<i64>)
    requires
        cents.len() >= 1,
    ensures
        0 <= nearest(dt, cents, v) < cents.len(),
        forall|j: int| 0 <= j < cents.len() ==>
            dist_of(dt, cents[nearest(dt, cents, v)], v) <= dist_of(dt, #[trigger] cents[j], v),
        forall|j: int| 0 <= j < nearest(dt, cents, v) ==>
            dist_of(dt, #[trigger] cents[j], v) > dist_of(dt, cents[nearest(dt, cents, v)], v),
{
    lemma_nearest_in_is_min(dt, cents, v, cents.len() as int);
}

/// Finds, among `cents[lo..hi]`, the (first) entry nearest to `v`, returning
/// its offset within that range.
pub fn nearest_in_range(dt: DistanceType, cents: &Vec<Vec<i64>>, lo: usize, hi: usize, v: &Vec<i64>)
    -> (w: usize)
    requires
        lo < hi <= cents@.len(),
        v@.len() <= MAX_DIM,
        valid_vec(v@, v@.len() as int, COORD_BOUND as int),
        forall|j: int| lo <= j < hi ==>
            valid_vec(#[trigger] deep(cents@)[j], v@.len() as int, COORD_BOUND as int),
    ensures
        w < hi - lo,
        w as int == nearest(dt, deep(cents@).subrange(lo as int, hi as int), v@),
{
    let ghost window = deep(cents@).subrange(lo as int, hi as int);
    proof {
        assert(deep(cents@)[lo as int] == cents@[lo as int]@);
    }
    let mut best: usize = 0;
    let mut best_d: i64 = distance(dt, &cents[lo], v);
    let mut i: usize = 1;
    while lo + i < hi
        invariant
            1 <= i <= hi - lo,
            lo < hi <= cents@.len(),
            v@.len() <= MAX_DIM,
            valid_vec(v@, v@.len() as int, COORD_BOUND as int),
            forall|j: int| lo <= j < hi ==>
                valid_vec(#[trigger] deep(cents@)[j], v@.len() as int, COORD_BOUND as int),
            window == deep(cents@).subrange(lo as int, hi as int),
            best < i,
            best as int == nearest_in(dt, window, v@, i as int),
            best_d as int == dist_of(dt, window[best as int], v@),
        decreases hi - lo - i,
    {
        proof {
            assert(deep(cents@)[lo + i as int] == cents@[lo + i as int]@);
        }
        let d = distance(dt, &cents[lo + i], v);
        proof {
            assert(window[i as int] == cents@[lo + i as int]@);
        }
        if d < best_d {
            best = i;
            best_d = d;
        }
        i = i + 1;
    }
    best
}

} // verus!
