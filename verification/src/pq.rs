use vstd::prelude::*;
use crate::model::{ProductQuantizer, valid_vec, deep, VEC_BOUND, COORD_BOUND, CODES_PER_SLOT};
use crate::distance::{sq_l2, nearest, nearest_in_range, lemma_sq_l2_bounds};

verus! {

/// The residual of a vector against a centroid: the componentwise
/// difference, which stays within `COORD_BOUND` for in-range inputs.
pub open spec fn residual_of(v: Seq<i64>, c: Seq<i64>) -> Seq<i64> {
    Seq::new(v.len(), |i: int| (v[i] - c[i]) as i64)
}

/// Computes the residual of `v` against `c`.
pub fn residual(v: &Vec<i64>, c: &Vec<i64>) -> (r: Vec<i64>)
    requires
        v@.len() == c@.len(),
        valid_vec(v@, v@.len() as int, VEC_BOUND as int),
        valid_vec(c@, c@.len() as int, VEC_BOUND as int),
    ensures
        r@ == residual_of(v@, c@),
        valid_vec(r@, v@.len() as int, COORD_BOUND as int),
{
    let mut r: Vec<i64> = Vec::new();
    let mut i: usize = 0;
    while i < v.len()
        invariant
            i <= v@.len() == c@.len(),
            valid_vec(v@, v@.len() as int, VEC_BOUND as int),
            valid_vec(c@, c@.len() as int, VEC_BOUND as int),
            r@.len() == i,
            forall|q: int| 0 <= q < i ==> #[trigger] r@[q] == residual_of(v@, c@)[q],
        decreases v@.len() - i,
    {
        r.push(v[i] - c[i]);
        i = i + 1;
    }
    proof {
        assert(r@ =~= residual_of(v@, c@));
        assert forall|q: int| 0 <= q < r@.len() implies
            -COORD_BOUND <= #[trigger] r@[q] <= COORD_BOUND by {
        }
    }
    r
}

/// The sub-centroids of subvector slot `j`.
pub open spec fn slot_entries(pq: ProductQuantizer, j: int) -> Seq<Seq<i64>> {
    deep(pq.codebook@).subrange(j * CODES_PER_SLOT as int, (j + 1) * CODES_PER_SLOT as int)
}

/// The `j`-th contiguous subvector of `v`, of width `sd`.
pub open spec fn subvector(v: Seq<i64>, j: int, sd: int) -> Seq<i64> {
    v.subrange(j * sd, (j + 1) * sd)
}

/// The product-quantized code of `v`: per slot, the index of the nearest
/// sub-centroid, emitted as one byte.
pub open spec fn pq_code(pq: ProductQuantizer, v: Seq<i64>) -> Seq<u8> {
    Seq::new(
        pq.num_subvectors as nat,
        |j: int| nearest(pq.distance_type, slot_entries(pq, j), subvector(v, j, pq.sub_dim())) as u8,
    )
}

/// The reconstruction of a code: per slot, the chosen sub-centroid, spliced
/// back into one vector of the full dimension.
pub open spec fn pq_decoded(pq: ProductQuantizer, code: Seq<u8>) -> Seq<i64> {
    Seq::new(
        pq.dimension as nat,
        |i: int|
            deep(pq.codebook@)[
                (i / pq.sub_dim()) * CODES_PER_SLOT as int + code[i / pq.sub_dim()]
            ][i % pq.sub_dim()],
    )
}

/// Division facts for splicing flat positions into (slot, offset) pairs.
proof fn lemma_divmod_in_slot(sd: int, j: int, t: int)
    requires
        1 <= sd,
        0 <= j,
        0 <= t < sd,
    ensures
        (j * sd + t) / sd == j,
        (j * sd + t) % sd == t,
{
    assert((j * sd + t) / sd == j && (j * sd + t) % sd == t) by (nonlinear_arith)
        requires 1 <= sd, 0 <= j, 0 <= t, t < sd;
}

proof fn lemma_div_range(sd: int, m: int, i: int)
    requires
        1 <= sd,
        1 <= m,
        0 <= i < m * sd,
    ensures
        0 <= i / sd < m,
        0 <= i % sd < sd,
{
    assert(0 <= i / sd && i / sd < m && 0 <= i % sd < sd) by (nonlinear_arith)
        requires 1 <= sd, 1 <= m, 0 <= i, i < m * sd;
}

/// `dimension == num_subvectors * sub_dim()` for a well-formed quantizer.
pub proof fn lemma_dim_splits(pq: ProductQuantizer)
    requires
        pq.wf(),
    ensures
        pq.dimension as int == pq.num_subvectors as int * pq.sub_dim(),
        1 <= pq.sub_dim(),
{
    let d = pq.dimension as int;
    let m = pq.num_subvectors as int;
    assert(d == m * (d / m) && 1 <= d / m) by (nonlinear_arith)
        requires 1 <= m <= d, d % m == 0;
}

impl ProductQuantizer {
    /// Encodes one vector: per slot, an exhaustive nearest-sub-centroid
    /// search over the 256 codebook entries of that slot, one byte out.
    pub fn encode(&self, v: &Vec<i64>) -> (code: Vec<u8>)
        requires
            self.wf(),
            valid_vec(v@, self.dimension as int, COORD_BOUND as int),
        ensures
            code@ == pq_code(*self, v@),
    {
        let m = self.num_subvectors;
        let sd = self.dimension / m;
        proof {
            lemma_dim_splits(*self);
        }
        let mut code: Vec<u8> = Vec::new();
        let mut j: usize = 0;
        while j < m
            invariant
                j <= m,
                self.wf(),
                m == self.num_subvectors,
                sd as int == self.sub_dim(),
                self.dimension as int == m as int * sd as int,
                1 <= sd,
                valid_vec(v@, self.dimension as int, COORD_BOUND as int),
                code@.len() == j,
                forall|q: int| 0 <= q < j ==> code@[q] == pq_code(*self, v@)[q],
            decreases m - j,
        {
            proof {
                assert((j + 1) as int * sd as int <= m as int * sd as int) by (nonlinear_arith)
                    requires 0 <= j as int, (j as int) < m as int, 1 <= sd as int;
            }
            let mut sub: Vec<i64> = Vec::new();
            let mut t: usize = 0;
            while t < sd
                invariant
                    t <= sd,
                    j < m,
                    (j + 1) as int * sd as int <= m as int * sd as int,
                    self.dimension as int == m as int * sd as int,
                    1 <= sd,
                    valid_vec(v@, self.dimension as int, COORD_BOUND as int),
                    sub@.len() == t,
                    forall|q: int| 0 <= q < t ==> sub@[q] == v@[j as int * sd as int + q],
                decreases sd - t,
            {
                proof {
                    assert((j as int * sd as int + t as int) < (j + 1) as int * sd as int)
                        by (nonlinear_arith)
                        requires 0 <= t as int, (t as int) < sd as int, 0 <= j as int;
                    assert(0 <= j as int * sd as int) by (nonlinear_arith)
                        requires 0 <= j as int, 1 <= sd as int;
                }
                sub.push(v[j * sd + t]);
                t = t + 1;
            }
            proof {
                assert(0 <= j as int * sd as int) by (nonlinear_arith)
                    requires 0 <= j as int, 1 <= sd as int;
                assert(j as int * sd as int + sd as int == (j + 1) as int * sd as int)
                    by (nonlinear_arith);
                assert(sd as int <= m as int * sd as int) by (nonlinear_arith)
                    requires 1 <= m as int, 1 <= sd as int;
                assert(sub@ =~= subvector(v@, j as int, sd as int));
                assert((j + 1) as int * CODES_PER_SLOT as int
                    <= self.num_subvectors as int * CODES_PER_SLOT as int) by (nonlinear_arith)
                    requires 0 <= j as int, (j as int) < self.num_subvectors as int;
                assert(0 <= j as int * CODES_PER_SLOT as int) by (nonlinear_arith)
                    requires 0 <= j as int;
                assert(j as int * CODES_PER_SLOT as int + CODES_PER_SLOT as int
                    == (j + 1) as int * CODES_PER_SLOT as int);
                assert forall|x: int|
                    j as int * CODES_PER_SLOT as int <= x
                        && x < (j + 1) as int * CODES_PER_SLOT as int implies
                    valid_vec(#[trigger] deep(self.codebook@)[x], sd as int, COORD_BOUND as int)
                by {
                    assert(valid_vec(deep(self.codebook@)[x], self.sub_dim(), COORD_BOUND as int));
                }
            }
            let w = nearest_in_range(
                self.distance_type,
                &self.codebook,
                j * CODES_PER_SLOT,
                (j + 1) * CODES_PER_SLOT,
                &sub,
            );
            proof {
                assert(slot_entries(*self, j as int)
                    =~= deep(self.codebook@).subrange(
                        j as int * CODES_PER_SLOT as int,
                        (j + 1) as int * CODES_PER_SLOT as int,
                    ));
            }
            let b: u8 = w as u8;
            code.push(b);
            proof {
                assert(code@[j as int] == pq_code(*self, v@)[j as int]);
            }
            j = j + 1;
        }
        proof {
            assert(code@ =~= pq_code(*self, v@));
        }
        code
    }

    /// Decodes a code back to a vector: a direct table lookup per slot.
    pub fn decode(&self, code: &Vec<u8>) -> (r: Vec<i64>)
        requires
            self.wf(),
            code@.len() == self.num_subvectors,
        ensures
            r@ == pq_decoded(*self, code@),
    {
        let m = self.num_subvectors;
        let sd = self.dimension / m;
        proof {
            lemma_dim_splits(*self);
        }
        let mut r: Vec<i64> = Vec::new();
        let mut j: usize = 0;
        while j < m
            invariant
                j <= m,
                self.wf(),
                m == self.num_subvectors,
                sd as int == self.sub_dim(),
                self.dimension as int == m as int * sd as int,
                1 <= sd,
                code@.len() == m,
                r@.len() == j as int * sd as int,
                forall|i: int| 0 <= i < j as int * sd as int ==>
                    r@[i] == pq_decoded(*self, code@)[i],
            decreases m - j,
        {
            proof {
                assert((j + 1) as int * CODES_PER_SLOT as int
                    <= m as int * CODES_PER_SLOT as int) by (nonlinear_arith)
                    requires 0 <= j as int, (j as int) < m as int;
                assert(0 <= j as int * CODES_PER_SLOT as int) by (nonlinear_arith)
                    requires 0 <= j as int;
                assert(j as int * CODES_PER_SLOT as int + (CODES_PER_SLOT as int - 1)
                    < (j + 1) as int * CODES_PER_SLOT as int);
                assert((j + 1) as int * sd as int <= m as int * sd as int) by (nonlinear_arith)
                    requires 0 <= j as int, (j as int) < m as int, 1 <= sd as int;
            }
            let e = j * CODES_PER_SLOT + (code[j] as usize);
            proof {
                assert(valid_vec(deep(self.codebook@)[e as int], sd as int, COORD_BOUND as int));
                assert(deep(self.codebook@)[e as int] == self.codebook@[e as int]@);
            }
            let entry = &self.codebook[e];
            let mut t: usize = 0;
            while t < sd
                invariant
                    t <= sd,
                    j < m,
                    m == self.num_subvectors,
                    sd as int == self.sub_dim(),
                    self.dimension as int == m as int * sd as int,
                    1 <= sd,
                    code@.len() == m,
                    e as int == j as int * CODES_PER_SLOT as int + code@[j as int],
                    entry@ == deep(self.codebook@)[e as int],
                    entry@.len() == sd,
                    r@.len() == j as int * sd as int + t as int,
                    forall|i: int| 0 <= i < j as int * sd as int + t as int ==>
                        r@[i] == pq_decoded(*self, code@)[i],
                decreases sd - t,
            {
                let ghost pos = j as int * sd as int + t as int;
                r.push(entry[t]);
                proof {
                    lemma_divmod_in_slot(sd as int, j as int, t as int);
                    assert(pos < self.dimension as int) by (nonlinear_arith)
                        requires
                            pos == j as int * sd as int + t as int,
                            self.dimension as int == m as int * sd as int,
                            0 <= j as int,
                            (j as int) < m as int,
                            0 <= t as int,
                            (t as int) < sd as int;
                    assert(pq_decoded(*self, code@)[pos]
                        == deep(self.codebook@)[e as int][t as int]);
                    assert(r@[pos] == entry@[t as int]);
                }
                t = t + 1;
            }
            proof {
                assert(j as int * sd as int + sd as int == (j + 1) as int * sd as int)
                    by (nonlinear_arith);
            }
            j = j + 1;
        }
        proof {
            assert(r@ =~= pq_decoded(*self, code@));
        }
        r
    }
}

/// Encoding then decoding is lossy but bounded: the squared reconstruction
/// error never exceeds `dimension * (2 * COORD_BOUND)^2`, for every vector in
/// range.  In particular the reconstruction is always a well-defined bounded
/// vector of the full dimension.
pub proof fn lemma_reconstruction_bounded(pq: ProductQuantizer, v: Seq<i64>)
    requires
        pq.wf(),
        valid_vec(v, pq.dimension as int, COORD_BOUND as int),
    ensures
        pq_decoded(pq, pq_code(pq, v)).len() == pq.dimension,
        valid_vec(pq_decoded(pq, pq_code(pq, v)), pq.dimension as int, COORD_BOUND as int),
        0 <= sq_l2(v, pq_decoded(pq, pq_code(pq, v)))
            <= pq.dimension as int * 4 * COORD_BOUND as int * COORD_BOUND as int,
{
    lemma_dim_splits(pq);
    let sd = pq.sub_dim();
    let m = pq.num_subvectors as int;
    let code = pq_code(pq, v);
    let dec = pq_decoded(pq, code);
    assert forall|i: int| 0 <= i < dec.len() implies
        -COORD_BOUND as int <= #[trigger] dec[i] <= COORD_BOUND as int by {
        lemma_div_range(sd, m, i);
        let j = i / sd;
        let c = code[j] as int;
        assert(0 <= j * CODES_PER_SLOT as int + c
            && j * CODES_PER_SLOT as int + c < m * CODES_PER_SLOT as int) by (nonlinear_arith)
            requires 0 <= j, j < m, 0 <= c, c < CODES_PER_SLOT as int;
        assert(valid_vec(
            deep(pq.codebook@)[j * CODES_PER_SLOT as int + c],
            sd,
            COORD_BOUND as int,
        ));
    }
    lemma_sq_l2_bounds(v, dec, COORD_BOUND as int);
}

} // verus!
