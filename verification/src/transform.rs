use vstd::prelude::*;
use crate::errors::IndexError;
use crate::model::{
    IvfModel, ProductQuantizer, TransformedRecord, valid_vec, deep, VEC_BOUND, COORD_BOUND,
};
use crate::distance::{nearest, nearest_in_range};
use crate::pq::{pq_code, residual, residual_of};
use crate::kmeans::copy_vec;

verus! {

/// An IVF model and a product quantizer may be paired in one build only if
/// they agree on dimension and distance metric.
pub open spec fn models_consistent(ivf: IvfModel, pq: ProductQuantizer) -> bool {
    ivf.dimension == pq.dimension && ivf.distance_type == pq.distance_type
}

/// What the quantizer encodes for vector `v`: its residual against the
/// nearest coarse centroid when the quantizer was trained on residuals, the
/// raw vector otherwise.
pub open spec fn encode_input(pq: ProductQuantizer, ivf: IvfModel, v: Seq<i64>) -> Seq<i64> {
    if pq.residual {
        residual_of(
            v,
            deep(ivf.centroids@)[nearest(ivf.distance_type, deep(ivf.centroids@), v)],
        )
    } else {
        v
    }
}

/// Transforms one batch of the dataset column: every vector is assigned to
/// its nearest IVF partition and product-quantized, yielding one
/// `TransformedRecord` per row, in row order.  A vector of the wrong width
/// aborts the whole batch with `DimensionMismatch`; models that disagree on
/// metric or dimension abort with `ModelConsistency`.
pub fn transform_vectors(
    vectors: &Vec<Vec<i64>>,
    row_ids: &Vec<u64>,
    ivf: &IvfModel,
    pq: &ProductQuantizer,
) -> (r: Result<Vec<TransformedRecord>, IndexError>)
    requires
        ivf.wf(),
        pq.wf(),
        row_ids@.len() == vectors@.len(),
        forall|i: int, j: int|
            0 <= i < vectors@.len() && 0 <= j < vectors@[i]@.len() ==>
                -VEC_BOUND <= #[trigger] vectors@[i]@[j] <= VEC_BOUND,
    ensures
        r == Err::<Vec<TransformedRecord>, IndexError>(IndexError::ModelConsistency)
            <==> !models_consistent(*ivf, *pq),
        r == Err::<Vec<TransformedRecord>, IndexError>(IndexError::DimensionMismatch)
            <==> models_consistent(*ivf, *pq)
                && (exists|i: int| 0 <= i < vectors@.len()
                    && #[trigger] vectors@[i]@.len() != ivf.dimension),
        r is Err ==> (r->Err_0 == IndexError::ModelConsistency
            || r->Err_0 == IndexError::DimensionMismatch),
        r is Ok ==> {
            let recs = r->Ok_0;
            &&& recs@.len() == vectors@.len()
            &&& forall|i: int| 0 <= i < recs@.len()
                ==> (#[trigger] recs@[i])@.row_id == row_ids@[i]
            &&& forall|i: int| 0 <= i < recs@.len()
                ==> (#[trigger] recs@[i])@.partition_id as int
                    == nearest(ivf.distance_type, deep(ivf.centroids@), vectors@[i]@)
            &&& forall|i: int| 0 <= i < recs@.len()
                ==> (#[trigger] recs@[i])@.code
                    == pq_code(*pq, encode_input(*pq, *ivf, vectors@[i]@))
            &&& forall|i: int| 0 <= i < recs@.len()
                ==> (#[trigger] recs@[i])@.partition_id < ivf.centroids@.len()
        },
{
    if ivf.dimension != pq.dimension || ivf.distance_type != pq.distance_type {
        return Err(IndexError::ModelConsistency);
    }
    let dim = ivf.dimension;
    let mut i: usize = 0;
    while i < vectors.len()
        invariant
            i <= vectors@.len(),
            models_consistent(*ivf, *pq),
            dim == ivf.dimension,
            forall|q: int| 0 <= q < i ==> #[trigger] vectors@[q]@.len() == dim,
        decreases vectors@.len() - i,
    {
        if vectors[i].len() != dim {
            return Err(IndexError::DimensionMismatch);
        }
        i = i + 1;
    }
    let p_count = ivf.centroids.len();
    let mut recs: Vec<TransformedRecord> = Vec::new();
    let mut v: usize = 0;
    while v < vectors.len()
        invariant
            v <= vectors@.len() == row_ids@.len(),
            ivf.wf(),
            pq.wf(),
            models_consistent(*ivf, *pq),
            dim == ivf.dimension,
            p_count == ivf.centroids@.len(),
            forall|q: int| 0 <= q < vectors@.len() ==> #[trigger] vectors@[q]@.len() == dim,
            forall|i2: int, j: int|
                0 <= i2 < vectors@.len() && 0 <= j < vectors@[i2]@.len() ==>
                    -VEC_BOUND <= #[trigger] vectors@[i2]@[j] <= VEC_BOUND,
            recs@.len() == v,
            forall|q: int| 0 <= q < v
                ==> (#[trigger] recs@[q])@.row_id == row_ids@[q],
            forall|q: int| 0 <= q < v
                ==> (#[trigger] recs@[q])@.partition_id as int
                    == nearest(ivf.distance_type, deep(ivf.centroids@), vectors@[q]@),
            forall|q: int| 0 <= q < v
                ==> (#[trigger] recs@[q])@.code
                    == pq_code(*pq, encode_input(*pq, *ivf, vectors@[q]@)),
            forall|q: int| 0 <= q < v
                ==> (#[trigger] recs@[q])@.partition_id < p_count,
        decreases vectors@.len() - v,
    {
        proof {
            assert(deep(vectors@)[v as int] == vectors@[v as int]@);
            assert(valid_vec(vectors@[v as int]@, dim as int, VEC_BOUND as int));
        }
        let p = nearest_in_range(ivf.distance_type, &ivf.centroids, 0, p_count, &vectors[v]);
        proof {
            assert(deep(ivf.centroids@).subrange(0, p_count as int) =~= deep(ivf.centroids@));
            assert(deep(ivf.centroids@)[p as int] == ivf.centroids@[p as int]@);
            assert(valid_vec(ivf.centroids@[p as int]@, dim as int, VEC_BOUND as int));
        }
        let input: Vec<i64> = if pq.residual {
            residual(&vectors[v], &ivf.centroids[p])
        } else {
            copy_vec(&vectors[v])
        };
        proof {
            assert(input@ == encode_input(*pq, *ivf, vectors@[v as int]@));
            assert(valid_vec(input@, pq.dimension as int, COORD_BOUND as int));
        }
        let code = pq.encode(&input);
        let rec = TransformedRecord { row_id: row_ids[v], partition_id: p as u32, code };
        recs.push(rec);
        v = v + 1;
    }
    Ok(recs)
}

} // verus!
