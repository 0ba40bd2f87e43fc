use vstd::prelude::*;

verus! {

/// Largest magnitude allowed for a raw vector component.  Components are
/// fixed-point integers; the bound keeps every squared distance inside `i64`.
pub const VEC_BOUND: i64 = 1048576;

/// Largest magnitude allowed for a component of a residual (a raw vector
/// minus a centroid) and of a codebook sub-centroid: twice `VEC_BOUND`.
pub const COORD_BOUND: i64 = 2097152;

/// Largest vector dimension the pipeline accepts.
pub const MAX_DIM: usize = 65536;

/// Largest number of coarse partitions the pipeline accepts.
pub const MAX_PARTITIONS: usize = 65536;

/// Largest number of training samples one call accepts.
pub const MAX_SAMPLES: usize = 1073741824;

/// Number of sub-centroids per subvector slot: 2^8, since codes are one byte.
pub const CODES_PER_SLOT: usize = 256;

/// The enumerated distance metric, selected once per build.  The IVF and PQ
/// stages of one build must use the same metric.  Under `Cosine` the inputs
/// are taken as pre-normalized, so assignment reduces to squared Euclidean
/// distance on them.
#[derive(Clone, Copy, Debug, PartialEq, Eq, Structural)]
pub enum DistanceType {
    L2,
    Cosine,
    Dot,
}

/// A sequence of vectors seen as a sequence of mathematical sequences.
pub open spec fn deep(s: Seq<Vec<i64>>) -> Seq<Seq<i64>> {
    Seq::new(s.len(), |i: int| s[i]@)
}

/// `v` has exactly `dim` components, each of magnitude at most `bound`.
pub open spec fn valid_vec(v: Seq<i64>, dim: int, bound: int) -> bool {
    v.len() == dim && forall|i: int| 0 <= i < v.len() ==> -bound <= #[trigger] v[i] <= bound
}

/// Every vector of `s` is a valid vector of dimension `dim`.
pub open spec fn valid_vecs(s: Seq<Seq<i64>>, dim: int, bound: int) -> bool {
    forall|i: int| 0 <= i < s.len() ==> valid_vec(#[trigger] s[i], dim, bound)
}

/// One transformed row: the stable dataset row id, the coarse partition the
/// source vector was assigned to, and its product-quantized code bytes.
pub struct TransformedRecord {
    pub row_id: u64,
    pub partition_id: u32,
    pub code: Vec<u8>,
}

/// The mathematical value of a `TransformedRecord`.
#[verifier::ext_equal]
pub ghost struct RecView {
    pub row_id: u64,
    pub partition_id: u32,
    pub code: Seq<u8>,
}

impl View for TransformedRecord {
    type V = RecView;

    open spec fn view(&self) -> RecView {
        RecView { row_id: self.row_id, partition_id: self.partition_id, code: self.code@ }
    }
}

impl Clone for TransformedRecord {
    fn clone(&self) -> (r: Self)
        ensures
            r@ == self@,
    {
        let mut code: Vec<u8> = Vec::new();
        let mut i: usize = 0;
        while i < self.code.len()
            invariant
                i <= self.code.len(),
                code@ == self.code@.subrange(0, i as int),
            decreases self.code.len() - i,
        {
            code.push(self.code[i]);
            i = i + 1;
        }
        proof {
            assert(code@ =~= self.code@);
        }
        TransformedRecord { row_id: self.row_id, partition_id: self.partition_id, code }
    }
}

/// The records of a vector of `TransformedRecord`s, as mathematical values.
pub open spec fn recs_view(v: Seq<TransformedRecord>) -> Seq<RecView> {
    Seq::new(v.len(), |i: int| v[i]@)
}

/// The coarse model: `P` ordered centroids whose order is the partition-id
/// space, plus per-partition record offsets and counts that stay empty until
/// the final merge stage populates them, exactly once.
pub struct IvfModel {
    pub dimension: usize,
    pub distance_type: DistanceType,
    pub centroids: Vec<Vec<i64>>,
    pub offsets: Vec<u64>,
    pub lengths: Vec<u64>,
}

impl IvfModel {
    /// Well-formedness: a trained model has at least one centroid, every
    /// centroid has the declared dimension with bounded components, and
    /// `offsets`/`lengths` are either still empty or one entry per partition.
    pub open spec fn wf(self) -> bool {
        &&& 1 <= self.dimension <= MAX_DIM
        &&& 1 <= self.centroids@.len() <= MAX_PARTITIONS
        &&& valid_vecs(deep(self.centroids@), self.dimension as int, VEC_BOUND as int)
        &&& (self.offsets@.len() == 0 || self.offsets@.len() == self.centroids@.len())
        &&& self.lengths@.len() == self.offsets@.len()
    }

    /// The model before the merge stage has run: no offsets, no lengths.
    pub open spec fn untrained_layout(self) -> bool {
        self.offsets@.len() == 0 && self.lengths@.len() == 0
    }

    /// The number of coarse partitions.
    pub fn num_partitions(&self) -> (n: usize)
        ensures
            n == self.centroids@.len(),
    {
        self.centroids.len()
    }
}

/// The product quantizer: an `num_subvectors x 256` codebook of sub-centroids
/// of dimension `dimension / num_subvectors`, stored slot-major in one flat
/// vector.  `residual` records explicitly whether the codebook was trained on
/// residuals against an `IvfModel`, so encoding must subtract the assigned
/// centroid first.
pub struct ProductQuantizer {
    pub num_subvectors: usize,
    pub num_bits: usize,
    pub dimension: usize,
    pub distance_type: DistanceType,
    pub residual: bool,
    pub codebook: Vec<Vec<i64>>,
}

impl ProductQuantizer {
    /// The dimension of one subvector slot.
    pub open spec fn sub_dim(self) -> int {
        self.dimension as int / self.num_subvectors as int
    }

    /// Well-formedness: 8-bit codes, the dimension splits evenly into
    /// subvectors, and the codebook holds exactly `num_subvectors * 256`
    /// sub-centroids of the slot dimension with bounded components.
    pub open spec fn wf(self) -> bool {
        &&& self.num_bits == 8
        &&& 1 <= self.num_subvectors <= self.dimension
        &&& self.dimension <= MAX_DIM
        &&& self.dimension as int % self.num_subvectors as int == 0
        &&& self.codebook@.len() == self.num_subvectors * CODES_PER_SLOT
        &&& valid_vecs(deep(self.codebook@), self.sub_dim(), COORD_BOUND as int)
    }
}

} // verus!
