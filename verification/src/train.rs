use vstd::prelude::*;
use crate::errors::IndexError;
use crate::model::{
    DistanceType, IvfModel, ProductQuantizer, valid_vec, valid_vecs, deep, VEC_BOUND, COORD_BOUND,
    MAX_DIM, MAX_PARTITIONS, MAX_SAMPLES, CODES_PER_SLOT,
};
use crate::distance::nearest_in_range;
use crate::kmeans::train_kmeans;
use crate::pq::residual;

verus! {

/// The canonical boundary name of each metric, as its ASCII bytes.
pub open spec fn metric_name(dt: DistanceType) -> Seq<u8> {
    match dt {
        DistanceType::L2 => seq!['l' as u8, '2' as u8],
        DistanceType::Cosine => seq![
            'c' as u8, 'o' as u8, 's' as u8, 'i' as u8, 'n' as u8, 'e' as u8,
        ],
        DistanceType::Dot => seq!['d' as u8, 'o' as u8, 't' as u8],
    }
}

/// The metric a boundary name denotes, if any.
pub open spec fn spec_parse_distance(s: Seq<u8>) -> Option<DistanceType> {
    if s == metric_name(DistanceType::L2) {
        Some(DistanceType::L2)
    } else if s == metric_name(DistanceType::Cosine) {
        Some(DistanceType::Cosine)
    } else if s == metric_name(DistanceType::Dot) {
        Some(DistanceType::Dot)
    } else {
        None
    }
}

fn slice_eq(s: &[u8], t: &Vec<u8>) -> (r: bool)
    ensures
        r <==> s@ == t@,
{
    if s.len() != t.len() {
        proof {
            assert(s@.len() != t@.len());
        }
        return false;
    }
    let mut i: usize = 0;
    while i < t.len()
        invariant
            i <= t@.len() == s@.len(),
            forall|q: int| 0 <= q < i ==> s@[q] == t@[q],
        decreases t@.len() - i,
    {
        if s[i] != t[i] {
            return false;
        }
        i = i + 1;
    }
    proof {
        assert(s@ =~= t@);
    }
    true
}

/// Parses the boundary's enumerated distance-metric name; an unrecognized
/// name fails with `Config`.
pub fn parse_distance_type(s: &[u8]) -> (r: Result<DistanceType, IndexError>)
    ensures
        r is Ok ==> spec_parse_distance(s@) == Some(r->Ok_0),
        r is Err ==> r == Err::<DistanceType, IndexError>(IndexError::Config)
            && spec_parse_distance(s@) is None,
{
    let mut l2: Vec<u8> = Vec::new();
    l2.push('l' as u8);
    l2.push('2' as u8);
    let mut cosine: Vec<u8> = Vec::new();
    cosine.push('c' as u8);
    cosine.push('o' as u8);
    cosine.push('s' as u8);
    cosine.push('i' as u8);
    cosine.push('n' as u8);
    cosine.push('e' as u8);
    let mut dot: Vec<u8> = Vec::new();
    dot.push('d' as u8);
    dot.push('o' as u8);
    dot.push('t' as u8);
    proof {
        assert(l2@ =~= metric_name(DistanceType::L2));
        assert(cosine@ =~= metric_name(DistanceType::Cosine));
        assert(dot@ =~= metric_name(DistanceType::Dot));
    }
    if slice_eq(s, &l2) {
        Ok(DistanceType::L2)
    } else if slice_eq(s, &cosine) {
        Ok(DistanceType::Cosine)
    } else if slice_eq(s, &dot) {
        Ok(DistanceType::Dot)
    } else {
        Err(IndexError::Config)
    }
}

/// The configuration checks shared by `train_ivf_model`'s contract and body.
pub open spec fn ivf_config_ok(
    s: Seq<u8>,
    dimension: usize,
    num_partitions: usize,
) -> bool {
    &&& spec_parse_distance(s) is Some
    &&& 1 <= dimension <= MAX_DIM
    &&& 1 <= num_partitions <= MAX_PARTITIONS
    &&& num_partitions * dimension <= MAX_SAMPLES
}

/// Trains the coarse IVF model: k-means over a bounded sample of the dataset
/// column, producing exactly `num_partitions` centroids of the declared
/// dimension whose stable order is the partition-id space of every later
/// stage.  `offsets` and `lengths` are left empty; only the final merge
/// stage populates them.
pub fn train_ivf_model(
    samples: &Vec<Vec<i64>>,
    dimension: usize,
    num_partitions: usize,
    distance_type: &[u8],
    max_iters: usize,
) -> (r: Result<IvfModel, IndexError>)
    requires
        samples@.len() <= MAX_SAMPLES,
        forall|i: int, j: int|
            0 <= i < samples@.len() && 0 <= j < samples@[i]@.len() ==>
                -VEC_BOUND <= #[trigger] samples@[i]@[j] <= VEC_BOUND,
    ensures
        r == Err::<IvfModel, IndexError>(IndexError::Config)
            <==> !ivf_config_ok(distance_type@, dimension, num_partitions),
        r == Err::<IvfModel, IndexError>(IndexError::DimensionMismatch)
            <==> ivf_config_ok(distance_type@, dimension, num_partitions)
                && (exists|i: int| 0 <= i < samples@.len()
                    && #[trigger] samples@[i]@.len() != dimension),
        ivf_config_ok(distance_type@, dimension, num_partitions)
            && (forall|i: int| 0 <= i < samples@.len()
                ==> #[trigger] samples@[i]@.len() == dimension)
            && samples@.len() < num_partitions
            ==> r == Err::<IvfModel, IndexError>(IndexError::Training),
        r is Err ==> (r->Err_0 == IndexError::Config
            || r->Err_0 == IndexError::DimensionMismatch
            || r->Err_0 == IndexError::Training),
        r is Ok ==> {
            let m = r->Ok_0;
            &&& m.wf()
            &&& m.centroids@.len() == num_partitions
            &&& m.dimension == dimension
            &&& Some(m.distance_type) == spec_parse_distance(distance_type@)
            &&& valid_vecs(deep(m.centroids@), dimension as int, VEC_BOUND as int)
            &&& m.untrained_layout()
        },
        ivf_config_ok(distance_type@, dimension, num_partitions)
            && (forall|i: int| 0 <= i < samples@.len()
                ==> #[trigger] samples@[i]@.len() == dimension)
            && samples@.len() >= num_partitions
            && max_iters == 0
            ==> r is Ok,
{
    let dt = match parse_distance_type(distance_type) {
        Ok(dt) => dt,
        Err(_) => {
            return Err(IndexError::Config);
        },
    };
    if dimension < 1 || dimension > MAX_DIM || num_partitions < 1
        || num_partitions > MAX_PARTITIONS {
        return Err(IndexError::Config);
    }
    proof {
        assert(num_partitions as int * dimension as int <= MAX_PARTITIONS as int * MAX_DIM as int)
            by (nonlinear_arith)
            requires
                1 <= num_partitions as int <= MAX_PARTITIONS as int,
                1 <= dimension as int <= MAX_DIM as int;
    }
    let prod: u64 = (num_partitions as u64) * (dimension as u64);
    if prod > MAX_SAMPLES as u64 {
        return Err(IndexError::Config);
    }
    let mut i: usize = 0;
    while i < samples.len()
        invariant
            i <= samples@.len(),
            ivf_config_ok(distance_type@, dimension, num_partitions),
            forall|q: int| 0 <= q < i ==> #[trigger] samples@[q]@.len() == dimension,
        decreases samples@.len() - i,
    {
        if samples[i].len() != dimension {
            return Err(IndexError::DimensionMismatch);
        }
        i = i + 1;
    }
    proof {
        assert(valid_vecs(deep(samples@), dimension as int, VEC_BOUND as int)) by {
            assert forall|q: int| 0 <= q < deep(samples@).len() implies
                valid_vec(#[trigger] deep(samples@)[q], dimension as int, VEC_BOUND as int) by {
                assert(deep(samples@)[q] == samples@[q]@);
            }
        }
    }
    let centroids = match train_kmeans(samples, num_partitions, dimension, dt, max_iters, VEC_BOUND) {
        Ok(c) => c,
        Err(e) => {
            return Err(e);
        },
    };
    Ok(IvfModel {
        dimension,
        distance_type: dt,
        centroids,
        offsets: Vec::new(),
        lengths: Vec::new(),
    })
}

/// The configuration checks shared by `train_pq_model`'s contract and body.
pub open spec fn pq_config_ok(s: Seq<u8>, dimension: usize, num_subvectors: usize) -> bool {
    &&& spec_parse_distance(s) is Some
    &&& 1 <= dimension <= MAX_DIM
    &&& 1 <= num_subvectors <= dimension
    &&& dimension as int % num_subvectors as int == 0
}

/// Trains the product quantizer: the (optionally residual) samples are split
/// into `num_subvectors` contiguous slots, and k-means with k = 256 runs
/// independently per slot, forming an `num_subvectors x 256` codebook.
/// A dimension that `num_subvectors` does not evenly divide fails with
/// `Config` and produces no codebook.  When an `IvfModel` is supplied,
/// training runs on residuals against its centroids and the result records
/// `residual == true`, so encoding subtracts the assigned centroid first.
pub fn train_pq_model(
    samples: &Vec<Vec<i64>>,
    dimension: usize,
    num_subvectors: usize,
    distance_type: &[u8],
    max_iters: usize,
    ivf: Option<&IvfModel>,
) -> (r: Result<ProductQuantizer, IndexError>)
    requires
        samples@.len() <= MAX_SAMPLES,
        forall|i: int, j: int|
            0 <= i < samples@.len() && 0 <= j < samples@[i]@.len() ==>
                -VEC_BOUND <= #[trigger] samples@[i]@[j] <= VEC_BOUND,
        ivf matches Some(m) ==> m.wf(),
    ensures
        r == Err::<ProductQuantizer, IndexError>(IndexError::Config)
            <==> !pq_config_ok(distance_type@, dimension, num_subvectors),
        r == Err::<ProductQuantizer, IndexError>(IndexError::ModelConsistency)
            <==> pq_config_ok(distance_type@, dimension, num_subvectors)
                && (ivf matches Some(m)
                    && !(m.dimension == dimension
                        && Some(m.distance_type) == spec_parse_distance(distance_type@))),
        r is Err ==> (r->Err_0 == IndexError::Config
            || r->Err_0 == IndexError::ModelConsistency
            || r->Err_0 == IndexError::DimensionMismatch
            || r->Err_0 == IndexError::Training),
        r is Ok ==> {
            let pq = r->Ok_0;
            &&& pq.wf()
            &&& pq.dimension == dimension
            &&& pq.num_subvectors == num_subvectors
            &&& pq.num_bits == 8
            &&& Some(pq.distance_type) == spec_parse_distance(distance_type@)
            &&& pq.residual == (ivf is Some)
        },
        pq_config_ok(distance_type@, dimension, num_subvectors)
            && (ivf matches Some(m) ==> (m.dimension == dimension
                && Some(m.distance_type) == spec_parse_distance(distance_type@)))
            && (forall|i: int| 0 <= i < samples@.len()
                ==> #[trigger] samples@[i]@.len() == dimension)
            && samples@.len() >= CODES_PER_SLOT
            && max_iters == 0
            ==> r is Ok,
{
    let dt = match parse_distance_type(distance_type) {
        Ok(dt) => dt,
        Err(_) => {
            return Err(IndexError::Config);
        },
    };
    if dimension < 1 || dimension > MAX_DIM || num_subvectors < 1 || num_subvectors > dimension
        || dimension % num_subvectors != 0 {
        return Err(IndexError::Config);
    }
    let use_residual = match ivf {
        Some(m) => {
            if !(m.dimension == dimension && m.distance_type == dt) {
                return Err(IndexError::ModelConsistency);
            }
            true
        },
        None => false,
    };
    let mut j: usize = 0;
    while j < samples.len()
        invariant
            j <= samples@.len(),
            pq_config_ok(distance_type@, dimension, num_subvectors),
            ivf matches Some(m) ==> (m.dimension == dimension
                && Some(m.distance_type) == spec_parse_distance(distance_type@)),
            forall|q: int| 0 <= q < j ==> #[trigger] samples@[q]@.len() == dimension,
        decreases samples@.len() - j,
    {
        if samples[j].len() != dimension {
            return Err(IndexError::DimensionMismatch);
        }
        j = j + 1;
    }
    // Training inputs: residuals against the assigned coarse centroid when an
    // IVF model was supplied, the raw samples otherwise.
    let mut inputs: Vec<Vec<i64>> = Vec::new();
    match ivf {
        Some(m) => {
            let mut s: usize = 0;
            while s < samples.len()
                invariant
                    s <= samples@.len() <= MAX_SAMPLES,
                    m.wf(),
                    m.dimension == dimension,
                    1 <= dimension <= MAX_DIM,
                    forall|i: int, jj: int|
                        0 <= i < samples@.len() && 0 <= jj < samples@[i]@.len() ==>
                            -VEC_BOUND <= #[trigger] samples@[i]@[jj] <= VEC_BOUND,
                    forall|q: int| 0 <= q < samples@.len()
                        ==> #[trigger] samples@[q]@.len() == dimension,
                    inputs@.len() == s,
                    valid_vecs(deep(inputs@), dimension as int, COORD_BOUND as int),
                decreases samples@.len() - s,
            {
                proof {
                    assert(deep(samples@)[s as int] == samples@[s as int]@);
                    assert(valid_vec(samples@[s as int]@, dimension as int, VEC_BOUND as int));
                }
                let p = nearest_in_range(dt, &m.centroids, 0, m.centroids.len(), &samples[s]);
                proof {
                    assert(valid_vec(deep(m.centroids@)[p as int], dimension as int,
                        VEC_BOUND as int));
                    assert(deep(m.centroids@)[p as int] == m.centroids@[p as int]@);
                }
                let res = residual(&samples[s], &m.centroids[p]);
                let ghost pre = inputs@;
                let ghost rv = res@;
                inputs.push(res);
                proof {
                    assert forall|q: int| 0 <= q < inputs@.len() implies
                        valid_vec(#[trigger] deep(inputs@)[q], dimension as int,
                            COORD_BOUND as int) by {
                        assert(deep(inputs@)[q] == inputs@[q]@);
                        if q < pre.len() {
                            assert(inputs@[q] == pre[q]);
                            assert(deep(pre)[q] == pre[q]@);
                        } else {
                            assert(inputs@[q]@ == rv);
                        }
                    }
                }
                s = s + 1;
            }
        },
        None => {
            let mut s: usize = 0;
            while s < samples.len()
                invariant
                    s <= samples@.len(),
                    1 <= dimension <= MAX_DIM,
                    forall|i: int, jj: int|
                        0 <= i < samples@.len() && 0 <= jj < samples@[i]@.len() ==>
                            -VEC_BOUND <= #[trigger] samples@[i]@[jj] <= VEC_BOUND,
                    forall|q: int| 0 <= q < samples@.len()
                        ==> #[trigger] samples@[q]@.len() == dimension,
                    inputs@.len() == s,
                    valid_vecs(deep(inputs@), dimension as int, COORD_BOUND as int),
                decreases samples@.len() - s,
            {
                let c = crate::kmeans::copy_vec(&samples[s]);
                let ghost pre = inputs@;
                let ghost cv = c@;
                inputs.push(c);
                proof {
                    assert forall|q: int| 0 <= q < inputs@.len() implies
                        valid_vec(#[trigger] deep(inputs@)[q], dimension as int,
                            COORD_BOUND as int) by {
                        assert(deep(inputs@)[q] == inputs@[q]@);
                        if q < pre.len() {
                            assert(inputs@[q] == pre[q]);
                            assert(deep(pre)[q] == pre[q]@);
                        } else {
                            assert(inputs@[q]@ == cv);
                            assert(cv == samples@[s as int]@);
                        }
                    }
                }
                s = s + 1;
            }
        },
    }
    let sd = dimension / num_subvectors;
    proof {
        let d = dimension as int;
        let mm = num_subvectors as int;
        assert(d == mm * (d / mm) && 1 <= d / mm && d / mm <= d) by (nonlinear_arith)
            requires 1 <= mm <= d, d % mm == 0;
    }
    // Per-slot k-means over the slot's subvectors of every input.
    let mut codebook: Vec<Vec<i64>> = Vec::new();
    let mut slot: usize = 0;
    while slot < num_subvectors
        invariant
            slot <= num_subvectors,
            inputs@.len() == samples@.len(),
            pq_config_ok(distance_type@, dimension, num_subvectors),
            ivf matches Some(m) ==> (m.dimension == dimension
                && Some(m.distance_type) == spec_parse_distance(distance_type@)),
            1 <= num_subvectors <= dimension <= MAX_DIM,
            sd as int == dimension as int / num_subvectors as int,
            dimension as int == num_subvectors as int * sd as int,
            1 <= sd <= MAX_DIM,
            inputs@.len() <= MAX_SAMPLES,
            valid_vecs(deep(inputs@), dimension as int, COORD_BOUND as int),
            codebook@.len() == slot * CODES_PER_SLOT,
            valid_vecs(deep(codebook@), sd as int, COORD_BOUND as int),
        decreases num_subvectors - slot,
    {
        let mut slot_samples: Vec<Vec<i64>> = Vec::new();
        let mut s: usize = 0;
        while s < inputs.len()
            invariant
                s <= inputs@.len() <= MAX_SAMPLES,
                slot < num_subvectors,
                dimension as int == num_subvectors as int * sd as int,
                1 <= sd,
                valid_vecs(deep(inputs@), dimension as int, COORD_BOUND as int),
                slot_samples@.len() == s,
                valid_vecs(deep(slot_samples@), sd as int, COORD_BOUND as int),
            decreases inputs@.len() - s,
        {
            proof {
                assert(deep(inputs@)[s as int] == inputs@[s as int]@);
                assert((slot + 1) as int * sd as int <= num_subvectors as int * sd as int)
                    by (nonlinear_arith)
                    requires 0 <= slot as int, (slot as int) < num_subvectors as int,
                        1 <= sd as int;
                assert(0 <= slot as int * sd as int) by (nonlinear_arith)
                    requires 0 <= slot as int, 1 <= sd as int;
                assert(slot as int * sd as int + sd as int == (slot + 1) as int * sd as int)
                    by (nonlinear_arith);
            }
            let mut sub: Vec<i64> = Vec::new();
            let mut t: usize = 0;
            while t < sd
                invariant
                    t <= sd,
                    s < inputs@.len(),
                    slot < num_subvectors,
                    dimension as int == num_subvectors as int * sd as int,
                    (slot + 1) as int * sd as int <= num_subvectors as int * sd as int,
                    1 <= sd,
                    valid_vecs(deep(inputs@), dimension as int, COORD_BOUND as int),
                    sub@.len() == t,
                    forall|q: int| 0 <= q < t
                        ==> sub@[q] == inputs@[s as int]@[slot as int * sd as int + q],
                decreases sd - t,
            {
                proof {
                    assert((slot as int * sd as int + t as int) < (slot + 1) as int * sd as int)
                        by (nonlinear_arith)
                        requires 0 <= t as int, (t as int) < sd as int, 0 <= slot as int;
                    assert(0 <= slot as int * sd as int) by (nonlinear_arith)
                        requires 0 <= slot as int, 1 <= sd as int;
                    assert(deep(inputs@)[s as int] == inputs@[s as int]@);
                }
                sub.push(inputs[s][slot * sd + t]);
                t = t + 1;
            }
            let ghost pre = slot_samples@;
            let ghost sv = sub@;
            slot_samples.push(sub);
            proof {
                assert forall|q: int| 0 <= q < slot_samples@.len() implies
                    valid_vec(#[trigger] deep(slot_samples@)[q], sd as int, COORD_BOUND as int)
                by {
                    assert(deep(slot_samples@)[q] == slot_samples@[q]@);
                    if q < pre.len() {
                        assert(slot_samples@[q] == pre[q]);
                        assert(deep(pre)[q] == pre[q]@);
                    } else {
                        assert(slot_samples@[q]@ == sv);
                        assert(deep(inputs@)[s as int] == inputs@[s as int]@);
                        assert(valid_vec(inputs@[s as int]@, dimension as int, COORD_BOUND as int));
                        assert forall|e: int| 0 <= e < sv.len() implies
                            -COORD_BOUND <= #[trigger] sv[e] <= COORD_BOUND by {
                            assert(sv[e] == inputs@[s as int]@[slot as int * sd as int + e]);
                            assert((slot as int * sd as int + e) < dimension as int)
                                by (nonlinear_arith)
                                requires
                                    0 <= e, e < sd as int, 0 <= slot as int,
                                    (slot as int) < num_subvectors as int,
                                    dimension as int == num_subvectors as int * sd as int,
                                    1 <= sd as int;
                            assert(0 <= slot as int * sd as int) by (nonlinear_arith)
                                requires 0 <= slot as int, 1 <= sd as int;
                        }
                    }
                }
            }
            s = s + 1;
        }
        let slot_cents = match train_kmeans(
            &slot_samples,
            CODES_PER_SLOT,
            sd,
            dt,
            max_iters,
            COORD_BOUND,
        ) {
            Ok(c) => c,
            Err(e) => {
                return Err(e);
            },
        };
        let mut e: usize = 0;
        let mut slot_cents = slot_cents;
        let ghost pre_len = codebook@.len();
        while e < CODES_PER_SLOT
            invariant
                e <= CODES_PER_SLOT,
                slot_cents@.len() + e == CODES_PER_SLOT,
                1 <= sd <= MAX_DIM,
                valid_vecs(deep(slot_cents@), sd as int, COORD_BOUND as int),
                codebook@.len() == pre_len + e,
                valid_vecs(deep(codebook@), sd as int, COORD_BOUND as int),
            decreases CODES_PER_SLOT - e,
        {
            let ghost pre_s = slot_cents@;
            let c = slot_cents.remove(0);
            let ghost pre = codebook@;
            let ghost cv = c@;
            codebook.push(c);
            proof {
                assert(deep(pre_s)[0] == pre_s[0]@);
                assert(cv == pre_s[0]@);
                assert forall|q: int| 0 <= q < slot_cents@.len() implies
                    valid_vec(#[trigger] deep(slot_cents@)[q], sd as int, COORD_BOUND as int) by {
                    assert(deep(slot_cents@)[q] == slot_cents@[q]@);
                    assert(slot_cents@[q] == pre_s[q + 1]);
                    assert(deep(pre_s)[q + 1] == pre_s[q + 1]@);
                }
                assert forall|q: int| 0 <= q < codebook@.len() implies
                    valid_vec(#[trigger] deep(codebook@)[q], sd as int, COORD_BOUND as int) by {
                    assert(deep(codebook@)[q] == codebook@[q]@);
                    if q < pre.len() {
                        assert(codebook@[q] == pre[q]);
                        assert(deep(pre)[q] == pre[q]@);
                    } else {
                        assert(codebook@[q]@ == cv);
                    }
                }
            }
            e = e + 1;
        }
        proof {
            assert(slot as int * CODES_PER_SLOT as int + CODES_PER_SLOT as int
                == (slot + 1) as int * CODES_PER_SLOT as int);
        }
        slot = slot + 1;
    }
    let pq = ProductQuantizer {
        num_subvectors,
        num_bits: 8,
        dimension,
        distance_type: dt,
        residual: use_residual,
        codebook,
    };
    proof {
        assert(pq.sub_dim() == sd as int);
        assert(pq.wf());
    }
    Ok(pq)
}

} // verus!
