use vstd::prelude::*;
use crate::errors::IndexError;
use crate::model::{
    DistanceType, IvfModel, ProductQuantizer, TransformedRecord, valid_vec, valid_vecs, deep,
    VEC_BOUND, COORD_BOUND, MAX_DIM, MAX_PARTITIONS, MAX_SAMPLES, CODES_PER_SLOT,
};
use crate::transform::models_consistent;
use crate::format::{
    u64_le, le_val, i64_le, seq_u64_le, seq_i64_le, grid_le, magic, index_kind_name, dt_tag,
    dt_tag_of, encode_metadata, trailer_bytes, push_u64_le, push_u32_le, push_index_kind,
    kind_name_at, read_u64_le, read_u32_le, push_seq_u64, push_grid, lemma_u64_le_inverse,
    FORMAT_MAJOR, FORMAT_MINOR, META_SCHEMA_VERSION, TRAILER_LEN,
};

verus! {

/// The code bytes of one partition's records, concatenated in order.
pub open spec fn bucket_codes(b: Seq<TransformedRecord>) -> Seq<u8>
    decreases b.len(),
{
    if b.len() == 0 {
        Seq::empty()
    } else {
        bucket_codes(b.drop_last()) + b.last().code@
    }
}

/// The contiguous code section of the artifact: every partition's codes, in
/// partition order.
pub open spec fn code_section(bs: Seq<Vec<TransformedRecord>>) -> Seq<u8>
    decreases bs.len(),
{
    if bs.len() == 0 {
        Seq::empty()
    } else {
        code_section(bs.drop_last()) + bucket_codes(bs.last()@)
    }
}

/// The number of records over all buckets.
pub open spec fn total_records(bs: Seq<Vec<TransformedRecord>>) -> int
    decreases bs.len(),
{
    if bs.len() == 0 {
        0
    } else {
        total_records(bs.drop_last()) + bs.last()@.len()
    }
}

/// The sum of a sequence of counters.
pub open spec fn sum_u64(s: Seq<u64>) -> int
    decreases s.len(),
{
    if s.len() == 0 {
        0
    } else {
        sum_u64(s.drop_last()) + s.last()
    }
}

/// Merges the per-partition shuffle buckets into one sealed index artifact.
///
/// Partitions are processed strictly in partition-id order: each bucket's
/// code bytes are appended contiguously, and its record offset and count are
/// recorded in the returned model's `offsets` and `lengths`.  After the code
/// section comes the serialized metadata block, then the fixed trailer whose
/// recorded position lets a reader find the metadata without scanning.  The
/// model is returned by value with its layout filled, rather than mutated
/// in place, so no caller can alias a half-written model.
#[verifier::rlimit(100)]
pub fn load_shuffled_vectors(
    buckets: &Vec<Vec<TransformedRecord>>,
    ivf: IvfModel,
    pq: &ProductQuantizer,
    column: &Vec<u8>,
    dataset_version: u64,
) -> (r: Result<(Vec<u8>, IvfModel), IndexError>)
    requires
        ivf.wf(),
        pq.wf(),
        ivf.untrained_layout(),
        buckets@.len() == ivf.centroids@.len(),
        total_records(buckets@) <= MAX_SAMPLES,
    ensures
        r == Err::<(Vec<u8>, IvfModel), IndexError>(IndexError::ModelConsistency)
            <==> !models_consistent(ivf, *pq),
        r == Err::<(Vec<u8>, IvfModel), IndexError>(IndexError::DimensionMismatch)
            <==> models_consistent(ivf, *pq)
                && (exists|k: int, i: int|
                    0 <= k < buckets@.len() && 0 <= i < buckets@[k]@.len()
                        && (#[trigger] buckets@[k]@[i]).code@.len() != pq.num_subvectors),
        r is Err ==> (r->Err_0 == IndexError::ModelConsistency
            || r->Err_0 == IndexError::DimensionMismatch),
        r is Ok ==> {
            let bytes = r->Ok_0.0;
            let m = r->Ok_0.1;
            &&& m.wf()
            &&& m.centroids == ivf.centroids
            &&& m.dimension == ivf.dimension
            &&& m.distance_type == ivf.distance_type
            &&& m.offsets@.len() == buckets@.len()
            &&& m.lengths@.len() == buckets@.len()
            &&& m.offsets@[0] == 0
            &&& forall|k: int| 0 <= k < buckets@.len()
                ==> #[trigger] m.lengths@[k] == buckets@[k]@.len()
            &&& forall|k: int| 0 <= k < buckets@.len() - 1
                ==> #[trigger] m.offsets@[k + 1] == m.offsets@[k] + m.lengths@[k]
            &&& sum_u64(m.lengths@) == total_records(buckets@)
            &&& bytes@ == code_section(buckets@)
                + encode_metadata(m, *pq, column@, dataset_version)
                + trailer_bytes(code_section(buckets@).len() as u64)
        },
{
    if ivf.dimension != pq.dimension || ivf.distance_type != pq.distance_type {
        return Err(IndexError::ModelConsistency);
    }
    let m_sub = pq.num_subvectors;
    let mut k: usize = 0;
    while k < buckets.len()
        invariant
            k <= buckets@.len(),
            models_consistent(ivf, *pq),
            m_sub == pq.num_subvectors,
            forall|q: int, i: int|
                0 <= q < k && 0 <= i < buckets@[q]@.len()
                    ==> (#[trigger] buckets@[q]@[i]).code@.len() == m_sub,
        decreases buckets@.len() - k,
    {
        let bucket = &buckets[k];
        let mut i: usize = 0;
        while i < bucket.len()
            invariant
                i <= bucket@.len(),
                k < buckets@.len(),
                models_consistent(ivf, *pq),
                m_sub == pq.num_subvectors,
                bucket@ == buckets@[k as int]@,
                forall|q: int| 0 <= q < i
                    ==> (#[trigger] bucket@[q]).code@.len() == m_sub,
            decreases bucket@.len() - i,
        {
            if bucket[i].code.len() != m_sub {
                return Err(IndexError::DimensionMismatch);
            }
            i = i + 1;
        }
        k = k + 1;
    }
    // Code section, offsets and lengths, one partition at a time.
    let mut buf: Vec<u8> = Vec::new();
    let mut offsets: Vec<u64> = Vec::new();
    let mut lengths: Vec<u64> = Vec::new();
    let mut count: u64 = 0;
    let mut k: usize = 0;
    while k < buckets.len()
        invariant
            k <= buckets@.len(),
            total_records(buckets@) <= MAX_SAMPLES,
            offsets@.len() == k,
            lengths@.len() == k,
            k >= 1 ==> offsets@[0] == 0,
            forall|q: int| 0 <= q < k ==> #[trigger] lengths@[q] == buckets@[q]@.len(),
            forall|q: int| 0 <= q < k - 1
                ==> #[trigger] offsets@[q + 1] == offsets@[q] + lengths@[q],
            count as int == sum_u64(lengths@),
            count as int == total_records(buckets@.subrange(0, k as int)),
            k >= 1 ==> count as int == offsets@[k - 1] + lengths@[k - 1],
            buf@ == code_section(buckets@.subrange(0, k as int)),
        decreases buckets@.len() - k,
    {
        offsets.push(count);
        let bucket = &buckets[k];
        let ghost done = code_section(buckets@.subrange(0, k as int));
        let mut i: usize = 0;
        while i < bucket.len()
            invariant
                i <= bucket@.len(),
                k < buckets@.len(),
                bucket@ == buckets@[k as int]@,
                buf@ == done + bucket_codes(bucket@.subrange(0, i as int)),
            decreases bucket@.len() - i,
        {
            let code = &bucket[i].code;
            let ghost before = buf@;
            let mut b: usize = 0;
            while b < code.len()
                invariant
                    b <= code@.len(),
                    i < bucket@.len(),
                    bucket@ == buckets@[k as int]@,
                    code@ == bucket@[i as int].code@,
                    buf@ == before + code@.subrange(0, b as int),
                decreases code@.len() - b,
            {
                buf.push(code[b]);
                proof {
                    assert(buf@ =~= before + code@.subrange(0, b + 1));
                }
                b = b + 1;
            }
            proof {
                assert(code@.subrange(0, code@.len() as int) =~= code@);
                assert(bucket@.subrange(0, i + 1).drop_last() =~= bucket@.subrange(0, i as int));
                assert(bucket@.subrange(0, i + 1).last() == bucket@[i as int]);
                assert(buf@ =~= done + bucket_codes(bucket@.subrange(0, i + 1)));
            }
            i = i + 1;
        }
        proof {
            assert(bucket@.subrange(0, bucket@.len() as int) =~= bucket@);
            assert(buckets@.subrange(0, k + 1).drop_last() =~= buckets@.subrange(0, k as int));
            assert(buckets@.subrange(0, k + 1).last() == buckets@[k as int]);
            // the running count stays within the total, so the add below fits
            assert(total_records(buckets@.subrange(0, k + 1)) <= total_records(buckets@)) by {
                lemma_total_prefix(buckets@, k + 1);
            }
        }
        let len_k: u64 = bucket.len() as u64;
        let ghost pre_lengths = lengths@;
        lengths.push(len_k);
        count = count + len_k;
        proof {
            assert(lengths@.drop_last() =~= pre_lengths);
            assert(lengths@.last() == len_k);
            assert(sum_u64(lengths@) == sum_u64(pre_lengths) + len_k);
            assert(buf@ =~= code_section(buckets@.subrange(0, k + 1)));
        }
        k = k + 1;
    }
    proof {
        assert(buckets@.subrange(0, buckets@.len() as int) =~= buckets@);
    }
    let model = IvfModel {
        dimension: ivf.dimension,
        distance_type: ivf.distance_type,
        centroids: ivf.centroids,
        offsets,
        lengths,
    };
    let ghost code_sec = buf@;
    let meta_pos: usize = buf.len();
    // Metadata block: schema version, index kind, header words.
    push_u64_le(&mut buf, META_SCHEMA_VERSION);
    push_index_kind(&mut buf);
    push_u64_le(&mut buf, model.dimension as u64);
    push_u64_le(&mut buf, dt_tag_of(model.distance_type));
    push_u64_le(&mut buf, model.centroids.len() as u64);
    push_u64_le(&mut buf, pq.num_subvectors as u64);
    push_u64_le(&mut buf, pq.num_bits as u64);
    push_u64_le(&mut buf, if pq.residual { 1u64 } else { 0u64 });
    push_u64_le(&mut buf, dataset_version);
    push_u64_le(&mut buf, column.len() as u64);
    let mut c: usize = 0;
    let ghost before_col = buf@;
    while c < column.len()
        invariant
            c <= column@.len(),
            buf@ == before_col + column@.subrange(0, c as int),
        decreases column@.len() - c,
    {
        buf.push(column[c]);
        proof {
            assert(buf@ =~= before_col + column@.subrange(0, c + 1));
        }
        c = c + 1;
    }
    proof {
        assert(column@.subrange(0, column@.len() as int) =~= column@);
    }
    push_grid(&mut buf, &model.centroids);
    push_seq_u64(&mut buf, &model.offsets);
    push_seq_u64(&mut buf, &model.lengths);
    push_grid(&mut buf, &pq.codebook);
    proof {
        assert(buf@ =~= code_sec + encode_metadata(model, *pq, column@, dataset_version));
    }
    // Trailer.
    let ghost before_trailer = buf@;
    push_u64_le(&mut buf, meta_pos as u64);
    push_u32_le(&mut buf, FORMAT_MAJOR);
    push_u32_le(&mut buf, FORMAT_MINOR);
    buf.push('L' as u8);
    buf.push('A' as u8);
    buf.push('N' as u8);
    buf.push('C' as u8);
    proof {
        assert(buf@ =~= before_trailer + trailer_bytes(meta_pos as u64));
        assert(meta_pos as u64 == code_sec.len() as u64);
        assert(buf@ =~= code_sec + encode_metadata(model, *pq, column@, dataset_version)
            + trailer_bytes(code_sec.len() as u64));
    }
    Ok((buf, model))
}

/// A prefix never holds more records than the whole batch.
proof fn lemma_total_prefix(bs: Seq<Vec<TransformedRecord>>, n: int)
    requires
        0 <= n <= bs.len(),
    ensures
        total_records(bs.subrange(0, n)) <= total_records(bs),
        total_records(bs.subrange(0, n)) >= 0,
    decreases bs.len(),
{
    if n == bs.len() {
        assert(bs.subrange(0, n) =~= bs);
        lemma_total_nonneg(bs);
    } else {
        assert(bs.drop_last().subrange(0, n) =~= bs.subrange(0, n));
        lemma_total_prefix(bs.drop_last(), n);
    }
}

proof fn lemma_total_nonneg(bs: Seq<Vec<TransformedRecord>>)
    ensures
        total_records(bs) >= 0,
    decreases bs.len(),
{
    if bs.len() > 0 {
        lemma_total_nonneg(bs.drop_last());
    }
}

proof fn lemma_concat_parts(a1: Seq<u8>, b1: Seq<u8>, a2: Seq<u8>, b2: Seq<u8>)
    requires
        a1 + b1 == a2 + b2,
        b1.len() == b2.len(),
    ensures
        a1 == a2,
        b1 == b2,
{
    assert((a1 + b1).len() == a1.len() + b1.len());
    assert((a2 + b2).len() == a2.len() + b2.len());
    assert(a1.len() == a2.len());
    assert forall|i: int| 0 <= i < a1.len() implies a1[i] == a2[i] by {
        assert((a1 + b1)[i] == a1[i]);
        assert((a2 + b2)[i] == a2[i]);
    }
    assert(a1 =~= a2);
    assert forall|i: int| 0 <= i < b1.len() implies b1[i] == b2[i] by {
        assert((a1 + b1)[a1.len() + i] == b1[i]);
        assert((a2 + b2)[a2.len() + i] == b2[i]);
    }
    assert(b1 =~= b2);
}

proof fn lemma_seq_u64_le_len(s: Seq<u64>)
    ensures
        seq_u64_le(s).len() == 8 * s.len(),
    decreases s.len(),
{
    if s.len() > 0 {
        lemma_seq_u64_le_len(s.drop_last());
    }
}

proof fn lemma_seq_i64_le_len(s: Seq<i64>)
    ensures
        seq_i64_le(s).len() == 8 * s.len(),
    decreases s.len(),
{
    if s.len() > 0 {
        lemma_seq_i64_le_len(s.drop_last());
    }
}

proof fn lemma_grid_le_len(g: Seq<Seq<i64>>, width: int)
    requires
        forall|i: int| 0 <= i < g.len() ==> (#[trigger] g[i]).len() == width,
        width >= 0,
    ensures
        grid_le(g).len() == 8 * width * g.len(),
    decreases g.len(),
{
    if g.len() > 0 {
        lemma_grid_le_len(g.drop_last(), width);
        lemma_seq_i64_le_len(g.last());
        assert(8 * width * (g.len() - 1) + 8 * width == 8 * width * g.len()) by (nonlinear_arith);
    }
}

proof fn lemma_seq_u64_le_injective(s1: Seq<u64>, s2: Seq<u64>)
    requires
        s1.len() == s2.len(),
        seq_u64_le(s1) == seq_u64_le(s2),
    ensures
        s1 == s2,
    decreases s1.len(),
{
    if s1.len() > 0 {
        lemma_concat_parts(
            seq_u64_le(s1.drop_last()), u64_le(s1.last()),
            seq_u64_le(s2.drop_last()), u64_le(s2.last()),
        );
        crate::format::lemma_u64_le_val(s1.last());
        crate::format::lemma_u64_le_val(s2.last());
        assert(s1.last() == s2.last());
        lemma_seq_u64_le_injective(s1.drop_last(), s2.drop_last());
        assert forall|i: int| 0 <= i < s1.len() implies s1[i] == s2[i] by {
            if i < s1.len() - 1 {
                assert(s1.drop_last()[i] == s1[i]);
                assert(s2.drop_last()[i] == s2[i]);
            }
        }
        assert(s1 =~= s2);
    } else {
        assert(s1 =~= s2);
    }
}

proof fn lemma_seq_i64_le_injective(s1: Seq<i64>, s2: Seq<i64>)
    requires
        s1.len() == s2.len(),
        seq_i64_le(s1) == seq_i64_le(s2),
    ensures
        s1 == s2,
    decreases s1.len(),
{
    if s1.len() > 0 {
        lemma_concat_parts(
            seq_i64_le(s1.drop_last()), i64_le(s1.last()),
            seq_i64_le(s2.drop_last()), i64_le(s2.last()),
        );
        crate::format::lemma_u64_le_val(s1.last() as u64);
        crate::format::lemma_u64_le_val(s2.last() as u64);
        crate::format::lemma_i64_bits(s1.last());
        crate::format::lemma_i64_bits(s2.last());
        assert(s1.last() == s2.last());
        lemma_seq_i64_le_injective(s1.drop_last(), s2.drop_last());
        assert forall|i: int| 0 <= i < s1.len() implies s1[i] == s2[i] by {
            if i < s1.len() - 1 {
                assert(s1.drop_last()[i] == s1[i]);
                assert(s2.drop_last()[i] == s2[i]);
            }
        }
        assert(s1 =~= s2);
    } else {
        assert(s1 =~= s2);
    }
}

proof fn lemma_grid_le_injective(g1: Seq<Seq<i64>>, g2: Seq<Seq<i64>>, width: int)
    requires
        g1.len() == g2.len(),
        width >= 0,
        forall|i: int| 0 <= i < g1.len() ==> (#[trigger] g1[i]).len() == width,
        forall|i: int| 0 <= i < g2.len() ==> (#[trigger] g2[i]).len() == width,
        grid_le(g1) == grid_le(g2),
    ensures
        g1 == g2,
    decreases g1.len(),
{
    if g1.len() > 0 {
        lemma_seq_i64_le_len(g1.last());
        lemma_seq_i64_le_len(g2.last());
        lemma_concat_parts(
            grid_le(g1.drop_last()), seq_i64_le(g1.last()),
            grid_le(g2.drop_last()), seq_i64_le(g2.last()),
        );
        lemma_seq_i64_le_injective(g1.last(), g2.last());
        lemma_grid_le_injective(g1.drop_last(), g2.drop_last(), width);
        assert forall|i: int| 0 <= i < g1.len() implies g1[i] == g2[i] by {
            if i < g1.len() - 1 {
                assert(g1.drop_last()[i] == g1[i]);
                assert(g2.drop_last()[i] == g2[i]);
            }
        }
        assert(g1 =~= g2);
    } else {
        assert(g1 =~= g2);
    }
}

/// The metadata round-trip law: two well-formed model pairs whose metadata
/// blocks are byte-for-byte identical are the same models — same dimension,
/// metric, partition count, subvector count, residual flag, dataset version
/// and column name, with byte-for-byte identical centroids, offsets, lengths
/// and codebook.  Together with `read_index_metadata`'s guarantee that
/// whatever it returns re-encodes to the artifact's metadata block, reading
/// back a sealed artifact reproduces exactly the models it was sealed with.
#[verifier::rlimit(100)]
#[verifier::spinoff_prover]
pub proof fn lemma_metadata_encoding_injective(
    m1: IvfModel, pq1: ProductQuantizer, c1: Seq<u8>, v1: u64,
    m2: IvfModel, pq2: ProductQuantizer, c2: Seq<u8>, v2: u64,
)
    requires
        m1.wf(),
        pq1.wf(),
        models_consistent(m1, pq1),
        m1.offsets@.len() == m1.centroids@.len(),
        m2.wf(),
        pq2.wf(),
        models_consistent(m2, pq2),
        m2.offsets@.len() == m2.centroids@.len(),
        c1.len() <= u64::MAX,
        c2.len() <= u64::MAX,
        encode_metadata(m1, pq1, c1, v1) == encode_metadata(m2, pq2, c2, v2),
    ensures
        m1.dimension == m2.dimension,
        m1.distance_type == m2.distance_type,
        m1.centroids@.len() == m2.centroids@.len(),
        deep(m1.centroids@) == deep(m2.centroids@),
        m1.offsets@ == m2.offsets@,
        m1.lengths@ == m2.lengths@,
        pq1.num_subvectors == pq2.num_subvectors,
        pq1.residual == pq2.residual,
        deep(pq1.codebook@) == deep(pq2.codebook@),
        c1 == c2,
        v1 == v2,
{
    let e1 = encode_metadata(m1, pq1, c1, v1);
    let e2 = encode_metadata(m2, pq2, c2, v2);
    // Peel the trailing codebook grid is possible only once the header is
    // known equal, so first recover the eight header words.
    let h1 = u64_le(META_SCHEMA_VERSION) + index_kind_name()
        + u64_le(m1.dimension as u64) + u64_le(dt_tag(m1.distance_type))
        + u64_le(m1.centroids@.len() as u64) + u64_le(pq1.num_subvectors as u64)
        + u64_le(pq1.num_bits as u64) + u64_le(if pq1.residual { 1u64 } else { 0u64 })
        + u64_le(v1) + u64_le(c1.len() as u64);
    let h2 = u64_le(META_SCHEMA_VERSION) + index_kind_name()
        + u64_le(m2.dimension as u64) + u64_le(dt_tag(m2.distance_type))
        + u64_le(m2.centroids@.len() as u64) + u64_le(pq2.num_subvectors as u64)
        + u64_le(pq2.num_bits as u64) + u64_le(if pq2.residual { 1u64 } else { 0u64 })
        + u64_le(v2) + u64_le(c2.len() as u64);
    assert(e1.subrange(0, 84) =~= h1);
    assert(e2.subrange(0, 84) =~= h2);
    assert(h1 == h2);
    assert(h1.subrange(20, 28) =~= u64_le(m1.dimension as u64));
    assert(h2.subrange(20, 28) =~= u64_le(m2.dimension as u64));
    assert(h1.subrange(28, 36) =~= u64_le(dt_tag(m1.distance_type)));
    assert(h2.subrange(28, 36) =~= u64_le(dt_tag(m2.distance_type)));
    assert(h1.subrange(36, 44) =~= u64_le(m1.centroids@.len() as u64));
    assert(h2.subrange(36, 44) =~= u64_le(m2.centroids@.len() as u64));
    assert(h1.subrange(44, 52) =~= u64_le(pq1.num_subvectors as u64));
    assert(h2.subrange(44, 52) =~= u64_le(pq2.num_subvectors as u64));
    assert(h1.subrange(60, 68) =~= u64_le(if pq1.residual { 1u64 } else { 0u64 }));
    assert(h2.subrange(60, 68) =~= u64_le(if pq2.residual { 1u64 } else { 0u64 }));
    assert(h1.subrange(68, 76) =~= u64_le(v1));
    assert(h2.subrange(68, 76) =~= u64_le(v2));
    assert(h1.subrange(76, 84) =~= u64_le(c1.len() as u64));
    assert(h2.subrange(76, 84) =~= u64_le(c2.len() as u64));
    crate::format::lemma_u64_le_val(m1.dimension as u64);
    crate::format::lemma_u64_le_val(m2.dimension as u64);
    crate::format::lemma_u64_le_val(dt_tag(m1.distance_type));
    crate::format::lemma_u64_le_val(dt_tag(m2.distance_type));
    crate::format::lemma_u64_le_val(m1.centroids@.len() as u64);
    crate::format::lemma_u64_le_val(m2.centroids@.len() as u64);
    crate::format::lemma_u64_le_val(pq1.num_subvectors as u64);
    crate::format::lemma_u64_le_val(pq2.num_subvectors as u64);
    crate::format::lemma_u64_le_val(if pq1.residual { 1u64 } else { 0u64 });
    crate::format::lemma_u64_le_val(if pq2.residual { 1u64 } else { 0u64 });
    crate::format::lemma_u64_le_val(v1);
    crate::format::lemma_u64_le_val(v2);
    crate::format::lemma_u64_le_val(c1.len() as u64);
    crate::format::lemma_u64_le_val(c2.len() as u64);
    assert(m1.dimension == m2.dimension);
    assert(dt_tag(m1.distance_type) == dt_tag(m2.distance_type));
    assert(m1.distance_type == m2.distance_type);
    assert(m1.centroids@.len() == m2.centroids@.len());
    assert(pq1.num_subvectors == pq2.num_subvectors);
    assert(pq1.residual == pq2.residual);
    assert(v1 == v2);
    assert(c1.len() == c2.len());
    // Now peel the variable-length segments from the right, using the
    // segment lengths the header determines.
    let cbw = pq1.sub_dim();
    crate::pq::lemma_dim_splits(pq1);
    crate::pq::lemma_dim_splits(pq2);
    assert(pq1.sub_dim() == pq2.sub_dim());
    assert(forall|i: int| 0 <= i < deep(pq1.codebook@).len()
        ==> (#[trigger] deep(pq1.codebook@)[i]).len() == cbw);
    assert(forall|i: int| 0 <= i < deep(pq2.codebook@).len()
        ==> (#[trigger] deep(pq2.codebook@)[i]).len() == cbw);
    lemma_grid_le_len(deep(pq1.codebook@), cbw);
    lemma_grid_le_len(deep(pq2.codebook@), cbw);
    let p1a = h1 + c1 + grid_le(deep(m1.centroids@)) + seq_u64_le(m1.offsets@)
        + seq_u64_le(m1.lengths@);
    let p2a = h2 + c2 + grid_le(deep(m2.centroids@)) + seq_u64_le(m2.offsets@)
        + seq_u64_le(m2.lengths@);
    assert(e1 == p1a + grid_le(deep(pq1.codebook@)));
    assert(e2 == p2a + grid_le(deep(pq2.codebook@)));
    lemma_concat_parts(p1a, grid_le(deep(pq1.codebook@)), p2a, grid_le(deep(pq2.codebook@)));
    lemma_grid_le_injective(deep(pq1.codebook@), deep(pq2.codebook@), cbw);
    lemma_seq_u64_le_len(m1.lengths@);
    lemma_seq_u64_le_len(m2.lengths@);
    let p1b = h1 + c1 + grid_le(deep(m1.centroids@)) + seq_u64_le(m1.offsets@);
    let p2b = h2 + c2 + grid_le(deep(m2.centroids@)) + seq_u64_le(m2.offsets@);
    lemma_concat_parts(p1b, seq_u64_le(m1.lengths@), p2b, seq_u64_le(m2.lengths@));
    lemma_seq_u64_le_injective(m1.lengths@, m2.lengths@);
    lemma_seq_u64_le_len(m1.offsets@);
    lemma_seq_u64_le_len(m2.offsets@);
    let p1c = h1 + c1 + grid_le(deep(m1.centroids@));
    let p2c = h2 + c2 + grid_le(deep(m2.centroids@));
    lemma_concat_parts(p1c, seq_u64_le(m1.offsets@), p2c, seq_u64_le(m2.offsets@));
    lemma_seq_u64_le_injective(m1.offsets@, m2.offsets@);
    assert(forall|i: int| 0 <= i < deep(m1.centroids@).len()
        ==> (#[trigger] deep(m1.centroids@)[i]).len() == m1.dimension as int);
    assert(forall|i: int| 0 <= i < deep(m2.centroids@).len()
        ==> (#[trigger] deep(m2.centroids@)[i]).len() == m2.dimension as int);
    lemma_grid_le_len(deep(m1.centroids@), m1.dimension as int);
    lemma_grid_le_len(deep(m2.centroids@), m2.dimension as int);
    lemma_concat_parts(
        h1 + c1, grid_le(deep(m1.centroids@)),
        h2 + c2, grid_le(deep(m2.centroids@)),
    );
    lemma_grid_le_injective(deep(m1.centroids@), deep(m2.centroids@), m1.dimension as int);
    lemma_concat_parts(h1, c1, h2, c2);
}

proof fn lemma_seq_i64_le_index(s: Seq<i64>, t: int)
    requires
        0 <= t < s.len(),
    ensures
        seq_i64_le(s).subrange(8 * t, 8 * t + 8) == i64_le(s[t]),
    decreases s.len(),
{
    lemma_seq_i64_le_len(s);
    lemma_seq_i64_le_len(s.drop_last());
    if t == s.len() - 1 {
        assert(seq_i64_le(s).subrange(8 * t, 8 * t + 8) =~= i64_le(s.last()));
    } else {
        lemma_seq_i64_le_index(s.drop_last(), t);
        assert(seq_i64_le(s).subrange(8 * t, 8 * t + 8)
            =~= seq_i64_le(s.drop_last()).subrange(8 * t, 8 * t + 8));
    }
}

proof fn lemma_grid_le_row(g: Seq<Seq<i64>>, width: int, c: int)
    requires
        width >= 0,
        forall|i: int| 0 <= i < g.len() ==> (#[trigger] g[i]).len() == width,
        0 <= c < g.len(),
    ensures
        grid_le(g).subrange(8 * width * c, 8 * width * (c + 1)) == seq_i64_le(g[c]),
    decreases g.len(),
{
    lemma_grid_le_len(g, width);
    lemma_grid_le_len(g.drop_last(), width);
    lemma_seq_i64_le_len(g.last());
    assert(8 * width * (c + 1) == 8 * width * c + 8 * width) by (nonlinear_arith);
    if c == g.len() - 1 {
        assert(8 * width * c == 8 * width * (g.len() - 1)) by (nonlinear_arith)
            requires c == g.len() - 1;
        assert(grid_le(g).subrange(8 * width * c, 8 * width * (c + 1)) =~= seq_i64_le(g.last()));
    } else {
        lemma_grid_le_row(g.drop_last(), width, c);
        assert(8 * width * (c + 1) <= 8 * width * (g.len() - 1)) by (nonlinear_arith)
            requires c + 1 <= g.len() - 1, width >= 0;
        assert(grid_le(g).subrange(8 * width * c, 8 * width * (c + 1))
            =~= grid_le(g.drop_last()).subrange(8 * width * c, 8 * width * (c + 1)));
    }
}

/// `b` is the metadata block of the given well-formed, consistent models,
/// column name and dataset version.
pub open spec fn is_metadata_block(
    b: Seq<u8>,
    m: IvfModel,
    pq: ProductQuantizer,
    c: Seq<u8>,
    v: u64,
) -> bool {
    &&& m.wf()
    &&& pq.wf()
    &&& models_consistent(m, pq)
    &&& m.offsets@.len() == m.centroids@.len()
    &&& c.len() <= 65535
    &&& b == encode_metadata(m, pq, c, v)
}

/// `b` is a whole sealed artifact: an arbitrary code section `cs`, the
/// metadata block of the given models, and the trailer locating that block.
pub open spec fn is_sealed_artifact(
    b: Seq<u8>,
    m: IvfModel,
    pq: ProductQuantizer,
    c: Seq<u8>,
    v: u64,
    cs: Seq<u8>,
) -> bool {
    &&& m.wf()
    &&& pq.wf()
    &&& models_consistent(m, pq)
    &&& m.offsets@.len() == m.centroids@.len()
    &&& c.len() <= 65535
    &&& b == cs + encode_metadata(m, pq, c, v) + trailer_bytes(cs.len() as u64)
}

/// Field-by-field shape of a metadata block: where each header word, the
/// column name and each array section sit, and the block's total length.
#[verifier::rlimit(100)]
pub proof fn lemma_metadata_shape(m: IvfModel, pq: ProductQuantizer, c: Seq<u8>, v: u64)
    requires
        m.wf(),
        pq.wf(),
        models_consistent(m, pq),
        m.offsets@.len() == m.centroids@.len(),
        c.len() <= u64::MAX,
    ensures
        ({
            let e = encode_metadata(m, pq, c, v);
            let lc = grid_le(deep(m.centroids@)).len() as int;
            let lp = 8 * (m.centroids@.len() as int);
            let lb = grid_le(deep(pq.codebook@)).len() as int;
            let q0 = 84 + c.len() as int;
            &&& lc == 8 * (m.dimension as int) * (m.centroids@.len() as int)
            &&& lb == 8 * pq.sub_dim() * (pq.codebook@.len() as int)
            &&& e.len() == q0 + lc + lp + lp + lb
            &&& e.subrange(0, 8) == u64_le(META_SCHEMA_VERSION)
            &&& e.subrange(8, 20) == index_kind_name()
            &&& e.subrange(20, 28) == u64_le(m.dimension as u64)
            &&& e.subrange(28, 36) == u64_le(dt_tag(m.distance_type))
            &&& e.subrange(36, 44) == u64_le(m.centroids@.len() as u64)
            &&& e.subrange(44, 52) == u64_le(pq.num_subvectors as u64)
            &&& e.subrange(52, 60) == u64_le(pq.num_bits as u64)
            &&& e.subrange(60, 68) == u64_le(if pq.residual { 1u64 } else { 0u64 })
            &&& e.subrange(68, 76) == u64_le(v)
            &&& e.subrange(76, 84) == u64_le(c.len() as u64)
            &&& e.subrange(84, q0) == c
            &&& e.subrange(q0, q0 + lc) == grid_le(deep(m.centroids@))
            &&& e.subrange(q0 + lc, q0 + lc + lp) == seq_u64_le(m.offsets@)
            &&& e.subrange(q0 + lc + lp, q0 + lc + lp + lp) == seq_u64_le(m.lengths@)
            &&& e.subrange(q0 + lc + lp + lp, e.len() as int) == grid_le(deep(pq.codebook@))
        }),
{
    let e = encode_metadata(m, pq, c, v);
    crate::pq::lemma_dim_splits(pq);
    assert(forall|i: int| 0 <= i < deep(m.centroids@).len()
        ==> (#[trigger] deep(m.centroids@)[i]).len() == m.dimension as int);
    assert(forall|i: int| 0 <= i < deep(pq.codebook@).len()
        ==> (#[trigger] deep(pq.codebook@)[i]).len() == pq.sub_dim());
    lemma_grid_le_len(deep(m.centroids@), m.dimension as int);
    lemma_grid_le_len(deep(pq.codebook@), pq.sub_dim());
    lemma_seq_u64_le_len(m.offsets@);
    lemma_seq_u64_le_len(m.lengths@);
    let lc = grid_le(deep(m.centroids@)).len() as int;
    let lp = 8 * (m.centroids@.len() as int);
    let lb = grid_le(deep(pq.codebook@)).len() as int;
    let q0 = 84 + c.len() as int;
    assert(e.subrange(0, 8) =~= u64_le(META_SCHEMA_VERSION));
    assert(e.subrange(8, 20) =~= index_kind_name());
    assert(e.subrange(20, 28) =~= u64_le(m.dimension as u64));
    assert(e.subrange(28, 36) =~= u64_le(dt_tag(m.distance_type)));
    assert(e.subrange(36, 44) =~= u64_le(m.centroids@.len() as u64));
    assert(e.subrange(44, 52) =~= u64_le(pq.num_subvectors as u64));
    assert(e.subrange(52, 60) =~= u64_le(pq.num_bits as u64));
    assert(e.subrange(60, 68) =~= u64_le(if pq.residual { 1u64 } else { 0u64 }));
    assert(e.subrange(68, 76) =~= u64_le(v));
    assert(e.subrange(76, 84) =~= u64_le(c.len() as u64));
    assert(e.subrange(84, q0) =~= c);
    assert(e.subrange(q0, q0 + lc) =~= grid_le(deep(m.centroids@)));
    assert(e.subrange(q0 + lc, q0 + lc + lp) =~= seq_u64_le(m.offsets@));
    assert(e.subrange(q0 + lc + lp, q0 + lc + lp + lp) =~= seq_u64_le(m.lengths@));
    assert(e.subrange(q0 + lc + lp + lp, e.len() as int) =~= grid_le(deep(pq.codebook@)));
}

/// Reads `count` little-endian `u64`s starting at `pos`.
fn read_u64_seq(bytes: &Vec<u8>, pos: usize, end: usize, count: usize)
    -> (r: Result<(Vec<u64>, usize), IndexError>)
    requires
        pos <= end <= bytes@.len(),
    ensures
        r is Err ==> r->Err_0 == IndexError::Config,
        r is Ok ==> {
            let v = r->Ok_0.0;
            let p2 = r->Ok_0.1;
            &&& v@.len() == count
            &&& pos <= p2 <= end
            &&& p2 as int == pos as int + 8 * (count as int)
            &&& seq_u64_le(v@) == bytes@.subrange(pos as int, p2 as int)
        },
        pos as int + 8 * (count as int) <= end as int ==> r is Ok,
{
    let mut v: Vec<u64> = Vec::new();
    let mut p: usize = pos;
    let mut c: usize = 0;
    while c < count
        invariant
            c <= count,
            pos <= p <= end <= bytes@.len(),
            p as int == pos as int + 8 * (c as int),
            v@.len() == c,
            seq_u64_le(v@) == bytes@.subrange(pos as int, p as int),
        decreases count - c,
    {
        if end - p < 8 {
            return Err(IndexError::Config);
        }
        let x = read_u64_le(bytes, p);
        let ghost pre = v@;
        v.push(x);
        proof {
            assert(v@.drop_last() =~= pre);
            lemma_u64_le_inverse(bytes@.subrange(p as int, p as int + 8));
            assert(bytes@.subrange(pos as int, p as int + 8)
                =~= bytes@.subrange(pos as int, p as int)
                    + bytes@.subrange(p as int, p as int + 8));
        }
        p = p + 8;
        c = c + 1;
    }
    Ok((v, p))
}

/// Reads one row of `width` little-endian `i64`s whose magnitudes must stay
/// within `bound`.
fn read_i64_row(bytes: &Vec<u8>, pos: usize, end: usize, width: usize, bound: i64)
    -> (r: Result<(Vec<i64>, usize), IndexError>)
    requires
        pos <= end <= bytes@.len(),
        bound >= 1,
    ensures
        r is Err ==> r->Err_0 == IndexError::Config,
        r is Ok ==> {
            let v = r->Ok_0.0;
            let p2 = r->Ok_0.1;
            &&& valid_vec(v@, width as int, bound as int)
            &&& pos <= p2 <= end
            &&& p2 as int == pos as int + 8 * (width as int)
            &&& seq_i64_le(v@) == bytes@.subrange(pos as int, p2 as int)
        },
        forall|s: Seq<i64>|
            (valid_vec(s, width as int, bound as int)
                && pos as int + 8 * (width as int) <= end as int
                && bytes@.subrange(pos as int, pos as int + 8 * (width as int)) == seq_i64_le(s))
            ==> r is Ok,
{
    let mut v: Vec<i64> = Vec::new();
    let mut p: usize = pos;
    let mut c: usize = 0;
    while c < width
        invariant
            c <= width,
            pos <= p <= end <= bytes@.len(),
            bound >= 1,
            p as int == pos as int + 8 * (c as int),
            v@.len() == c,
            valid_vec(v@, c as int, bound as int),
            seq_i64_le(v@) == bytes@.subrange(pos as int, p as int),
        decreases width - c,
    {
        if end - p < 8 {
            proof {
                assert(!(pos as int + 8 * (width as int) <= end as int));
            }
            return Err(IndexError::Config);
        }
        let w = read_u64_le(bytes, p);
        proof {
            crate::format::lemma_u64_bits(w);
        }
        let x: i64 = w as i64;
        if x < -bound || x > bound {
            proof {
                assert forall|s: Seq<i64>|
                    !(valid_vec(s, width as int, bound as int)
                        && pos as int + 8 * (width as int) <= end as int
                        && bytes@.subrange(pos as int, pos as int + 8 * (width as int))
                            == seq_i64_le(s)) by {
                    if valid_vec(s, width as int, bound as int)
                        && pos as int + 8 * (width as int) <= end as int
                        && bytes@.subrange(pos as int, pos as int + 8 * (width as int))
                            == seq_i64_le(s) {
                        lemma_seq_i64_le_index(s, c as int);
                        assert(bytes@.subrange(p as int, p as int + 8)
                            =~= bytes@.subrange(pos as int, pos as int + 8 * (width as int))
                                .subrange(8 * (c as int), 8 * (c as int) + 8));
                        crate::format::lemma_u64_le_val(s[c as int] as u64);
                        crate::format::lemma_i64_bits(s[c as int]);
                        assert(w == s[c as int] as u64);
                        assert(x == s[c as int]);
                        assert(false);
                    }
                }
            }
            return Err(IndexError::Config);
        }
        let ghost pre = v@;
        v.push(x);
        proof {
            assert(v@.drop_last() =~= pre);
            assert(i64_le(x) == u64_le(w));
            lemma_u64_le_inverse(bytes@.subrange(p as int, p as int + 8));
            assert(bytes@.subrange(pos as int, p as int + 8)
                =~= bytes@.subrange(pos as int, p as int)
                    + bytes@.subrange(p as int, p as int + 8));
        }
        p = p + 8;
        c = c + 1;
    }
    Ok((v, p))
}

/// Reads a grid of `rows` vectors of `width` bounded components.
fn read_grid(bytes: &Vec<u8>, pos: usize, end: usize, rows: usize, width: usize, bound: i64)
    -> (r: Result<(Vec<Vec<i64>>, usize), IndexError>)
    requires
        pos <= end <= bytes@.len(),
        bound >= 1,
    ensures
        r is Err ==> r->Err_0 == IndexError::Config,
        r is Ok ==> {
            let g = r->Ok_0.0;
            let p2 = r->Ok_0.1;
            &&& g@.len() == rows
            &&& valid_vecs(deep(g@), width as int, bound as int)
            &&& pos <= p2 <= end
            &&& p2 as int == pos as int + 8 * (width as int) * (rows as int)
            &&& grid_le(deep(g@)) == bytes@.subrange(pos as int, p2 as int)
        },
        forall|gs: Seq<Seq<i64>>|
            (gs.len() == rows
                && (forall|i: int| 0 <= i < gs.len()
                    ==> valid_vec(#[trigger] gs[i], width as int, bound as int))
                && pos as int + 8 * (width as int) * (rows as int) <= end as int
                && bytes@.subrange(
                    pos as int,
                    pos as int + 8 * (width as int) * (rows as int),
                ) == grid_le(gs))
            ==> r is Ok,
{
    let mut g: Vec<Vec<i64>> = Vec::new();
    let mut p: usize = pos;
    let mut c: usize = 0;
    proof {
        assert(8 * (width as int) * 0 == 0) by (nonlinear_arith);
    }
    while c < rows
        invariant
            c <= rows,
            pos <= p <= end <= bytes@.len(),
            bound >= 1,
            p as int == pos as int + 8 * (width as int) * (c as int),
            g@.len() == c,
            valid_vecs(deep(g@), width as int, bound as int),
            grid_le(deep(g@)) == bytes@.subrange(pos as int, p as int),
        decreases rows - c,
    {
        let ghost wi = width as int;
        let ghost ci = c as int;
        let row = match read_i64_row(bytes, p, end, width, bound) {
            Ok(rp) => rp,
            Err(e) => {
                proof {
                    assert forall|gs: Seq<Seq<i64>>|
                        !(gs.len() == rows
                            && (forall|i: int| 0 <= i < gs.len()
                                ==> valid_vec(#[trigger] gs[i], wi, bound as int))
                            && pos as int + 8 * wi * (rows as int) <= end as int
                            && bytes@.subrange(pos as int, pos as int + 8 * wi * (rows as int))
                                == grid_le(gs)) by {
                        if gs.len() == rows
                            && (forall|i: int| 0 <= i < gs.len()
                                ==> valid_vec(#[trigger] gs[i], wi, bound as int))
                            && pos as int + 8 * wi * (rows as int) <= end as int
                            && bytes@.subrange(pos as int, pos as int + 8 * wi * (rows as int))
                                == grid_le(gs) {
                            assert(forall|i: int| 0 <= i < gs.len()
                                ==> (#[trigger] gs[i]).len() == wi);
                            lemma_grid_le_row(gs, wi, ci);
                            assert(8 * wi * (ci + 1) == 8 * wi * ci + 8 * wi) by (nonlinear_arith);
                            assert(8 * wi * (ci + 1) <= 8 * wi * (rows as int))
                                by (nonlinear_arith)
                                requires ci + 1 <= rows as int, wi >= 0;
                            assert(bytes@.subrange(p as int, p as int + 8 * wi)
                                =~= bytes@.subrange(pos as int, pos as int + 8 * wi * (rows as int))
                                    .subrange(8 * wi * ci, 8 * wi * (ci + 1)));
                            assert(bytes@.subrange(p as int, p as int + 8 * wi)
                                == seq_i64_le(gs[ci]));
                            assert(false);
                        }
                    }
                }
                return Err(e);
            },
        };
        let p2 = row.1;
        let row = row.0;
        let ghost pre = g@;
        let ghost rv = row@;
        g.push(row);
        proof {
            assert(deep(g@).drop_last() =~= deep(pre));
            assert(deep(g@).last() == rv);
            assert(bytes@.subrange(pos as int, p2 as int)
                =~= bytes@.subrange(pos as int, p as int)
                    + bytes@.subrange(p as int, p2 as int));
            assert forall|q: int| 0 <= q < deep(g@).len() implies
                valid_vec(#[trigger] deep(g@)[q], width as int, bound as int) by {
                assert(deep(g@)[q] == g@[q]@);
                if q < pre.len() {
                    assert(g@[q] == pre[q]);
                    assert(deep(pre)[q] == pre[q]@);
                }
            }
        }
        proof {
            assert(8 * (width as int) * (c as int) + 8 * (width as int)
                == 8 * (width as int) * ((c + 1) as int)) by (nonlinear_arith);
        }
        p = p2;
        c = c + 1;
    }
    Ok((g, p))
}

/// Decodes the metadata block occupying `bytes[start..end]`.  On success the
/// decoded model, quantizer, column name and dataset version re-encode to
/// exactly those bytes, and both models are well-formed and mutually
/// consistent; any malformed block fails with `Config`.
#[verifier::rlimit(100)]
#[verifier::spinoff_prover]
pub fn decode_metadata(bytes: &Vec<u8>, start: usize, end: usize)
    -> (r: Result<(IvfModel, ProductQuantizer, Vec<u8>, u64), IndexError>)
    requires
        start <= end <= bytes@.len(),
    ensures
        r is Err ==> r->Err_0 == IndexError::Config,
        r is Ok ==> {
            let m = r->Ok_0.0;
            let pq = r->Ok_0.1;
            let col = r->Ok_0.2;
            let ver = r->Ok_0.3;
            &&& m.wf()
            &&& pq.wf()
            &&& models_consistent(m, pq)
            &&& m.offsets@.len() == m.centroids@.len()
            &&& encode_metadata(m, pq, col@, ver) == bytes@.subrange(start as int, end as int)
        },
{
    let mut p: usize = start;
    // Schema word, index kind name, and eight fixed header words.
    if end - p < 84 {
        return Err(IndexError::Config);
    }
    let schema = read_u64_le(bytes, p);
    if schema != META_SCHEMA_VERSION {
        return Err(IndexError::Config);
    }
    if !kind_name_at(bytes, p + 8) {
        return Err(IndexError::Config);
    }
    let dim64 = read_u64_le(bytes, p + 20);
    let tag64 = read_u64_le(bytes, p + 28);
    let p64 = read_u64_le(bytes, p + 36);
    let m64 = read_u64_le(bytes, p + 44);
    let bits64 = read_u64_le(bytes, p + 52);
    let res64 = read_u64_le(bytes, p + 60);
    let ver = read_u64_le(bytes, p + 68);
    let clen64 = read_u64_le(bytes, p + 76);
    if dim64 < 1 || dim64 > MAX_DIM as u64 {
        return Err(IndexError::Config);
    }
    let dimension: usize = dim64 as usize;
    let dt: DistanceType = if tag64 == 0 {
        DistanceType::L2
    } else if tag64 == 1 {
        DistanceType::Cosine
    } else if tag64 == 2 {
        DistanceType::Dot
    } else {
        return Err(IndexError::Config);
    };
    if p64 < 1 || p64 > MAX_PARTITIONS as u64 {
        return Err(IndexError::Config);
    }
    let pcount: usize = p64 as usize;
    if m64 < 1 || m64 > dim64 {
        return Err(IndexError::Config);
    }
    let msub: usize = m64 as usize;
    if dimension % msub != 0 {
        return Err(IndexError::Config);
    }
    if bits64 != 8 {
        return Err(IndexError::Config);
    }
    let residual: bool = if res64 == 0 {
        false
    } else if res64 == 1 {
        true
    } else {
        return Err(IndexError::Config);
    };
    let ghost header = u64_le(schema) + index_kind_name() + u64_le(dim64) + u64_le(tag64)
        + u64_le(p64) + u64_le(m64) + u64_le(bits64) + u64_le(res64) + u64_le(ver)
        + u64_le(clen64);
    proof {
        lemma_u64_le_inverse(bytes@.subrange(start as int, start as int + 8));
        lemma_u64_le_inverse(bytes@.subrange(start as int + 20, start as int + 28));
        lemma_u64_le_inverse(bytes@.subrange(start as int + 28, start as int + 36));
        lemma_u64_le_inverse(bytes@.subrange(start as int + 36, start as int + 44));
        lemma_u64_le_inverse(bytes@.subrange(start as int + 44, start as int + 52));
        lemma_u64_le_inverse(bytes@.subrange(start as int + 52, start as int + 60));
        lemma_u64_le_inverse(bytes@.subrange(start as int + 60, start as int + 68));
        lemma_u64_le_inverse(bytes@.subrange(start as int + 68, start as int + 76));
        lemma_u64_le_inverse(bytes@.subrange(start as int + 76, start as int + 84));
        assert(header =~= bytes@.subrange(start as int, start as int + 84));
    }
    p = p + 84;
    // Column name bytes.
    if clen64 > (end - p) as u64 {
        return Err(IndexError::Config);
    }
    let clen: usize = clen64 as usize;
    let mut col: Vec<u8> = Vec::new();
    let mut c: usize = 0;
    while c < clen
        invariant
            c <= clen,
            p + clen <= end <= bytes@.len(),
            col@ == bytes@.subrange(p as int, p as int + c as int),
        decreases clen - c,
    {
        col.push(bytes[p + c]);
        proof {
            assert(col@ =~= bytes@.subrange(p as int, p as int + c as int + 1));
        }
        c = c + 1;
    }
    let col_end = p + clen;
    let ghost col_bytes = col@;
    p = col_end;
    // Centroid grid, offsets, lengths, codebook grid.
    let cents = match read_grid(bytes, p, end, pcount, dimension, VEC_BOUND) {
        Ok(x) => x,
        Err(e) => {
            return Err(e);
        },
    };
    let p_cents = cents.1;
    let cents = cents.0;
    let offs = match read_u64_seq(bytes, p_cents, end, pcount) {
        Ok(x) => x,
        Err(e) => {
            return Err(e);
        },
    };
    let p_offs = offs.1;
    let offs = offs.0;
    let lens = match read_u64_seq(bytes, p_offs, end, pcount) {
        Ok(x) => x,
        Err(e) => {
            return Err(e);
        },
    };
    let p_lens = lens.1;
    let lens = lens.0;
    let width = dimension / msub;
    proof {
        let d = dimension as int;
        let mm = msub as int;
        assert(d == mm * (d / mm) && 1 <= d / mm) by (nonlinear_arith)
            requires 1 <= mm <= d, d % mm == 0;
    }
    let rows = msub * CODES_PER_SLOT;
    let cb = match read_grid(bytes, p_lens, end, rows, width, COORD_BOUND) {
        Ok(x) => x,
        Err(e) => {
            return Err(e);
        },
    };
    let p_cb = cb.1;
    let cb = cb.0;
    if p_cb != end {
        return Err(IndexError::Config);
    }
    let m = IvfModel { dimension, distance_type: dt, centroids: cents, offsets: offs, lengths: lens };
    let pq = ProductQuantizer {
        num_subvectors: msub,
        num_bits: 8,
        dimension,
        distance_type: dt,
        residual,
        codebook: cb,
    };
    proof {
        assert(m.wf());
        assert(pq.sub_dim() == width as int);
        assert(pq.wf());
        assert(dt_tag(dt) == tag64);
        assert(u64_le(m.dimension as u64) == u64_le(dim64));
        assert(u64_le(m.centroids@.len() as u64) == u64_le(p64));
        assert(u64_le(pq.num_subvectors as u64) == u64_le(m64));
        assert(u64_le(pq.num_bits as u64) == u64_le(bits64));
        assert(u64_le(if pq.residual { 1u64 } else { 0u64 }) == u64_le(res64));
        assert(u64_le(col_bytes.len() as u64) == u64_le(clen64));
        assert(u64_le(schema) == u64_le(META_SCHEMA_VERSION));
        assert(bytes@.subrange(start as int, end as int)
            =~= bytes@.subrange(start as int, start as int + 84)
                + bytes@.subrange(start as int + 84, col_end as int)
                + bytes@.subrange(col_end as int, p_cents as int)
                + bytes@.subrange(p_cents as int, p_offs as int)
                + bytes@.subrange(p_offs as int, p_lens as int)
                + bytes@.subrange(p_lens as int, end as int));
        assert(col_bytes == bytes@.subrange(start as int + 84, col_end as int));
        assert(encode_metadata(m, pq, col_bytes, ver)
            =~= bytes@.subrange(start as int, end as int));
    }
    Ok((m, pq, col, ver))
}

/// Reads back a sealed artifact: checks and parses the fixed trailer, seeks
/// to the metadata block it locates, and decodes the block.  On success the
/// decoded values re-encode byte-for-byte to the artifact's metadata block,
/// and the trailer re-encodes to its last `TRAILER_LEN` bytes; an artifact
/// without a valid trailer fails with `Config`.
pub fn read_index_metadata(bytes: &Vec<u8>)
    -> (r: Result<(IvfModel, ProductQuantizer, Vec<u8>, u64), IndexError>)
    ensures
        r is Err ==> r->Err_0 == IndexError::Config,
        r is Ok ==> {
            let m = r->Ok_0.0;
            let pq = r->Ok_0.1;
            let col = r->Ok_0.2;
            let ver = r->Ok_0.3;
            let tp = bytes@.len() - TRAILER_LEN;
            let mp = le_val(bytes@.subrange(tp, tp + 8));
            &&& m.wf()
            &&& pq.wf()
            &&& models_consistent(m, pq)
            &&& bytes@.len() >= TRAILER_LEN
            &&& mp <= tp
            &&& bytes@.subrange(mp as int, tp) == encode_metadata(m, pq, col@, ver)
            &&& bytes@.subrange(tp, bytes@.len() as int) == trailer_bytes(mp)
        },
{
    let n = bytes.len();
    if n < TRAILER_LEN {
        return Err(IndexError::Config);
    }
    let tp = n - TRAILER_LEN;
    let mp64 = read_u64_le(bytes, tp);
    let maj = read_u32_le(bytes, tp + 8);
    let min = read_u32_le(bytes, tp + 12);
    if maj != FORMAT_MAJOR || min != FORMAT_MINOR {
        return Err(IndexError::Config);
    }
    if !(bytes[tp + 16] == 'L' as u8 && bytes[tp + 17] == 'A' as u8
        && bytes[tp + 18] == 'N' as u8 && bytes[tp + 19] == 'C' as u8) {
        return Err(IndexError::Config);
    }
    if mp64 > tp as u64 {
        return Err(IndexError::Config);
    }
    let mp = mp64 as usize;
    let out = match decode_metadata(bytes, mp, tp) {
        Ok(x) => x,
        Err(e) => {
            return Err(e);
        },
    };
    proof {
        lemma_u64_le_inverse(bytes@.subrange(tp as int, tp as int + 8));
        crate::format::lemma_u32_le_inverse(bytes@.subrange(tp as int + 8, tp as int + 12));
        crate::format::lemma_u32_le_inverse(bytes@.subrange(tp as int + 12, tp as int + 16));
        assert(bytes@.subrange(tp as int + 16, n as int) =~= magic());
        assert(bytes@.subrange(tp as int, n as int)
            =~= bytes@.subrange(tp as int, tp as int + 8)
                + bytes@.subrange(tp as int + 8, tp as int + 12)
                + bytes@.subrange(tp as int + 12, tp as int + 16)
                + bytes@.subrange(tp as int + 16, n as int));
        assert(bytes@.subrange(tp as int, n as int) =~= trailer_bytes(mp64));
    }
    Ok(out)
}

} // verus!
