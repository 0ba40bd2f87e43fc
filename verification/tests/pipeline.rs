use ivf_pq::errors::IndexError;
use ivf_pq::model::{DistanceType, IvfModel, ProductQuantizer, TransformedRecord};
use ivf_pq::train::{parse_distance_type, train_ivf_model, train_pq_model};
use ivf_pq::transform::transform_vectors;
use ivf_pq::shuffle::shuffle_transformed_vectors;
use ivf_pq::writer::{load_shuffled_vectors, read_index_metadata};

fn fresh_ivf(dim: usize, dt: DistanceType, centroids: Vec<Vec<i64>>) -> IvfModel {
    IvfModel {
        dimension: dim,
        distance_type: dt,
        centroids,
        offsets: Vec::new(),
        lengths: Vec::new(),
    }
}

/// A quantizer whose slot entries are the diagonal points (t, t, ..): entry
/// `t` of every slot holds `t` in each coordinate.
fn diagonal_pq(m: usize, dim: usize, dt: DistanceType, residual: bool) -> ProductQuantizer {
    let sd = dim / m;
    let mut codebook = Vec::new();
    for _slot in 0..m {
        for t in 0..256 {
            codebook.push(vec![t as i64; sd]);
        }
    }
    ProductQuantizer {
        num_subvectors: m,
        num_bits: 8,
        dimension: dim,
        distance_type: dt,
        residual,
        codebook,
    }
}

#[test]
fn parse_distance_type_names() {
    assert_eq!(parse_distance_type(b"l2").ok(), Some(DistanceType::L2));
    assert_eq!(parse_distance_type(b"cosine").ok(), Some(DistanceType::Cosine));
    assert_eq!(parse_distance_type(b"dot").ok(), Some(DistanceType::Dot));
    assert_eq!(parse_distance_type(b"hamming").err(), Some(IndexError::Config));
    assert_eq!(parse_distance_type(b"").err(), Some(IndexError::Config));
}

#[test]
fn error_descriptions_name_each_kind() {
    assert_eq!(IndexError::Config.describe(), "invalid configuration");
    assert_eq!(IndexError::DimensionMismatch.describe(), "vector dimension mismatch");
    assert_eq!(IndexError::Training.describe(), "degenerate clustering");
    assert_eq!(IndexError::Io.describe(), "storage failure");
    assert_eq!(IndexError::ModelConsistency.describe(), "model pairing mismatch");
}

#[test]
fn ivf_trainer_returns_exactly_the_partition_count() {
    // Four well-separated anchors, three samples near each.
    let anchors: Vec<Vec<i64>> = vec![
        vec![0, 0, 0],
        vec![1000, 0, 0],
        vec![0, 1000, 0],
        vec![0, 0, 1000],
    ];
    let mut samples = Vec::new();
    for a in &anchors {
        samples.push(a.clone());
    }
    for j in 1..3i64 {
        for a in &anchors {
            samples.push(vec![a[0] + j, a[1] + j, a[2] + j]);
        }
    }
    let model = train_ivf_model(&samples, 3, 4, b"l2", 2).unwrap();
    assert_eq!(model.centroids.len(), 4);
    for c in &model.centroids {
        assert_eq!(c.len(), 3);
    }
    assert!(model.offsets.is_empty());
    assert!(model.lengths.is_empty());
}

#[test]
fn ivf_trainer_rejects_small_sample() {
    let samples = vec![vec![1i64, 2], vec![3, 4]];
    assert_eq!(
        train_ivf_model(&samples, 2, 4, b"l2", 1).err(),
        Some(IndexError::Training)
    );
}

#[test]
fn ivf_trainer_rejects_unknown_metric() {
    let samples = vec![vec![1i64, 2], vec![3, 4]];
    assert_eq!(
        train_ivf_model(&samples, 2, 1, b"manhattan", 1).err(),
        Some(IndexError::Config)
    );
}

#[test]
fn ivf_trainer_rejects_mismatched_vector() {
    let samples = vec![vec![1i64, 2], vec![3, 4, 5]];
    assert_eq!(
        train_ivf_model(&samples, 2, 1, b"l2", 1).err(),
        Some(IndexError::DimensionMismatch)
    );
}

#[test]
fn pq_trainer_rejects_indivisible_dimension() {
    let samples = vec![vec![1i64, 2, 3, 4, 5]];
    let r = train_pq_model(&samples, 5, 2, b"l2", 1, None);
    assert_eq!(r.err(), Some(IndexError::Config));
}

#[test]
fn pq_trainer_rejects_mismatched_model() {
    let ivf = fresh_ivf(4, DistanceType::Dot, vec![vec![0, 0, 0, 0]]);
    let samples = vec![vec![1i64, 2, 3, 4]];
    let r = train_pq_model(&samples, 4, 2, b"l2", 0, Some(&ivf));
    assert_eq!(r.err(), Some(IndexError::ModelConsistency));
}

#[test]
fn pq_trainer_builds_full_codebook() {
    // 300 distinct samples of dimension 2, M = 1, no residuals, no Lloyd
    // rounds: the codebook is seeded from the first 256 samples.
    let samples: Vec<Vec<i64>> = (0..300).map(|i| vec![i as i64, 2 * i as i64]).collect();
    let pq = train_pq_model(&samples, 2, 1, b"l2", 0, None).unwrap();
    assert_eq!(pq.num_subvectors, 1);
    assert_eq!(pq.num_bits, 8);
    assert_eq!(pq.codebook.len(), 256);
    for e in &pq.codebook {
        assert_eq!(e.len(), 2);
    }
    assert!(!pq.residual);
}

#[test]
fn pq_encode_decode_within_bound() {
    let pq = diagonal_pq(2, 4, DistanceType::L2, false);
    // Exact reconstruction when every subvector sits on the diagonal.
    let v = vec![5i64, 5, 200, 200];
    let code = pq.encode(&v);
    assert_eq!(code, vec![5u8, 200]);
    assert_eq!(pq.decode(&code), v);
    // Lossy but bounded otherwise.
    let v = vec![3i64, 4, 250, 251];
    let code = pq.encode(&v);
    let back = pq.decode(&code);
    assert_eq!(back.len(), 4);
    let err: i64 = v.iter().zip(back.iter()).map(|(a, b)| (a - b) * (a - b)).sum();
    let bound = 4i64 * 4 * 2097152 * 2097152;
    assert!(0 <= err && err <= bound);
    assert!(err <= 2); // nearest diagonal points are one step away at most
}

#[test]
fn transformer_assigns_nearest_partition() {
    let ivf = fresh_ivf(
        2,
        DistanceType::L2,
        vec![vec![0, 0], vec![100, 100]],
    );
    let pq = diagonal_pq(1, 2, DistanceType::L2, false);
    let vectors = vec![vec![1i64, 1], vec![99, 98], vec![49, 49]];
    let row_ids = vec![10u64, 11, 12];
    let recs = transform_vectors(&vectors, &row_ids, &ivf, &pq).unwrap();
    assert_eq!(recs.len(), 3);
    assert_eq!(recs[0].row_id, 10);
    assert_eq!(recs[0].partition_id, 0);
    assert_eq!(recs[1].row_id, 11);
    assert_eq!(recs[1].partition_id, 1);
    // (49, 49) is nearer to (0, 0)?  No: distance 2*49^2 = 4802 versus
    // 2*51^2 = 5202, so the first centroid wins.
    assert_eq!(recs[2].partition_id, 0);
    // The code of (1, 1) under the diagonal codebook is the nearest diagonal
    // point (1, 1), index 1.
    assert_eq!(recs[0].code, vec![1u8]);
}

#[test]
fn transformer_rejects_mismatched_row() {
    let ivf = fresh_ivf(2, DistanceType::L2, vec![vec![0, 0]]);
    let pq = diagonal_pq(1, 2, DistanceType::L2, false);
    let vectors = vec![vec![1i64, 1], vec![1, 2, 3]];
    let row_ids = vec![0u64, 1];
    assert_eq!(
        transform_vectors(&vectors, &row_ids, &ivf, &pq).err(),
        Some(IndexError::DimensionMismatch)
    );
}

#[test]
fn transformer_rejects_mismatched_models() {
    let ivf = fresh_ivf(2, DistanceType::Dot, vec![vec![0, 0]]);
    let pq = diagonal_pq(1, 2, DistanceType::L2, false);
    let vectors = vec![vec![1i64, 1]];
    let row_ids = vec![0u64];
    assert_eq!(
        transform_vectors(&vectors, &row_ids, &ivf, &pq).err(),
        Some(IndexError::ModelConsistency)
    );
}

fn rec(row_id: u64, partition_id: u32, code: Vec<u8>) -> TransformedRecord {
    TransformedRecord { row_id, partition_id, code }
}

#[test]
fn shuffle_groups_by_partition_and_keeps_every_record() {
    let inputs = vec![
        vec![rec(0, 1, vec![7]), rec(1, 0, vec![8]), rec(2, 1, vec![9])],
        vec![rec(3, 0, vec![10]), rec(4, 2, vec![11])],
    ];
    let buckets = shuffle_transformed_vectors(&inputs, 3).unwrap();
    assert_eq!(buckets.len(), 3);
    // Every record of bucket k has partition id k, in input order.
    let b0: Vec<u64> = buckets[0].iter().map(|r| r.row_id).collect();
    let b1: Vec<u64> = buckets[1].iter().map(|r| r.row_id).collect();
    let b2: Vec<u64> = buckets[2].iter().map(|r| r.row_id).collect();
    assert_eq!(b0, vec![1, 3]);
    assert_eq!(b1, vec![0, 2]);
    assert_eq!(b2, vec![4]);
    for (k, b) in buckets.iter().enumerate() {
        for r in b {
            assert_eq!(r.partition_id as usize, k);
        }
    }
    // Union as a multiset: same row ids, same codes, nothing lost or added.
    let mut seen: Vec<(u64, u32, Vec<u8>)> = buckets
        .iter()
        .flatten()
        .map(|r| (r.row_id, r.partition_id, r.code.clone()))
        .collect();
    seen.sort();
    let mut fed: Vec<(u64, u32, Vec<u8>)> = inputs
        .iter()
        .flatten()
        .map(|r| (r.row_id, r.partition_id, r.code.clone()))
        .collect();
    fed.sort();
    assert_eq!(seen, fed);
}

#[test]
fn shuffle_rejects_out_of_range_partition() {
    let inputs = vec![vec![rec(0, 5, vec![1])]];
    assert_eq!(
        shuffle_transformed_vectors(&inputs, 2).err(),
        Some(IndexError::Config)
    );
}

#[test]
fn writer_lays_partitions_out_contiguously() {
    let ivf = fresh_ivf(
        2,
        DistanceType::L2,
        vec![vec![0, 0], vec![10, 10], vec![20, 20]],
    );
    let pq = diagonal_pq(1, 2, DistanceType::L2, false);
    let buckets = vec![
        vec![rec(0, 0, vec![1]), rec(1, 0, vec![2])],
        vec![],
        vec![rec(2, 2, vec![3]), rec(3, 2, vec![4]), rec(4, 2, vec![5])],
    ];
    let (bytes, model) = load_shuffled_vectors(&buckets, ivf, &pq, &b"emb".to_vec(), 9).unwrap();
    assert_eq!(model.offsets, vec![0, 2, 2]);
    assert_eq!(model.lengths, vec![2, 0, 3]);
    let total: u64 = model.lengths.iter().sum();
    assert_eq!(total, 5);
    for k in 0..2 {
        assert_eq!(model.offsets[k] + model.lengths[k], model.offsets[k + 1]);
    }
    // The code section leads the artifact; the magic closes it.
    assert_eq!(&bytes[0..5], &[1u8, 2, 3, 4, 5]);
    assert_eq!(&bytes[bytes.len() - 4..], b"LANC");
}

#[test]
fn writer_rejects_wrong_code_width() {
    let ivf = fresh_ivf(2, DistanceType::L2, vec![vec![0, 0]]);
    let pq = diagonal_pq(1, 2, DistanceType::L2, false);
    let buckets = vec![vec![rec(0, 0, vec![1, 2])]];
    let r = load_shuffled_vectors(&buckets, ivf, &pq, &b"emb".to_vec(), 0);
    assert_eq!(r.err(), Some(IndexError::DimensionMismatch));
}

#[test]
fn artifact_round_trips_models_exactly() {
    let ivf = fresh_ivf(
        2,
        DistanceType::Cosine,
        vec![vec![1, 2], vec![3, -4]],
    );
    let pq = diagonal_pq(1, 2, DistanceType::Cosine, true);
    let buckets = vec![
        vec![rec(7, 0, vec![11])],
        vec![rec(8, 1, vec![12])],
    ];
    let (bytes, sealed) =
        load_shuffled_vectors(&buckets, ivf, &pq, &b"vector_col".to_vec(), 42).unwrap();
    let (m, q, col, ver) = read_index_metadata(&bytes).unwrap();
    assert_eq!(m.dimension, sealed.dimension);
    assert_eq!(m.distance_type, sealed.distance_type);
    assert_eq!(m.centroids, sealed.centroids);
    assert_eq!(m.offsets, sealed.offsets);
    assert_eq!(m.lengths, sealed.lengths);
    assert_eq!(q.num_subvectors, pq.num_subvectors);
    assert_eq!(q.num_bits, 8);
    assert_eq!(q.dimension, pq.dimension);
    assert_eq!(q.distance_type, pq.distance_type);
    assert_eq!(q.residual, pq.residual);
    assert_eq!(q.codebook, pq.codebook);
    assert_eq!(col, b"vector_col".to_vec());
    assert_eq!(ver, 42);
}

#[test]
fn truncated_artifact_is_rejected() {
    let ivf = fresh_ivf(2, DistanceType::L2, vec![vec![0, 0]]);
    let pq = diagonal_pq(1, 2, DistanceType::L2, false);
    let buckets = vec![vec![rec(0, 0, vec![1])]];
    let (bytes, _) = load_shuffled_vectors(&buckets, ivf, &pq, &b"c".to_vec(), 0).unwrap();
    // Cut the trailer off: no valid sealed artifact remains.
    let cut = bytes[..bytes.len() - 4].to_vec();
    assert_eq!(read_index_metadata(&cut).err(), Some(IndexError::Config));
    assert_eq!(read_index_metadata(&Vec::new()).err(), Some(IndexError::Config));
}

#[test]
fn end_to_end_build_of_ten_thousand_vectors() {
    // 10,000 vectors of dimension 4 around eight well-separated anchors.
    let anchors: Vec<Vec<i64>> = (0..8)
        .map(|k| vec![k as i64 * 1000, k as i64 * 500, k as i64 * 250, k as i64 * 125])
        .collect();
    let mut vectors: Vec<Vec<i64>> = Vec::new();
    for i in 0..10000usize {
        let a = &anchors[i % 8];
        let jitter = if i < 8 { 0 } else { (i / 8 % 5) as i64 - 2 };
        vectors.push(vec![a[0] + jitter, a[1] + jitter, a[2] + jitter, a[3] + jitter]);
    }
    let row_ids: Vec<u64> = (0..10000u64).collect();

    let ivf = train_ivf_model(&vectors, 4, 8, b"l2", 1).unwrap();
    assert_eq!(ivf.centroids.len(), 8);
    for c in &ivf.centroids {
        assert_eq!(c.len(), 4);
    }

    let pq = train_pq_model(&vectors, 4, 2, b"l2", 0, Some(&ivf)).unwrap();
    assert_eq!(pq.codebook.len(), 2 * 256);
    for e in &pq.codebook {
        assert_eq!(e.len(), 2);
    }
    assert!(pq.residual);

    let recs = transform_vectors(&vectors, &row_ids, &ivf, &pq).unwrap();
    assert_eq!(recs.len(), 10000);
    for r in &recs {
        assert!((r.partition_id as usize) < 8);
        assert_eq!(r.code.len(), 2);
    }

    let buckets = shuffle_transformed_vectors(&vec![recs], 8).unwrap();
    assert_eq!(buckets.len(), 8);
    let total: usize = buckets.iter().map(|b| b.len()).sum();
    assert_eq!(total, 10000);

    let (bytes, sealed) =
        load_shuffled_vectors(&buckets, ivf, &pq, &b"embedding".to_vec(), 3).unwrap();
    let (m, _q, col, ver) = read_index_metadata(&bytes).unwrap();
    assert_eq!(col, b"embedding".to_vec());
    assert_eq!(ver, 3);
    let total: u64 = m.lengths.iter().sum();
    assert_eq!(total, 10000);
    for k in 0..7 {
        assert!(m.offsets[k] < m.offsets[k + 1]); // strictly increasing
    }
    assert_eq!(m.centroids, sealed.centroids);
}

#[test]
fn transformer_under_dot_metric_prefers_larger_dot_product() {
    let ivf = fresh_ivf(2, DistanceType::Dot, vec![vec![1, 0], vec![0, 1]]);
    let pq = diagonal_pq(1, 2, DistanceType::Dot, false);
    // dot((5,1), (1,0)) = 5 beats dot((5,1), (0,1)) = 1, so partition 0;
    // dot((1,9), (0,1)) = 9 beats 1, so partition 1.
    let vectors = vec![vec![5i64, 1], vec![1, 9]];
    let row_ids = vec![0u64, 1];
    let recs = transform_vectors(&vectors, &row_ids, &ivf, &pq).unwrap();
    assert_eq!(recs[0].partition_id, 0);
    assert_eq!(recs[1].partition_id, 1);
}
