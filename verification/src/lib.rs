//! Verified build pipeline for an IVF-PQ approximate-nearest-neighbor index.
//!
//! The pipeline clusters vectors into coarse partitions (IVF), trains a
//! product-quantization codebook (PQ), transforms every vector into a compact
//! quantized record, shuffles the records into per-partition buckets, and
//! merges the buckets into one sealed binary index artifact with a metadata
//! block and a fixed magic trailer.
//!
//! Vector components are fixed-point integers bounded by `VEC_BOUND`, so that
//! every distance computation is exact and provably free of overflow.

pub mod errors;
pub mod model;
pub mod distance;
pub mod kmeans;
pub mod pq;
pub mod train;
pub mod transform;
pub mod shuffle;
pub mod format;
pub mod writer;
