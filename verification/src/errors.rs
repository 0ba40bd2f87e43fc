use vstd::prelude::*;

verus! {

/// The error kinds every pipeline stage can surface.  Each stage fails fast
/// and returns the first error to its caller; no stage retries internally.
#[derive(Clone, Copy, Debug, PartialEq, Eq, Structural)]
pub enum IndexError {
    /// Invalid dimension / partition / subvector counts, or an unrecognized
    /// distance metric name.
    Config,
    /// A vector's width disagrees with the declared dimension.
    DimensionMismatch,
    /// Degenerate clustering: an empty cluster, or fewer samples than
    /// requested clusters.
    Training,
    /// A read/write/flush failure against dataset or storage.
    Io,
    /// An IvfModel / ProductQuantizer pairing uses different distance
    /// metrics or dimensions.
    ModelConsistency,
}

impl IndexError {
    /// A short human-readable name for the error kind.
    pub fn describe(&self) -> String {
        match self {
            IndexError::Config => "invalid configuration".to_string(),
            IndexError::DimensionMismatch => "vector dimension mismatch".to_string(),
            IndexError::Training => "degenerate clustering".to_string(),
            IndexError::Io => "storage failure".to_string(),
            IndexError::ModelConsistency => "model pairing mismatch".to_string(),
        }
    }
}

} // verus!
