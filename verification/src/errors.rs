use vstd::prelude::*;

verus! {

/// Identifies one point in a cloud's logical index space.
pub type PointIndex = u64;

/// The one error the cloud layer surfaces: an index was absent from an
/// address map or out of range. Always recoverable; carries the offending
/// index and a human-readable reason.
#[derive(Debug, Clone)]
pub enum PointCloudError {
    DataAccessError { index: PointIndex, reason: String },
}

pub type PointCloudResult<T> = Result<T, PointCloudError>;

impl PointCloudError {
    /// The point index the failed access named.
    pub open spec fn index_spec(&self) -> PointIndex {
        match self {
            PointCloudError::DataAccessError { index, .. } => *index,
        }
    }

    pub fn index(&self) -> (r: PointIndex)
        ensures
            r == self.index_spec(),
    {
        match self {
            PointCloudError::DataAccessError { index, .. } => *index,
        }
    }
}

} // verus!
