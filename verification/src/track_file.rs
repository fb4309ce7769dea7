//! What a scenario description says of an agent's lidar.

use vstd::prelude::*;

verus! {

/// The default number of lidar rays.
pub const DEFAULT_LIDAR_COUNT: usize = 60;

/// How the lidar's directions are given.
#[derive(Debug, Clone, Copy, PartialEq, Eq, Structural)]
pub enum LidarFile {
    /// So many rays, spread evenly over the circle.
    Count { count: usize },
}

impl LidarFile {
    /// The number of rays.
    pub fn count(&self) -> (r: usize)
        ensures
            self matches LidarFile::Count { count } && r == count,
    {
        match self {
            LidarFile::Count { count } => *count,
        }
    }
}

impl Default for LidarFile {
    fn default() -> (r: Self)
        ensures
            r == (LidarFile::Count { count: DEFAULT_LIDAR_COUNT }),
    {
        LidarFile::Count { count: DEFAULT_LIDAR_COUNT }
    }
}

} // verus!
