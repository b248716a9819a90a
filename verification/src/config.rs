//! The settings that the host supplies, and the check made of them before
//! anything is generated.

use crate::compression::MAX_LZ4_LEVEL;
use crate::lattice::{is_valid_chunk_edge, valid_chunk_edge};
use vstd::prelude::*;

verus! {

/// The largest view distance, in chunks, that the scheduler accepts.
pub const MAX_VIEW_DISTANCE: i32 = 1024;

/// Why a configuration is refused.
#[derive(Clone, Copy, Debug, PartialEq, Eq, Structural)]
pub enum ConfigError {
    /// The chunk edge is not a power of two between 1 and 1024.
    ChunkEdge,
    /// The view distance is not between 1 and 1024 chunks.
    ViewDistance,
    /// The thickness of the fill band is negative.
    BandThickness,
    /// The compression level is above 10.
    CompressionLevel,
}

/// What the host chooses: the chunk size, how far the world is kept
/// resident around the viewpoint, where the terrain's zero level lies, how
/// thick the band under the surface is, and how hard cold chunks are
/// compressed.
#[derive(Clone, Copy, Debug, PartialEq, Eq, Structural)]
pub struct WorldConfig {
    /// The edge length of a chunk, in voxels.
    pub chunk_edge: i32,
    /// The radius of the resident region, in chunks.
    pub view_distance: i32,
    /// The height that a height offset of zero stands for.
    pub sea_level: i32,
    /// How many voxels under the top voxel of a column are fill.
    pub band_thickness: i32,
    /// The LZ4 level for cold chunks.
    pub compression_level: u32,
}

impl WorldConfig {
    /// The first fault of the configuration, if it has one.
    pub open spec fn check(self) -> Result<(), ConfigError> {
        if !valid_chunk_edge(self.chunk_edge as int) {
            Err(ConfigError::ChunkEdge)
        } else if self.view_distance < 1 || self.view_distance > MAX_VIEW_DISTANCE {
            Err(ConfigError::ViewDistance)
        } else if self.band_thickness < 0 {
            Err(ConfigError::BandThickness)
        } else if self.compression_level > MAX_LZ4_LEVEL {
            Err(ConfigError::CompressionLevel)
        } else {
            Ok(())
        }
    }

    /// Whether the configuration has no fault.
    pub open spec fn valid(self) -> bool {
        self.check() is Ok
    }

    /// The settings of the reference design: chunks of 32 voxels, a view
    /// distance of 6 chunks, sea level at 42, three voxels of fill.
    pub fn reference() -> (c: WorldConfig)
        ensures
            c.valid(),
            c == (WorldConfig {
                chunk_edge: 32,
                view_distance: 6,
                sea_level: 42,
                band_thickness: 3,
                compression_level: 10,
            }),
    {
        WorldConfig {
            chunk_edge: 32,
            view_distance: 6,
            sea_level: 42,
            band_thickness: 3,
            compression_level: 10,
        }
    }

    /// Checks the configuration.
    pub fn validate(&self) -> (r: Result<(), ConfigError>)
        ensures
            r == self.check(),
    {
        if !is_valid_chunk_edge(self.chunk_edge) {
            Err(ConfigError::ChunkEdge)
        } else if self.view_distance < 1 || self.view_distance > MAX_VIEW_DISTANCE {
            Err(ConfigError::ViewDistance)
        } else if self.band_thickness < 0 {
            Err(ConfigError::BandThickness)
        } else if self.compression_level > MAX_LZ4_LEVEL {
            Err(ConfigError::CompressionLevel)
        } else {
            Ok(())
        }
    }
}

} // verus!
