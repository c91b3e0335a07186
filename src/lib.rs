//! Near-duplicate image detection: perceptual fingerprints of pixel grids,
//! per-item failure isolation over a batch, and collision grouping by
//! fingerprint and dimensions.
pub mod config;
pub mod fingerprint;
pub mod grouping;
pub mod pipeline;

pub use config::{HashConfig, PixelGrid, DEFAULT_SIDE, MAX_SIDE};
pub use fingerprint::{Fingerprint, Fingerprinter};
pub use grouping::{group_collisions, CollisionGroup, DimensionBucket};
pub use pipeline::{keep_decoded, ImageRecord};
