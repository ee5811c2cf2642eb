//! Film grain noise modelling.
//!
//! The solver compares a source frame with its denoised counterpart, models the
//! difference as an auto-regressive process and reports the model as a film grain
//! table segment. All real-number arithmetic goes through the [`scalar::Scalar`]
//! trait; the contracts say which operations are applied to which operands, in
//! which order, whatever the scalar type is.

pub mod block_laws;
pub mod channel_laws;
pub mod constant_laws;
pub mod curve;
pub mod curve_laws;
pub mod difference_laws;
pub mod equations;
pub mod exact;
pub mod fit_laws;
pub mod flat_blocks;
pub mod flat_laws;
pub mod frame_laws;
pub mod gain_laws;
pub mod grain;
pub mod grain_laws;
pub mod kernels;
pub mod mark_laws;
pub mod matrix;
pub mod measurement_laws;
pub mod measurements;
pub mod merge_laws;
pub mod model;
pub mod noise_laws;
pub mod observations;
pub mod outcome_laws;
pub mod plane;
pub mod plane_laws;
pub mod precise;
pub mod profile;
pub mod ranking_laws;
mod reals;
pub mod recovery_laws;
pub mod repeat_laws;
pub mod report_laws;
pub mod scalar;
pub mod scaling_laws;
pub mod segment;
pub mod segment_laws;
pub mod slope_laws;
pub mod solution_laws;
pub mod state;
pub mod step_laws;
pub mod steps;
pub mod strength;
pub mod strength_laws;
pub mod sum_laws;
pub mod texture_laws;
pub mod update;
pub mod update_laws;
pub mod util;

use vstd::prelude::*;

verus! {

/// The width and height of the blocks that a frame is cut into.
pub const BLOCK_SIZE: usize = 32;

/// The number of pixels in a block.
pub const BLOCK_SIZE_SQUARED: usize = 1024;

/// How far the auto-regressive model looks back.
pub const NOISE_MODEL_LAG: usize = 3;

/// The number of auto-regressive coefficients of a luma plane.
pub const NUM_Y_COEFFS: usize = 24;

/// The number of auto-regressive coefficients of a chroma plane.
pub const NUM_UV_COEFFS: usize = 25;

/// The most scaling points that a luma plane can have.
pub const NUM_Y_POINTS: usize = 14;

/// The most scaling points that a chroma plane can have.
pub const NUM_UV_POINTS: usize = 10;

/// The random seed of the first segment of a table.
pub const DEFAULT_GRAIN_SEED: u16 = 10956;

} // verus!
