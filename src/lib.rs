//! Newton-fractal rasterisation.
//!
//! Every pixel of a raster is mapped to a point of the complex plane, Newton's
//! method for the polynomial with a given ordered set of roots is run from it
//! for a bounded number of steps, and the pixel is painted with the color of
//! the root it reaches (or of the root nearest to the last iterate).
//!
//! The plane is held in fixed point (`complex`): every coordinate is an exact
//! integer count of `1 / 65536` units, so the whole computation is integer
//! arithmetic whose results the contracts state exactly.
//!
//! - `complex`: fixed-point complex values and their reciprocal.
//! - `simd_math`: the same operations on two complex values at once.
//! - `geometry`: the affine map between pixels and the plane.
//! - `polynomial`: the root set, one Newton step, the nearest root.
//! - `fractal_calculation`: classifying a point, or four pixels at once.
//! - `fractal_plotting`: partitions of a raster and filling them.
//! - `drawing_config`: a self-contained fill job.
//! - `approximation`: the trail of iterates from one starting point.
use vstd::prelude::*;

pub mod approximation;
pub mod complex;
pub mod drawing_config;
pub mod fractal_calculation;
pub mod fractal_plotting;
pub mod geometry;
pub mod polynomial;
pub mod simd_math;

verus! {

} // verus!
