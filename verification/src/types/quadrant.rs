//! Quadrant / 2x2 scatter diagram.
//!
//! Coordinates are real numbers; the library carries each as the bit
//! pattern of its `f32` value (`f32::to_bits`), which the layout engine
//! turns back into a float.

use crate::errors::{ParseError, Warning};
use crate::types::shared::{accent_check, check_accent, density_warning, density_warnings};
use vstd::prelude::*;

verus! {

/// Soft cap above which a density warning is emitted.
pub const SOFT_CAP: usize = 20;

/// Stable type tag used in warnings.
pub const TYPE_TAG: &'static str = "quadrant";

/// One axis range + display labels.
#[derive(Debug, Clone)]
pub struct Axis {
    /// Bits of the `f32` lower bound of the data range.
    pub min_bits: u32,
    /// Bits of the `f32` upper bound of the data range.
    pub max_bits: u32,
    /// Label for the LOW end (near the origin for x, near the bottom for y).
    pub low_label: Option<String>,
    /// Label for the HIGH end.
    pub high_label: Option<String>,
}

/// Both axes.
#[derive(Debug, Clone)]
pub struct Axes {
    pub x: Axis,
    pub y: Axis,
}

/// One plotted point.
#[derive(Debug, Clone)]
pub struct QuadrantPoint {
    /// Bits of the `f32` x coordinate in data space.
    pub x_bits: u32,
    /// Bits of the `f32` y coordinate in data space.
    pub y_bits: u32,
    pub label: String,
}

/// `{"type":"quadrant","axes":{...},"points":[...], "accent_idx":optional}`.
#[derive(Debug, Clone)]
pub struct QuadrantSpec {
    pub axes: Axes,
    pub points: Vec<QuadrantPoint>,
    pub accent_idx: Option<usize>,
}

impl QuadrantSpec {
    /// The accent index, when present, must name one of the points.
    pub fn validate(&self) -> (r: Result<(), ParseError>)
        ensures
            r == accent_check(self.accent_idx, self.points@.len() as int),
    {
        check_accent(self.accent_idx, self.points.len())
    }
}

/// Density warning when the point count exceeds [`SOFT_CAP`].
pub fn warnings(spec: &QuadrantSpec) -> (w: Vec<Warning>)
    ensures
        w@ == density_warnings(TYPE_TAG, spec.points@.len() as int, SOFT_CAP as int),
{
    density_warning(TYPE_TAG, spec.points.len(), SOFT_CAP)
}

} // verus!
