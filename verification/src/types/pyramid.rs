//! Pyramid / funnel diagram: trapezoid layers from narrow apex to wide base.

use crate::errors::{ParseError, Warning};
use crate::types::shared::{accent_check, check_accent, density_warning, density_warnings};
use vstd::prelude::*;

verus! {

/// Soft cap above which a density warning is emitted.
pub const SOFT_CAP: usize = 7;

/// Stable type tag used in warnings.
pub const TYPE_TAG: &'static str = "pyramid";

/// One layer in the pyramid.
#[derive(Debug, Clone)]
pub struct PyramidLevel {
    /// Primary label drawn inside the layer.
    pub label: String,
    /// Optional mono-font sublabel (e.g., frequency or size hint).
    pub sublabel: Option<String>,
}

/// `{"type":"pyramid","levels":[...], "accent_idx":optional}`.
///
/// `levels[0]` is the apex (top, narrowest); the last is the base (widest).
#[derive(Debug, Clone)]
pub struct PyramidSpec {
    pub levels: Vec<PyramidLevel>,
    pub accent_idx: Option<usize>,
}

impl PyramidSpec {
    /// The accent index, when present, must name one of the levels.
    pub fn validate(&self) -> (r: Result<(), ParseError>)
        ensures
            r == accent_check(self.accent_idx, self.levels@.len() as int),
    {
        check_accent(self.accent_idx, self.levels.len())
    }
}

/// Density warning when the level count exceeds [`SOFT_CAP`].
pub fn warnings(spec: &PyramidSpec) -> (w: Vec<Warning>)
    ensures
        w@ == density_warnings(TYPE_TAG, spec.levels@.len() as int, SOFT_CAP as int),
{
    density_warning(TYPE_TAG, spec.levels.len(), SOFT_CAP)
}

} // verus!
