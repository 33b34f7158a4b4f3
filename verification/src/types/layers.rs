//! Layer-stack diagram: equal-height horizontal bands.

use crate::errors::{ParseError, Warning};
use crate::types::shared::{accent_check, check_accent, density_warning, density_warnings};
use vstd::prelude::*;

verus! {

/// Soft cap above which a density warning is emitted.
pub const SOFT_CAP: usize = 10;

/// Stable type tag used in warnings.
pub const TYPE_TAG: &'static str = "layers";

/// One row in the stack.
#[derive(Debug, Clone)]
pub struct Layer {
    /// Primary label (e.g., `"Application"`).
    pub label: String,
    /// Optional right-edge annotation (e.g., `"HTTP / HTTPS"`).
    pub annotation: Option<String>,
    /// Optional left-edge tag (e.g., `"L7"`).
    pub tag: Option<String>,
}

/// `{"type":"layers","layers":[...], "accent_idx":optional}`.
#[derive(Debug, Clone)]
pub struct LayersSpec {
    /// Top-to-bottom layer order. Index 0 renders at the top.
    pub layers: Vec<Layer>,
    /// Optional index of the single accent-highlighted layer.
    pub accent_idx: Option<usize>,
}

impl LayersSpec {
    /// The accent index, when present, must name one of the layers.
    pub fn validate(&self) -> (r: Result<(), ParseError>)
        ensures
            r == accent_check(self.accent_idx, self.layers@.len() as int),
    {
        check_accent(self.accent_idx, self.layers.len())
    }
}

/// Density warning when the layer count exceeds [`SOFT_CAP`].
pub fn warnings(spec: &LayersSpec) -> (w: Vec<Warning>)
    ensures
        w@ == density_warnings(TYPE_TAG, spec.layers@.len() as int, SOFT_CAP as int),
{
    density_warning(TYPE_TAG, spec.layers.len(), SOFT_CAP)
}

} // verus!
