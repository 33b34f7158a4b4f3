//! Nested containment diagram: concentric rounded rectangles representing
//! scope levels.

use crate::errors::{ParseError, Warning};
use crate::theme::{Color, Palette};
use crate::types::shared::{density_warning, density_warnings};
use vstd::prelude::*;

verus! {

/// Soft cap above which a density warning is emitted (counted in levels).
pub const SOFT_CAP: usize = 5;

/// Stable type tag used in warnings.
pub const TYPE_TAG: &'static str = "nested";

#[derive(Debug, Clone, Copy, PartialEq, Eq)]
pub enum NestedRole {
    Default,
    Focal,
}

/// One scope level; level 0 is the outermost ring.
#[derive(Debug, Clone)]
pub struct NestedLevel {
    pub label: String,
    pub sublabel: Option<String>,
    pub role: NestedRole,
}

/// `{"type":"nested","levels":[...]}`.
#[derive(Debug, Clone)]
pub struct NestedSpec {
    pub levels: Vec<NestedLevel>,
}

impl NestedSpec {
    /// Role drives the accent; nothing to cross-check.
    pub fn validate(&self) -> (r: Result<(), ParseError>)
        ensures
            r == Ok::<(), ParseError>(()),
    {
        Ok(())
    }
}

/// Density warning when the level count exceeds [`SOFT_CAP`].
pub fn warnings(spec: &NestedSpec) -> (w: Vec<Warning>)
    ensures
        w@ == density_warnings(TYPE_TAG, spec.levels@.len() as int, SOFT_CAP as int),
{
    density_warning(TYPE_TAG, spec.levels.len(), SOFT_CAP)
}

/// Ring stroke: accent for the focal ring; otherwise ink for the innermost
/// ring, muted for the one around it, rule for every ring further out.
pub fn ring_stroke(idx: usize, last_idx: usize, focal: bool, palette: &Palette) -> (c: Color)
    ensures
        c == (if focal {
            palette.accent
        } else if idx == last_idx {
            palette.ink
        } else if idx + 1 == last_idx {
            palette.muted
        } else {
            palette.rule
        }),
{
    if focal {
        return palette.accent;
    }
    if idx == last_idx {
        palette.ink
    } else if idx < last_idx && idx + 1 == last_idx {
        palette.muted
    } else {
        palette.rule
    }
}

} // verus!
