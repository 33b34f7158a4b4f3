//! Venn / set-overlap diagram.
//!
//! A set's optional radius is a real number; the library carries it as the
//! bit pattern of its `f32` value (`f32::to_bits`).

use crate::errors::{ParseError, Warning};
use crate::theme::{Color, Palette};
use crate::types::shared::{density_warning, density_warnings};
use vstd::prelude::*;

verus! {

/// Soft cap above which a density warning is emitted (counted in sets).
pub const SOFT_CAP: usize = 3;

/// Stable type tag used in warnings.
pub const TYPE_TAG: &'static str = "venn";

#[derive(Debug, Clone, Copy, PartialEq, Eq)]
pub enum IntersectionRole {
    Default,
    Focal,
}

#[derive(Debug, Clone)]
pub struct VennSet {
    pub id: String,
    pub label: String,
    pub sublabel: Option<String>,
    /// Bits of the optional `f32` circle radius.
    pub radius_bits: Option<u32>,
}

#[derive(Debug, Clone)]
pub struct VennIntersection {
    /// The `id`s of the overlapping sets.
    pub sets: Vec<String>,
    pub label: String,
    pub role: IntersectionRole,
}

/// `{"type":"venn","sets":[...],"intersections":[...]}`.
#[derive(Debug, Clone)]
pub struct VennSpec {
    pub sets: Vec<VennSet>,
    pub intersections: Vec<VennIntersection>,
}

impl VennSpec {
    /// Role drives the accent; nothing to cross-check.
    pub fn validate(&self) -> (r: Result<(), ParseError>)
        ensures
            r == Ok::<(), ParseError>(()),
    {
        Ok(())
    }
}

/// Density warning when the set count exceeds [`SOFT_CAP`].
pub fn warnings(spec: &VennSpec) -> (w: Vec<Warning>)
    ensures
        w@ == density_warnings(TYPE_TAG, spec.sets@.len() as int, SOFT_CAP as int),
{
    density_warning(TYPE_TAG, spec.sets.len(), SOFT_CAP)
}

/// (fill, stroke) of set `idx`, cycling through ink, muted and soft.
pub fn set_colors(idx: usize, palette: &Palette) -> (c: (Color, Color))
    ensures
        c == (if idx % 3 == 0 {
            (Color { a: 10, ..palette.ink }, Color { a: 150, ..palette.ink })
        } else if idx % 3 == 1 {
            (Color { a: 12, ..palette.muted }, palette.muted)
        } else {
            (Color { a: 12, ..palette.soft }, palette.soft)
        }),
{
    let m = idx % 3;
    if m == 0 {
        (palette.ink.with_alpha(10), palette.ink.with_alpha(150))
    } else if m == 1 {
        (palette.muted.with_alpha(12), palette.muted)
    } else {
        (palette.soft.with_alpha(12), palette.soft)
    }
}

} // verus!
