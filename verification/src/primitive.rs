//! Styling enums shared by every drawing primitive.

use vstd::prelude::*;

verus! {

/// Horizontal text alignment anchor.
#[derive(Debug, Clone, Copy, PartialEq, Eq)]
pub enum TextAlign {
    Left,
    Center,
    Right,
}

/// Typographic weight hint for the renderer.
#[derive(Debug, Clone, Copy, PartialEq, Eq)]
pub enum TextWeight {
    Regular,
    Medium,
    SemiBold,
}

/// Line dashing style.
#[derive(Debug, Clone, Copy, PartialEq, Eq)]
pub enum LineStyle {
    Solid,
    Dashed,
}

} // verus!
