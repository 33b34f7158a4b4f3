//! Parse-time errors and non-fatal warnings.
//!
//! Parse errors are fatal: a diagram cannot be rendered when one is returned.
//! Warnings are advisory (the density lint) and always accompany a
//! successfully built diagram.

use vstd::prelude::*;

verus! {

/// Fatal error surfaced while parsing a diagram body.
#[derive(Debug, Clone, PartialEq, Eq)]
pub enum ParseError {
    /// JSON did not deserialize cleanly. `line` / `column` are 1-indexed.
    Malformed { line: usize, column: usize, message: String },
    /// The `"type"` discriminator did not name a shipped diagram type.
    UnknownType(String),
    /// `accent_idx` pointed past the diagram's element count.
    AccentOutOfRange { element_count: usize, accent_idx: usize },
    /// The JSON body exceeded the body-size limit; checked before any JSON
    /// decoding happens.
    BodyTooLarge(usize),
    /// The diagram's element count exceeded the node limit.
    TooManyNodes { actual: usize, limit: usize },
}

/// Non-fatal advisory surfaced alongside a successful parse.
#[derive(Debug, Clone, PartialEq, Eq)]
pub enum Warning {
    /// Element count exceeds this diagram type's soft cap.
    DensityHigh { diagram_type: &'static str, count: usize, soft_cap: usize },
}

impl Warning {
    /// The diagram type tag for which this warning fired.
    pub fn diagram_type(&self) -> (t: &'static str)
        ensures
            t == self->diagram_type,
    {
        match self {
            Warning::DensityHigh { diagram_type, .. } => diagram_type,
        }
    }
}

} // verus!
