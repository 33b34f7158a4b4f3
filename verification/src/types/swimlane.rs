//! Swimlane diagram: horizontal actor/team lanes with process steps and
//! handoff arrows.

use crate::errors::{ParseError, Warning};
use crate::types::flowchart::EdgeRole;
use crate::types::shared::{density_warning, density_warnings};
use vstd::prelude::*;

verus! {

/// Soft cap above which a density warning is emitted (counted in steps).
pub const SOFT_CAP: usize = 14;

/// Stable type tag used in warnings.
pub const TYPE_TAG: &'static str = "swimlane";

#[derive(Debug, Clone, Copy, PartialEq, Eq)]
pub enum StepRole {
    Default,
    Focal,
}

#[derive(Debug, Clone)]
pub struct Lane {
    pub id: String,
    pub label: String,
}

#[derive(Debug, Clone)]
pub struct Step {
    pub id: String,
    /// The `id` of the lane the step sits in.
    pub lane: String,
    pub label: String,
    pub sublabel: Option<String>,
    pub role: StepRole,
}

#[derive(Debug, Clone)]
pub struct SwimlaneEdge {
    pub from: String,
    pub to: String,
    pub label: Option<String>,
    pub role: EdgeRole,
}

/// `{"type":"swimlane","lanes":[...],"steps":[...],"edges":[...]}`.
#[derive(Debug, Clone)]
pub struct SwimlaneSpec {
    pub lanes: Vec<Lane>,
    pub steps: Vec<Step>,
    pub edges: Vec<SwimlaneEdge>,
}

impl SwimlaneSpec {
    /// Role drives the accent; nothing to cross-check.
    pub fn validate(&self) -> (r: Result<(), ParseError>)
        ensures
            r == Ok::<(), ParseError>(()),
    {
        Ok(())
    }
}

/// Density warning when the step count exceeds [`SOFT_CAP`].
pub fn warnings(spec: &SwimlaneSpec) -> (w: Vec<Warning>)
    ensures
        w@ == density_warnings(TYPE_TAG, spec.steps@.len() as int, SOFT_CAP as int),
{
    density_warning(TYPE_TAG, spec.steps.len(), SOFT_CAP)
}

} // verus!
