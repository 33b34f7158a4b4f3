//! State-machine diagram: rounded states, start/end dots, and labeled
//! transitions.

use crate::errors::{ParseError, Warning};
use crate::types::flowchart::EdgeRole;
use crate::types::shared::{density_warning, density_warnings};
use vstd::prelude::*;

verus! {

/// Soft cap above which a density warning is emitted (counted in states).
pub const SOFT_CAP: usize = 12;

/// Stable type tag used in warnings.
pub const TYPE_TAG: &'static str = "state";

/// What a state node is drawn as.
#[derive(Debug, Clone, Copy, PartialEq, Eq)]
pub enum StateKind {
    State,
    Start,
    End,
}

#[derive(Debug, Clone, Copy, PartialEq, Eq)]
pub enum StateRole {
    Default,
    Focal,
}

/// Axis along which the states are laid out.
#[derive(Debug, Clone, Copy, PartialEq, Eq)]
pub enum Orientation {
    Lr,
    Tb,
}

#[derive(Debug, Clone)]
pub struct StateNode {
    pub id: String,
    pub label: String,
    pub kind: StateKind,
    pub role: StateRole,
}

#[derive(Debug, Clone)]
pub struct StateTransition {
    pub from: String,
    pub to: String,
    pub label: Option<String>,
    pub role: EdgeRole,
}

/// `{"type":"state","states":[...],"transitions":[...],"orientation":..}`.
#[derive(Debug, Clone)]
pub struct StateSpec {
    pub states: Vec<StateNode>,
    pub transitions: Vec<StateTransition>,
    pub orientation: Orientation,
}

impl StateSpec {
    /// Role drives the accent; nothing to cross-check.
    pub fn validate(&self) -> (r: Result<(), ParseError>)
        ensures
            r == Ok::<(), ParseError>(()),
    {
        Ok(())
    }
}

/// Density warning when the state count exceeds [`SOFT_CAP`].
pub fn warnings(spec: &StateSpec) -> (w: Vec<Warning>)
    ensures
        w@ == density_warnings(TYPE_TAG, spec.states@.len() as int, SOFT_CAP as int),
{
    density_warning(TYPE_TAG, spec.states.len(), SOFT_CAP)
}

} // verus!
