//! Sequence diagram: actors along the top with vertical lifelines, and
//! horizontal message arrows flowing top-to-bottom between lifelines.

use crate::errors::{ParseError, Warning};
use crate::primitive::LineStyle;
use crate::theme::{Color, Palette};
use crate::types::flowchart::EdgeRole;
use crate::types::shared::{density_warning, density_warnings};
use vstd::prelude::*;

verus! {

/// Soft cap above which a density warning is emitted (counted in messages).
pub const SOFT_CAP: usize = 12;

/// Stable type tag used in warnings.
pub const TYPE_TAG: &'static str = "sequence";

/// Semantic role for a sequence actor.
#[derive(Debug, Clone, Copy, PartialEq, Eq)]
pub enum ActorRole {
    /// Regular actor: paper fill, ink stroke.
    Default,
    /// The load-bearing service: accent_tint fill, accent stroke.
    Focal,
}

/// One actor: a top-row box whose lifeline drops through all messages.
#[derive(Debug, Clone)]
pub struct Actor {
    /// Unique ID referenced by `from`/`to` on messages.
    pub id: String,
    /// Primary label.
    pub label: String,
    /// Eyebrow tag rendered in the top-left of the actor box.
    pub tag: Option<String>,
    /// Second line under the label.
    pub sublabel: Option<String>,
    pub role: ActorRole,
}

/// One time-ordered message between two actors, by actor `id`; when they
/// match, this is a self-message.
#[derive(Debug, Clone)]
pub struct SequenceMessage {
    pub from: String,
    pub to: String,
    pub label: Option<String>,
    pub role: EdgeRole,
    /// Call vs return styling.
    pub kind: MessageKind,
    /// Optional ordinal prefix; carried but not rendered.
    pub number: Option<String>,
}

/// Message direction semantics.
#[derive(Debug, Clone, Copy, PartialEq, Eq)]
pub enum MessageKind {
    /// Regular call/request.
    Call,
    /// Response/return message.
    Return,
}

/// `{"type":"sequence","actors":[...],"messages":[...],"number":optional}`.
#[derive(Debug, Clone)]
pub struct SequenceSpec {
    pub actors: Vec<Actor>,
    pub messages: Vec<SequenceMessage>,
    /// Optional top-level numbering directive; carried but not rendered.
    pub number: Option<String>,
}

impl SequenceSpec {
    /// Role drives the accent; duplicate actor ids and unknown endpoints
    /// are tolerated by the layout.
    pub fn validate(&self) -> (r: Result<(), ParseError>)
        ensures
            r == Ok::<(), ParseError>(()),
    {
        Ok(())
    }
}

/// Density warning when the message count exceeds [`SOFT_CAP`].
pub fn warnings(spec: &SequenceSpec) -> (w: Vec<Warning>)
    ensures
        w@ == density_warnings(TYPE_TAG, spec.messages@.len() as int, SOFT_CAP as int),
{
    density_warning(TYPE_TAG, spec.messages.len(), SOFT_CAP)
}

/// Map an [`ActorRole`] to its (fill, stroke) pair.
pub fn actor_role_colors(role: ActorRole, palette: &Palette) -> (c: (Color, Color))
    ensures
        c == (match role {
            ActorRole::Focal => (palette.accent_tint, palette.accent),
            ActorRole::Default => (palette.paper, palette.ink),
        }),
{
    match role {
        ActorRole::Focal => (palette.accent_tint, palette.accent),
        ActorRole::Default => (palette.paper, palette.ink),
    }
}

/// Only a focal actor takes the accent hue for its tag and label.
pub fn role_is_accent(role: ActorRole) -> (b: bool)
    ensures
        b == (role == ActorRole::Focal),
{
    matches!(role, ActorRole::Focal)
}

/// Return messages and right-to-left messages draw dashed; everything else
/// (calls going right, self-messages) draws solid.
pub fn message_line_style(msg: &SequenceMessage, from_idx: usize, to_idx: usize) -> (s: LineStyle)
    ensures
        s == (if msg.kind == MessageKind::Return || from_idx > to_idx {
            LineStyle::Dashed
        } else {
            LineStyle::Solid
        }),
{
    if matches!(msg.kind, MessageKind::Return) || from_idx > to_idx {
        LineStyle::Dashed
    } else {
        LineStyle::Solid
    }
}

} // verus!
