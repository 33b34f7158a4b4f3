//! Per-type diagram specs and the rules that apply to them after decoding.

pub mod architecture;
pub mod er;
pub mod flowchart;
pub mod graph;
pub mod layers;
pub mod nested;
pub mod pyramid;
pub mod quadrant;
pub mod sequence;
pub mod shared;
pub mod state;
pub mod swimlane;
pub mod timeline;
pub mod tree;
pub mod venn;

pub use architecture::ArchitectureSpec;
pub use er::ErSpec;
pub use flowchart::FlowchartSpec;
pub use layers::LayersSpec;
pub use nested::NestedSpec;
pub use pyramid::PyramidSpec;
pub use quadrant::QuadrantSpec;
pub use sequence::SequenceSpec;
pub use state::StateSpec;
pub use swimlane::SwimlaneSpec;
pub use timeline::TimelineSpec;
pub use tree::TreeSpec;
pub use venn::VennSpec;

use crate::errors::{ParseError, Warning};
use crate::types::shared::{accent_check, density_warnings};
use crate::types::tree::{node_count, tree_check};
use vstd::prelude::*;

verus! {

/// Top-level diagram, discriminated on the JSON `"type"` field.
#[derive(Debug, Clone)]
pub enum Diagram {
    Pyramid(PyramidSpec),
    Quadrant(QuadrantSpec),
    Tree(TreeSpec),
    Layers(LayersSpec),
    Flowchart(FlowchartSpec),
    Architecture(ArchitectureSpec),
    Sequence(SequenceSpec),
    State(StateSpec),
    Er(ErSpec),
    Timeline(TimelineSpec),
    Swimlane(SwimlaneSpec),
    Nested(NestedSpec),
    Venn(VennSpec),
}

/// The stable type tag of a diagram.
pub open spec fn tag_of(d: Diagram) -> &'static str {
    match d {
        Diagram::Pyramid(_) => pyramid::TYPE_TAG,
        Diagram::Quadrant(_) => quadrant::TYPE_TAG,
        Diagram::Tree(_) => tree::TYPE_TAG,
        Diagram::Layers(_) => layers::TYPE_TAG,
        Diagram::Flowchart(_) => flowchart::TYPE_TAG,
        Diagram::Architecture(_) => architecture::TYPE_TAG,
        Diagram::Sequence(_) => sequence::TYPE_TAG,
        Diagram::State(_) => state::TYPE_TAG,
        Diagram::Er(_) => er::TYPE_TAG,
        Diagram::Timeline(_) => timeline::TYPE_TAG,
        Diagram::Swimlane(_) => swimlane::TYPE_TAG,
        Diagram::Nested(_) => nested::TYPE_TAG,
        Diagram::Venn(_) => venn::TYPE_TAG,
    }
}

/// Element count used for size gating: the primary axis of each type
/// (levels, points, nodes, ...), plus the connections for the types that
/// have them as separate lists.
pub open spec fn element_count_of(d: Diagram) -> nat {
    match d {
        Diagram::Pyramid(s) => s.levels@.len(),
        Diagram::Quadrant(s) => s.points@.len(),
        Diagram::Tree(s) => node_count(s.root),
        Diagram::Layers(s) => s.layers@.len(),
        Diagram::Flowchart(s) => s.nodes@.len(),
        Diagram::Architecture(s) => s.nodes@.len(),
        Diagram::Sequence(s) => s.actors@.len() + s.messages@.len(),
        Diagram::State(s) => s.states@.len() + s.transitions@.len(),
        Diagram::Er(s) => s.entities@.len() + s.relationships@.len(),
        Diagram::Timeline(s) => s.events@.len(),
        Diagram::Swimlane(s) => s.lanes@.len() + s.steps@.len(),
        Diagram::Nested(s) => s.levels@.len(),
        Diagram::Venn(s) => s.sets@.len() + s.intersections@.len(),
    }
}

/// Density warnings that apply to a decoded diagram.
pub open spec fn warnings_of(d: Diagram) -> Seq<Warning> {
    match d {
        Diagram::Pyramid(s) => density_warnings(pyramid::TYPE_TAG, s.levels@.len() as int, pyramid::SOFT_CAP as int),
        Diagram::Quadrant(s) => density_warnings(quadrant::TYPE_TAG, s.points@.len() as int, quadrant::SOFT_CAP as int),
        Diagram::Tree(s) => density_warnings(tree::TYPE_TAG, node_count(s.root) as int, tree::SOFT_CAP as int),
        Diagram::Layers(s) => density_warnings(layers::TYPE_TAG, s.layers@.len() as int, layers::SOFT_CAP as int),
        Diagram::Flowchart(s) => density_warnings(flowchart::TYPE_TAG, s.nodes@.len() as int, flowchart::SOFT_CAP as int),
        Diagram::Architecture(s) => density_warnings(architecture::TYPE_TAG, s.nodes@.len() as int, architecture::SOFT_CAP as int),
        Diagram::Sequence(s) => density_warnings(sequence::TYPE_TAG, s.messages@.len() as int, sequence::SOFT_CAP as int),
        Diagram::State(s) => density_warnings(state::TYPE_TAG, s.states@.len() as int, state::SOFT_CAP as int),
        Diagram::Er(s) => density_warnings(er::TYPE_TAG, s.entities@.len() as int, er::SOFT_CAP as int),
        Diagram::Timeline(s) => density_warnings(timeline::TYPE_TAG, s.events@.len() as int, timeline::SOFT_CAP as int),
        Diagram::Swimlane(s) => density_warnings(swimlane::TYPE_TAG, s.steps@.len() as int, swimlane::SOFT_CAP as int),
        Diagram::Nested(s) => density_warnings(nested::TYPE_TAG, s.levels@.len() as int, nested::SOFT_CAP as int),
        Diagram::Venn(s) => density_warnings(venn::TYPE_TAG, s.sets@.len() as int, venn::SOFT_CAP as int),
    }
}

/// The density lint: each type is measured along its primary axis (pyramid
/// levels, quadrant points, tree nodes, layers, flowchart and architecture
/// nodes, sequence messages, states, ER entities, timeline events, swimlane
/// steps, nested levels, venn sets) against its soft cap; one
/// `DensityHigh` warning, reporting that count and cap under the type's tag,
/// comes exactly when the count exceeds the cap. Connections (transitions,
/// relationships, venn intersections, ...) never count.
pub proof fn lemma_density_rule(d: Diagram)
    ensures
        ({
            let (count, cap): (int, int) = match d {
                Diagram::Pyramid(s) => (s.levels@.len() as int, 7),
                Diagram::Quadrant(s) => (s.points@.len() as int, 20),
                Diagram::Tree(s) => (node_count(s.root) as int, 20),
                Diagram::Layers(s) => (s.layers@.len() as int, 10),
                Diagram::Flowchart(s) => (s.nodes@.len() as int, 15),
                Diagram::Architecture(s) => (s.nodes@.len() as int, 12),
                Diagram::Sequence(s) => (s.messages@.len() as int, 12),
                Diagram::State(s) => (s.states@.len() as int, 12),
                Diagram::Er(s) => (s.entities@.len() as int, 10),
                Diagram::Timeline(s) => (s.events@.len() as int, 14),
                Diagram::Swimlane(s) => (s.steps@.len() as int, 14),
                Diagram::Nested(s) => (s.levels@.len() as int, 5),
                Diagram::Venn(s) => (s.sets@.len() as int, 3),
            };
            warnings_of(d) == if count > cap {
                seq![
                    Warning::DensityHigh {
                        diagram_type: tag_of(d),
                        count: count as usize,
                        soft_cap: cap as usize,
                    },
                ]
            } else {
                Seq::<Warning>::empty()
            }
        }),
{
}

/// Per-type invariants that decoding alone does not check.
pub open spec fn check_of(d: Diagram) -> Result<(), ParseError> {
    match d {
        Diagram::Pyramid(s) => accent_check(s.accent_idx, s.levels@.len() as int),
        Diagram::Quadrant(s) => accent_check(s.accent_idx, s.points@.len() as int),
        Diagram::Tree(s) => tree_check(s),
        Diagram::Layers(s) => accent_check(s.accent_idx, s.layers@.len() as int),
        Diagram::Flowchart(s) => accent_check(s.accent_idx, s.nodes@.len() as int),
        Diagram::Architecture(_) => Ok(()),
        Diagram::Sequence(_) => Ok(()),
        Diagram::State(_) => Ok(()),
        Diagram::Er(_) => Ok(()),
        Diagram::Timeline(_) => Ok(()),
        Diagram::Swimlane(_) => Ok(()),
        Diagram::Nested(_) => Ok(()),
        Diagram::Venn(_) => Ok(()),
    }
}

/// The diagram's counts fit in a machine word (always true of a diagram
/// held in memory; stated so that counting cannot overflow).
pub open spec fn counts_fit(d: Diagram) -> bool {
    &&& element_count_of(d) <= usize::MAX
    &&& d matches Diagram::Tree(s) ==> node_count(s.root) <= usize::MAX
}

impl Diagram {
    /// Stable string tag used in warnings and diagnostic output.
    pub fn type_tag(&self) -> (t: &'static str)
        ensures
            t == tag_of(*self),
    {
        match self {
            Diagram::Pyramid(_) => pyramid::TYPE_TAG,
            Diagram::Quadrant(_) => quadrant::TYPE_TAG,
            Diagram::Tree(_) => tree::TYPE_TAG,
            Diagram::Layers(_) => layers::TYPE_TAG,
            Diagram::Flowchart(_) => flowchart::TYPE_TAG,
            Diagram::Architecture(_) => architecture::TYPE_TAG,
            Diagram::Sequence(_) => sequence::TYPE_TAG,
            Diagram::State(_) => state::TYPE_TAG,
            Diagram::Er(_) => er::TYPE_TAG,
            Diagram::Timeline(_) => timeline::TYPE_TAG,
            Diagram::Swimlane(_) => swimlane::TYPE_TAG,
            Diagram::Nested(_) => nested::TYPE_TAG,
            Diagram::Venn(_) => venn::TYPE_TAG,
        }
    }

    /// Total element count for size gating.
    pub fn element_count(&self) -> (n: usize)
        requires
            counts_fit(*self),
        ensures
            n == element_count_of(*self),
    {
        match self {
            Diagram::Pyramid(s) => s.levels.len(),
            Diagram::Quadrant(s) => s.points.len(),
            Diagram::Tree(s) => tree::count_nodes(&s.root),
            Diagram::Layers(s) => s.layers.len(),
            Diagram::Flowchart(s) => s.nodes.len(),
            Diagram::Architecture(s) => s.nodes.len(),
            Diagram::Sequence(s) => s.actors.len() + s.messages.len(),
            Diagram::State(s) => s.states.len() + s.transitions.len(),
            Diagram::Er(s) => s.entities.len() + s.relationships.len(),
            Diagram::Timeline(s) => s.events.len(),
            Diagram::Swimlane(s) => s.lanes.len() + s.steps.len(),
            Diagram::Nested(s) => s.levels.len(),
            Diagram::Venn(s) => s.sets.len() + s.intersections.len(),
        }
    }

    /// Density warnings that apply post-parse.
    pub fn warnings(&self) -> (w: Vec<Warning>)
        requires
            counts_fit(*self),
        ensures
            w@ == warnings_of(*self),
    {
        match self {
            Diagram::Pyramid(s) => pyramid::warnings(s),
            Diagram::Quadrant(s) => quadrant::warnings(s),
            Diagram::Tree(s) => tree::warnings(s),
            Diagram::Layers(s) => layers::warnings(s),
            Diagram::Flowchart(s) => flowchart::warnings(s),
            Diagram::Architecture(s) => architecture::warnings(s),
            Diagram::Sequence(s) => sequence::warnings(s),
            Diagram::State(s) => state::warnings(s),
            Diagram::Er(s) => er::warnings(s),
            Diagram::Timeline(s) => timeline::warnings(s),
            Diagram::Swimlane(s) => swimlane::warnings(s),
            Diagram::Nested(s) => nested::warnings(s),
            Diagram::Venn(s) => venn::warnings(s),
        }
    }

    /// Per-type invariants, including the accent range.
    pub fn validate(&self) -> (r: Result<(), ParseError>)
        requires
            counts_fit(*self),
        ensures
            r == check_of(*self),
    {
        match self {
            Diagram::Pyramid(s) => s.validate(),
            Diagram::Quadrant(s) => s.validate(),
            Diagram::Tree(s) => s.validate(),
            Diagram::Layers(s) => s.validate(),
            Diagram::Flowchart(s) => s.validate(),
            Diagram::Architecture(s) => s.validate(),
            Diagram::Sequence(s) => s.validate(),
            Diagram::State(s) => s.validate(),
            Diagram::Er(s) => s.validate(),
            Diagram::Timeline(s) => s.validate(),
            Diagram::Swimlane(s) => s.validate(),
            Diagram::Nested(s) => s.validate(),
            Diagram::Venn(s) => s.validate(),
        }
    }
}

} // verus!
