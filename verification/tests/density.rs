use makepad_diagram_kit::errors::Warning;
use makepad_diagram_kit::types::flowchart::EdgeRole;
use makepad_diagram_kit::types::quadrant::{self, Axes, Axis, QuadrantPoint, QuadrantSpec, SOFT_CAP};
use makepad_diagram_kit::types::sequence::{
    self, Actor, ActorRole, MessageKind, SequenceMessage, SequenceSpec,
};
use makepad_diagram_kit::types::Diagram;
use makepad_diagram_kit::finish_parse;

fn axis(min: f32, max: f32) -> Axis {
    Axis { min_bits: min.to_bits(), max_bits: max.to_bits(), low_label: None, high_label: None }
}

fn point(x: f32, y: f32, label: &str) -> QuadrantPoint {
    QuadrantPoint { x_bits: x.to_bits(), y_bits: y.to_bits(), label: label.into() }
}

#[test]
fn quadrant_density_warning_fires_above_cap() {
    let mut spec = QuadrantSpec {
        axes: Axes { x: axis(0.0, 100.0), y: axis(0.0, 10.0) },
        points: vec![point(50.0, 5.0, "mid"), point(100.0, 10.0, "tr"), point(0.0, 0.0, "bl")],
        accent_idx: None,
    };
    while spec.points.len() <= SOFT_CAP {
        spec.points.push(point(50.0, 5.0, "x"));
    }
    let w = quadrant::warnings(&spec);
    assert_eq!(w.len(), 1);
}

#[test]
fn sequence_density_warning_above_cap() {
    let actor = |id: &str| Actor {
        id: id.into(),
        label: id.to_uppercase(),
        tag: None,
        sublabel: None,
        role: ActorRole::Default,
    };
    let msg = || SequenceMessage {
        from: "a".into(),
        to: "b".into(),
        label: Some("m".into()),
        role: EdgeRole::Default,
        kind: MessageKind::Call,
        number: None,
    };
    let spec = SequenceSpec {
        actors: vec![actor("a"), actor("b")],
        messages: (0..13).map(|_| msg()).collect(),
        number: None,
    };
    assert_eq!(sequence::warnings(&spec).len(), 1);
    let (_d, warnings) = finish_parse(Diagram::Sequence(spec)).unwrap();
    assert_eq!(warnings.len(), 1);
    assert!(matches!(warnings[0], Warning::DensityHigh { .. }));
}

#[test]
fn sequence_counts_actors_and_messages_against_the_node_cap() {
    let actor = |i: usize| Actor {
        id: format!("a{i}"),
        label: "A".into(),
        tag: None,
        sublabel: None,
        role: ActorRole::Default,
    };
    let spec = SequenceSpec { actors: (0..31).map(actor).collect(), messages: vec![], number: None };
    let d = Diagram::Sequence(spec);
    assert_eq!(d.element_count(), 31);
    assert!(finish_parse(d).is_err());
}
