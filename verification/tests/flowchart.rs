use makepad_diagram_kit::errors::{ParseError, Warning};
use makepad_diagram_kit::types::flowchart::{
    topo_order, warnings, EdgeRole, FlowEdge, FlowNode, FlowShape, FlowchartSpec,
};

fn node(id: &str, label: &str, shape: FlowShape) -> FlowNode {
    FlowNode { id: id.into(), label: label.into(), shape, tag: None }
}

fn edge(from: &str, to: &str) -> FlowEdge {
    FlowEdge { from: from.into(), to: to.into(), label: None, role: EdgeRole::Default }
}

fn sample() -> FlowchartSpec {
    FlowchartSpec {
        nodes: vec![
            node("start", "Start", FlowShape::Oval),
            node("check", "OK?", FlowShape::Diamond),
            node("end", "End", FlowShape::Oval),
        ],
        edges: vec![
            edge("start", "check"),
            FlowEdge {
                from: "check".into(),
                to: "end".into(),
                label: Some("yes".into()),
                role: EdgeRole::Default,
            },
        ],
        accent_idx: None,
    }
}

fn plain(ids: &[&str], edges: &[(&str, &str)]) -> FlowchartSpec {
    FlowchartSpec {
        nodes: ids.iter().map(|i| node(i, i, FlowShape::Rect)).collect(),
        edges: edges.iter().map(|(a, b)| edge(a, b)).collect(),
        accent_idx: None,
    }
}

#[test]
fn topo_orders_linear_chain() {
    let spec = sample();
    let order = topo_order(&spec);
    assert_eq!(order, vec![0, 1, 2]);
}

#[test]
fn flowchart_density_warning_fires_above_cap() {
    let mut spec = sample();
    for i in 0..20 {
        spec.nodes.push(FlowNode {
            id: format!("n{i}"),
            label: format!("N{i}"),
            shape: FlowShape::Rect,
            tag: None,
        });
    }
    let w = warnings(&spec);
    assert_eq!(w.len(), 1);
}

#[test]
fn accent_idx_out_of_range_rejected() {
    let mut spec = sample();
    spec.accent_idx = Some(99);
    assert!(matches!(spec.validate(), Err(ParseError::AccentOutOfRange { .. })));
}

#[test]
fn accent_idx_error_reports_count_and_index() {
    let mut spec = sample();
    spec.accent_idx = Some(3);
    assert_eq!(
        spec.validate(),
        Err(ParseError::AccentOutOfRange { element_count: 3, accent_idx: 3 })
    );
    spec.accent_idx = Some(2);
    assert_eq!(spec.validate(), Ok(()));
}

#[test]
fn density_warning_names_flowchart_at_sixteen_nodes() {
    let mut spec = plain(&[], &[]);
    for i in 0..16 {
        spec.nodes.push(node(&format!("n{i}"), "x", FlowShape::Rect));
    }
    let w = warnings(&spec);
    assert_eq!(w, vec![Warning::DensityHigh { diagram_type: "flowchart", count: 16, soft_cap: 15 }]);
    spec.nodes.pop();
    assert!(warnings(&spec).is_empty());
}

#[test]
fn topo_queue_is_first_in_first_out() {
    // Both sources are taken first, in node order; their targets follow in
    // the order they are released.
    let spec = plain(&["a", "b", "c", "d"], &[("a", "d"), ("b", "c")]);
    assert_eq!(topo_order(&spec), vec![0, 1, 3, 2]);
}

#[test]
fn topo_node_waits_for_all_incoming_edges() {
    let spec = plain(&["a", "b", "c"], &[("a", "c"), ("c", "b"), ("a", "b")]);
    assert_eq!(topo_order(&spec), vec![0, 2, 1]);
}

#[test]
fn topo_cycle_leftovers_follow_in_input_order() {
    let spec = plain(&["x", "a", "b", "y"], &[("a", "b"), ("b", "a"), ("x", "y")]);
    assert_eq!(topo_order(&spec), vec![0, 3, 1, 2]);
}

#[test]
fn topo_self_loop_never_releases() {
    let spec = plain(&["a", "b", "c"], &[("b", "b"), ("a", "b"), ("a", "c")]);
    assert_eq!(topo_order(&spec), vec![0, 2, 1]);
}

#[test]
fn topo_duplicate_id_resolves_to_last_node() {
    let spec = plain(&["a", "a", "b"], &[("b", "a")]);
    assert_eq!(topo_order(&spec), vec![0, 2, 1]);
}

#[test]
fn topo_ignores_edges_to_unknown_ids() {
    let spec = plain(&["a", "b"], &[("b", "zzz"), ("zzz", "a"), ("b", "a")]);
    assert_eq!(topo_order(&spec), vec![1, 0]);
}

#[test]
fn topo_empty_chart_is_empty() {
    let spec = plain(&[], &[]);
    assert!(topo_order(&spec).is_empty());
}

#[test]
fn topo_order_is_a_permutation() {
    let spec = plain(
        &["a", "b", "c", "d", "e", "f"],
        &[("f", "e"), ("e", "d"), ("d", "e"), ("c", "b"), ("b", "a")],
    );
    let order = topo_order(&spec);
    let mut sorted = order.clone();
    sorted.sort();
    assert_eq!(sorted, vec![0, 1, 2, 3, 4, 5]);
    assert_eq!(order, vec![2, 5, 1, 0, 3, 4]);
}
