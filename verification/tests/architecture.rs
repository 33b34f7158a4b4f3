use makepad_diagram_kit::errors::Warning;
use makepad_diagram_kit::types::architecture::{
    assign_ranks, group_by_rank, warnings, ArchEdge, ArchNode, ArchitectureSpec, NodeRole,
    Orientation,
};
use makepad_diagram_kit::types::flowchart::EdgeRole;

fn node(id: &str, label: &str, tag: &str, role: NodeRole, sublabel: Option<&str>) -> ArchNode {
    ArchNode {
        id: id.into(),
        label: label.into(),
        tag: Some(tag.into()),
        sublabel: sublabel.map(|s| s.to_string()),
        role,
    }
}

fn edge(from: &str, to: &str, label: &str, role: EdgeRole) -> ArchEdge {
    ArchEdge { from: from.into(), to: to.into(), label: Some(label.into()), role }
}

/// The README architecture: reader -> edge -> orig -> {bun, cms}.
fn readme() -> ArchitectureSpec {
    ArchitectureSpec {
        nodes: vec![
            node("reader", "Reader", "EXT", NodeRole::External, None),
            node("edge", "Cloudflare", "EDGE", NodeRole::Backend, Some("Pages · cache")),
            node("orig", "Astro Origin", "ORIG", NodeRole::Focal, Some("SSR + MDX")),
            node("bun", "MDX Bundle", "BUN", NodeRole::Backend, None),
            node("cms", "Content CMS", "CMS", NodeRole::Store, None),
        ],
        edges: vec![
            edge("reader", "edge", "HTTPS", EdgeRole::External),
            edge("edge", "orig", "SSR", EdgeRole::Primary),
            edge("orig", "bun", "READ MDX", EdgeRole::Default),
            edge("orig", "cms", "QUERY", EdgeRole::Default),
        ],
        orientation: Orientation::Lr,
    }
}

fn plain(ids: &[&str], edges: &[(&str, &str)]) -> ArchitectureSpec {
    ArchitectureSpec {
        nodes: ids.iter().map(|i| node(i, i, "T", NodeRole::Backend, None)).collect(),
        edges: edges.iter().map(|(a, b)| edge(a, b, "", EdgeRole::Default)).collect(),
        orientation: Orientation::Lr,
    }
}

#[test]
fn rank_assignment_places_longest_path() {
    let spec = readme();
    let ranks = assign_ranks(&spec);
    let by_id: std::collections::HashMap<_, _> =
        spec.nodes.iter().zip(ranks.iter()).map(|(n, r)| (n.id.clone(), *r)).collect();
    assert_eq!(by_id["reader"], 0);
    assert_eq!(by_id["edge"], 1);
    assert_eq!(by_id["orig"], 2);
    assert_eq!(by_id["bun"], 3);
    assert_eq!(by_id["cms"], 3);
}

#[test]
fn architecture_density_warning_above_cap() {
    let mut spec = plain(&[], &[]);
    for i in 0..15 {
        spec.nodes.push(node(&format!("n{i}"), &format!("N{i}"), "T", NodeRole::Backend, None));
    }
    let w = warnings(&spec);
    assert_eq!(w.len(), 1);
    assert!(matches!(w[0], Warning::DensityHigh { count: 15, .. }));
}

#[test]
fn no_density_warning_at_five_nodes() {
    assert!(warnings(&readme()).is_empty());
}

#[test]
fn ranks_take_the_longest_path_not_the_shortest() {
    // a -> b -> c and a -> c: c sits after b.
    let spec = plain(&["a", "b", "c"], &[("a", "b"), ("b", "c"), ("a", "c")]);
    assert_eq!(assign_ranks(&spec), vec![0, 1, 2]);
}

#[test]
fn ranks_ignore_self_edges() {
    let spec = plain(&["a", "b"], &[("b", "b"), ("a", "b")]);
    assert_eq!(assign_ranks(&spec), vec![0, 1]);
}

#[test]
fn ranks_on_a_cycle_keep_what_settled_nodes_give() {
    // x -> a, a <-> b: a gets 1 from x, b is never reached and stays 0.
    let spec = plain(&["x", "a", "b"], &[("x", "a"), ("a", "b"), ("b", "a")]);
    assert_eq!(assign_ranks(&spec), vec![0, 1, 0]);
}

#[test]
fn ranks_of_empty_spec_are_empty() {
    assert!(assign_ranks(&plain(&[], &[])).is_empty());
}

#[test]
fn group_by_rank_keeps_node_order() {
    let groups = group_by_rank(&vec![0, 1, 2, 3, 3]);
    assert_eq!(groups, vec![vec![0], vec![1], vec![2], vec![3, 4]]);
    let groups = group_by_rank(&vec![2, 0, 2, 0]);
    assert_eq!(groups, vec![vec![1, 3], vec![], vec![0, 2]]);
}

#[test]
fn group_by_rank_of_nothing_is_one_empty_group() {
    assert_eq!(group_by_rank(&vec![]), vec![Vec::<usize>::new()]);
}

#[test]
fn validate_accepts_any_architecture() {
    assert_eq!(readme().validate(), Ok(()));
}
