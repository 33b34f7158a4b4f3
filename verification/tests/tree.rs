use makepad_diagram_kit::errors::{ParseError, Warning};
use makepad_diagram_kit::types::tree::{count_nodes, path_exists, warnings, TreeNode, TreeSpec};

fn leaf(label: &str) -> TreeNode {
    TreeNode { label: label.into(), sublabel: None, children: vec![] }
}

fn sample_tree() -> TreeSpec {
    TreeSpec {
        root: TreeNode {
            label: "A".into(),
            sublabel: None,
            children: vec![
                leaf("B"),
                TreeNode { label: "C".into(), sublabel: None, children: vec![leaf("D")] },
            ],
        },
        accent_path: None,
    }
}

#[test]
fn accent_path_out_of_range_rejected() {
    let mut spec = sample_tree();
    spec.accent_path = Some(vec![0, 5]);
    assert!(matches!(spec.validate(), Err(ParseError::AccentOutOfRange { .. })));
}

#[test]
fn accent_path_error_reports_node_count_and_last_step() {
    let mut spec = sample_tree();
    spec.accent_path = Some(vec![0, 5]);
    assert_eq!(
        spec.validate(),
        Err(ParseError::AccentOutOfRange { element_count: 4, accent_idx: 5 })
    );
    spec.accent_path = Some(vec![2]);
    assert_eq!(
        spec.validate(),
        Err(ParseError::AccentOutOfRange { element_count: 4, accent_idx: 2 })
    );
}

#[test]
fn accent_path_that_leads_to_a_node_is_accepted() {
    let mut spec = sample_tree();
    spec.accent_path = Some(vec![1, 0]);
    assert_eq!(spec.validate(), Ok(()));
    spec.accent_path = Some(vec![]);
    assert_eq!(spec.validate(), Ok(()));
}

#[test]
fn tree_density_warning_fires_above_cap() {
    let mut root = leaf("root");
    for i in 0..25 {
        root.children.push(leaf(&format!("c{i}")));
    }
    let spec = TreeSpec { root, accent_path: None };
    let w = warnings(&spec);
    assert_eq!(w.len(), 1);
    assert_eq!(w[0], Warning::DensityHigh { diagram_type: "tree", count: 26, soft_cap: 20 });
}

#[test]
fn count_nodes_counts_every_level() {
    let spec = sample_tree();
    assert_eq!(count_nodes(&spec.root), 4);
    assert_eq!(count_nodes(&leaf("x")), 1);
}

#[test]
fn path_exists_follows_child_indices() {
    let spec = sample_tree();
    assert!(path_exists(&spec.root, &[]));
    assert!(path_exists(&spec.root, &[0]));
    assert!(path_exists(&spec.root, &[1, 0]));
    assert!(!path_exists(&spec.root, &[0, 0]));
    assert!(!path_exists(&spec.root, &[2]));
    assert!(!path_exists(&spec.root, &[1, 0, 0]));
}

#[test]
fn clone_copies_the_whole_tree() {
    let mut spec = sample_tree();
    spec.accent_path = Some(vec![1, 0]);
    let copy = spec.clone();
    assert_eq!(count_nodes(&copy.root), 4);
    assert_eq!(copy.root.children[1].children[0].label, "D");
    assert_eq!(copy.accent_path, Some(vec![1, 0]));
    assert_eq!(copy.validate(), Ok(()));
}
