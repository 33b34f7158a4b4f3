use makepad_diagram_kit::errors::{ParseError, Warning};
use makepad_diagram_kit::types::layers::{Layer, LayersSpec};
use makepad_diagram_kit::types::pyramid::{PyramidLevel, PyramidSpec};
use makepad_diagram_kit::types::tree::{TreeNode, TreeSpec};
use makepad_diagram_kit::types::Diagram;
use makepad_diagram_kit::{check_body, finish_parse, pre_scan_unknown_type, DiagramLimits};

fn pyramid(n: usize, accent_idx: Option<usize>) -> Diagram {
    Diagram::Pyramid(PyramidSpec {
        levels: (0..n).map(|i| PyramidLevel { label: format!("L{i}"), sublabel: None }).collect(),
        accent_idx,
    })
}

#[test]
fn test_unknown_type_rejected() {
    let body = r#"{"type":"sunburst","data":[]}"#;
    let err = check_body(body).unwrap_err();
    assert!(matches!(err, ParseError::UnknownType(ref t) if t == "sunburst"));
}

#[test]
fn test_oversize_body_rejected() {
    let body = "x".repeat(DiagramLimits::MAX_BODY_BYTES + 1);
    let err = check_body(&body).unwrap_err();
    match err {
        ParseError::BodyTooLarge(size) => {
            assert!(size > DiagramLimits::MAX_BODY_BYTES);
        }
        _ => panic!("expected BodyTooLarge, got {err:?}"),
    }
}

#[test]
fn body_at_the_limit_passes_the_size_gate() {
    let body = "x".repeat(DiagramLimits::MAX_BODY_BYTES);
    assert_eq!(check_body(&body), Ok(()));
}

#[test]
fn too_many_nodes_rejected() {
    let err = finish_parse(pyramid(DiagramLimits::MAX_NODES + 1, None)).unwrap_err();
    assert!(matches!(err, ParseError::TooManyNodes { .. }));
    assert_eq!(err, ParseError::TooManyNodes { actual: 31, limit: 30 });
}

#[test]
fn density_warning_pyramid_8_levels() {
    let (_d, warnings) = finish_parse(pyramid(8, None)).unwrap();
    assert_eq!(warnings.len(), 1);
    assert!(matches!(warnings[0], Warning::DensityHigh { .. }));
}

#[test]
fn accent_idx_out_of_range_rejected_at_parse() {
    let err = finish_parse(pyramid(1, Some(5))).unwrap_err();
    assert!(matches!(err, ParseError::AccentOutOfRange { element_count: 1, accent_idx: 5 }));
}

#[test]
fn node_cap_is_checked_before_the_accent() {
    let err = finish_parse(pyramid(40, Some(99))).unwrap_err();
    assert_eq!(err, ParseError::TooManyNodes { actual: 40, limit: 30 });
}

#[test]
fn clean_diagram_comes_back_unchanged() {
    let d = Diagram::Layers(LayersSpec {
        layers: vec![Layer { label: "A".into(), annotation: None, tag: None }],
        accent_idx: Some(0),
    });
    let (back, warnings) = finish_parse(d).unwrap();
    assert!(warnings.is_empty());
    match back {
        Diagram::Layers(l) => {
            assert_eq!(l.layers.len(), 1);
            assert_eq!(l.accent_idx, Some(0));
        }
        _ => panic!("expected layers"),
    }
}

#[test]
fn tree_counts_every_node_against_the_cap() {
    let mut root = TreeNode { label: "r".into(), sublabel: None, children: vec![] };
    for i in 0..30 {
        root.children.push(TreeNode { label: format!("c{i}"), sublabel: None, children: vec![] });
    }
    let d = Diagram::Tree(TreeSpec { root, accent_path: None });
    assert_eq!(d.element_count(), 31);
    assert_eq!(d.type_tag(), "tree");
    assert_eq!(finish_parse(d).unwrap_err(), ParseError::TooManyNodes { actual: 31, limit: 30 });
}

#[test]
fn pre_scan_finds_unknown_tags_only() {
    assert_eq!(pre_scan_unknown_type(r#"{"type":"sunburst"}"#), Some("sunburst".to_string()));
    assert_eq!(pre_scan_unknown_type(r#"{"type" :  "pyramid","levels":[]}"#), None);
    assert_eq!(pre_scan_unknown_type(r#"{ "type":	"venn" }"#), None);
    assert_eq!(pre_scan_unknown_type(r#"{"type":"architecture"}"#), None);
    assert_eq!(pre_scan_unknown_type(r#"{"levels":[]}"#), None);
    assert_eq!(pre_scan_unknown_type(r#"{"type": 5}"#), None);
    assert_eq!(pre_scan_unknown_type(r#"{"type":"unterminated"#), None);
    assert_eq!(pre_scan_unknown_type(r#"{"type":"Pyramid"}"#), Some("Pyramid".to_string()));
    assert_eq!(pre_scan_unknown_type(r#"{"type":""}"#), Some(String::new()));
}

#[test]
fn every_shipped_tag_is_known() {
    for tag in [
        "pyramid", "quadrant", "tree", "layers", "flowchart", "architecture", "sequence", "state",
        "er", "timeline", "swimlane", "nested", "venn",
    ] {
        let body = format!(r#"{{"type":"{tag}"}}"#);
        assert_eq!(check_body(&body), Ok(()), "{tag}");
    }
}

#[test]
fn nested_type_keys_are_not_the_diagram_type() {
    assert_eq!(pre_scan_unknown_type(r#"{"x":{"type":"q"},"type":"er"}"#), None);
    assert_eq!(check_body(r#"{"x":{"type":"q"},"type":"er"}"#), Ok(()));
    let er = r#"{"entities":[{"id":"u","name":"User","fields":[{"name":"id","type":"uuid","key":"pk"}]}],"type":"er"}"#;
    assert_eq!(check_body(er), Ok(()));
    assert_eq!(
        pre_scan_unknown_type(r#"{"x":{"type":"q"},"type":"sunburst"}"#),
        Some("sunburst".to_string())
    );
}

#[test]
fn type_key_inside_a_string_or_array_is_not_the_diagram_type() {
    assert_eq!(pre_scan_unknown_type(r#"{"label":"\"type\":\"q\"","type":"tree"}"#), None);
    assert_eq!(pre_scan_unknown_type(r#"[{"type":"q"}]"#), None);
    assert_eq!(pre_scan_unknown_type(r#"{"label":"\"type\":\"q\""}"#), None);
}

#[test]
fn a_type_string_value_is_not_the_type_key() {
    assert_eq!(pre_scan_unknown_type(r#"{"a":"type","b":"x","type":"tree"}"#), None);
    assert_eq!(check_body(r#"{"a":"type","b":"x","type":"tree"}"#), Ok(()));
    assert_eq!(
        pre_scan_unknown_type(r#"{"a":"type","b":"x","type" : "sunburst"}"#),
        Some("sunburst".to_string())
    );
    assert_eq!(pre_scan_unknown_type(r#"{"a":"type"}"#), None);
}
