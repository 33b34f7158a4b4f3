use makepad_diagram_kit::errors::{ParseError, Warning};
use makepad_diagram_kit::types::layers::{self, Layer, LayersSpec};
use makepad_diagram_kit::types::pyramid::{self, PyramidLevel, PyramidSpec};

fn three_level() -> PyramidSpec {
    PyramidSpec {
        levels: vec![
            PyramidLevel { label: "Mission".into(), sublabel: None },
            PyramidLevel { label: "Strategy".into(), sublabel: None },
            PyramidLevel { label: "Tactics".into(), sublabel: None },
        ],
        accent_idx: None,
    }
}

fn layer(label: &str) -> Layer {
    Layer { label: label.into(), annotation: None, tag: None }
}

fn sample_layers() -> LayersSpec {
    LayersSpec { layers: vec![layer("L3"), layer("L2"), layer("L1")], accent_idx: None }
}

#[test]
fn pyramid_accent_out_of_range_rejected() {
    let mut spec = three_level();
    spec.accent_idx = Some(5);
    assert!(matches!(
        spec.validate(),
        Err(ParseError::AccentOutOfRange { element_count: 3, accent_idx: 5 })
    ));
}

#[test]
fn test_density_warning() {
    let spec = PyramidSpec {
        levels: (0..8).map(|i| PyramidLevel { label: format!("L{i}"), sublabel: None }).collect(),
        accent_idx: None,
    };
    let w = pyramid::warnings(&spec);
    assert_eq!(w.len(), 1);
    assert_eq!(w[0].diagram_type(), "pyramid");
}

#[test]
fn pyramid_accent_in_range_accepted() {
    let mut spec = three_level();
    spec.accent_idx = Some(2);
    assert_eq!(spec.validate(), Ok(()));
    assert!(pyramid::warnings(&spec).is_empty());
}

#[test]
fn layers_accent_out_of_range_rejected() {
    let mut spec = sample_layers();
    spec.accent_idx = Some(99);
    let err = spec.validate().unwrap_err();
    assert!(matches!(err, ParseError::AccentOutOfRange { .. }));
}

#[test]
fn density_warning_above_soft_cap() {
    let mut spec = sample_layers();
    for i in 0..8 {
        spec.layers.push(Layer { label: format!("extra-{i}"), annotation: None, tag: None });
    }
    assert_eq!(spec.layers.len(), 11);
    let w = layers::warnings(&spec);
    assert_eq!(w.len(), 1);
    assert!(matches!(w[0], Warning::DensityHigh { count: 11, .. }));
}

#[test]
fn layers_at_soft_cap_do_not_warn() {
    let mut spec = sample_layers();
    for i in 0..7 {
        spec.layers.push(layer(&format!("x{i}")));
    }
    assert_eq!(spec.layers.len(), 10);
    assert!(layers::warnings(&spec).is_empty());
}
