use makepad_diagram_kit::theme::{Color, Palette};
use makepad_diagram_kit::types::architecture::{role_colors, role_is_accent, NodeRole};
use makepad_diagram_kit::types::flowchart::EdgeRole;
use makepad_diagram_kit::types::shared::edge_color_for_role;

#[test]
fn hex_parses_default_paper() {
    let c = Color::hex("#faf7f2");
    assert_eq!(c, Color::rgb(0xfa, 0xf7, 0xf2));
}

#[test]
fn light_and_dark_differ() {
    assert_ne!(Palette::light().paper, Palette::dark().paper);
}

#[test]
fn default_role_maps_to_muted() {
    let p = Palette::light();
    assert_eq!(edge_color_for_role(EdgeRole::Default, &p), p.muted);
}

#[test]
fn primary_role_maps_to_accent() {
    let p = Palette::light();
    assert_eq!(edge_color_for_role(EdgeRole::Primary, &p), p.accent);
}

#[test]
fn external_role_maps_to_link() {
    let p = Palette::light();
    assert_eq!(edge_color_for_role(EdgeRole::External, &p), p.link);
}

#[test]
fn dark_theme_uses_dark_link() {
    let d = Palette::dark();
    assert_eq!(edge_color_for_role(EdgeRole::External, &d), d.link);
    assert_ne!(edge_color_for_role(EdgeRole::External, &d), Palette::light().link);
}

#[test]
fn hex_reads_mixed_case_digits() {
    assert_eq!(Color::hex("#B5523a"), Color::rgba(0xb5, 0x52, 0x3a, 255));
    assert_eq!(Color::hex("#000000"), Color::rgb(0, 0, 0));
    assert_eq!(Color::hex("#FFFFFF"), Color::rgb(255, 255, 255));
}

#[test]
fn with_alpha_keeps_channels() {
    let c = Color::rgb(1, 2, 3).with_alpha(40);
    assert_eq!(c, Color::rgba(1, 2, 3, 40));
}

#[test]
fn light_palette_tokens() {
    let p = Palette::light();
    assert_eq!(p.ink, Color::rgb(0x1c, 0x19, 0x17));
    assert_eq!(p.accent, Color::rgb(0xb5, 0x52, 0x3a));
    assert_eq!(p.muted, Color::rgb(0x78, 0x71, 0x6c));
    assert_eq!(p.rule, Color::rgb(0xe7, 0xe5, 0xe4));
    assert_eq!(p.accent_tint, Color::rgba(0xb5, 0x52, 0x3a, 0x1a));
}

#[test]
fn dark_palette_swaps_paper_and_ink() {
    let l = Palette::light();
    let d = Palette::dark();
    assert_eq!(d.paper, l.ink);
    assert_eq!(d.ink, l.paper);
    assert_eq!(d.accent, Color::rgb(0xd9, 0x77, 0x57));
}

#[test]
fn architecture_role_fill_mapping() {
    let p = Palette::light();
    let cases = [
        (NodeRole::Focal, p.accent_tint, p.accent),
        (NodeRole::Backend, p.paper, p.ink),
        (NodeRole::Store, p.leaf_tint, p.muted),
        (NodeRole::External, p.leaf_tint, p.rule),
        (NodeRole::Input, p.leaf_tint, p.soft),
        (NodeRole::Optional, p.leaf_tint, p.rule),
        (NodeRole::Security, p.accent_tint, p.accent),
    ];
    for (role, fill, stroke) in cases {
        let (f, s) = role_colors(role, &p);
        assert_eq!(f, fill, "role {role:?} fill");
        assert_eq!(s, stroke, "role {role:?} stroke");
    }
    assert!(role_is_accent(NodeRole::Focal));
    for role in [
        NodeRole::Backend,
        NodeRole::Store,
        NodeRole::External,
        NodeRole::Input,
        NodeRole::Optional,
        NodeRole::Security,
    ] {
        assert!(!role_is_accent(role), "role {role:?} keeps the ink tag");
    }
}
