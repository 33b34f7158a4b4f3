use makepad_diagram_kit::primitive::LineStyle;
use makepad_diagram_kit::theme::{Color, Palette};
use makepad_diagram_kit::types::er::{field_label, EntityField, FieldKey};
use makepad_diagram_kit::types::flowchart::EdgeRole;
use makepad_diagram_kit::types::nested::ring_stroke;
use makepad_diagram_kit::types::sequence::{
    actor_role_colors, message_line_style, role_is_accent, ActorRole, MessageKind, SequenceMessage,
};
use makepad_diagram_kit::types::venn::set_colors;

fn msg(kind: MessageKind) -> SequenceMessage {
    SequenceMessage {
        from: "a".into(),
        to: "b".into(),
        label: None,
        role: EdgeRole::Default,
        kind,
        number: None,
    }
}

#[test]
fn sequence_right_to_left_messages_render_as_dashed_returns() {
    assert_eq!(message_line_style(&msg(MessageKind::Call), 2, 0), LineStyle::Dashed);
    assert_eq!(message_line_style(&msg(MessageKind::Call), 0, 2), LineStyle::Solid);
}

#[test]
fn sequence_explicit_return_kind_renders_dashed_even_left_to_right() {
    assert_eq!(message_line_style(&msg(MessageKind::Return), 0, 1), LineStyle::Dashed);
}

#[test]
fn self_message_call_is_solid() {
    assert_eq!(message_line_style(&msg(MessageKind::Call), 1, 1), LineStyle::Solid);
}

#[test]
fn sequence_role_colors() {
    let p = Palette::light();
    assert_eq!(actor_role_colors(ActorRole::Focal, &p), (p.accent_tint, p.accent));
    assert_eq!(actor_role_colors(ActorRole::Default, &p), (p.paper, p.ink));
    assert!(role_is_accent(ActorRole::Focal));
    assert!(!role_is_accent(ActorRole::Default));
}

#[test]
fn er_field_labels_mark_keys() {
    let f = |name: &str, ty: Option<&str>, key| EntityField {
        name: name.into(),
        ty: ty.map(|t| t.to_string()),
        key,
    };
    assert_eq!(field_label(&f("id", Some("uuid"), FieldKey::Pk)), "# id: uuid");
    assert_eq!(field_label(&f("user_id", Some("uuid"), FieldKey::Fk)), "-> user_id: uuid");
    assert_eq!(field_label(&f("name", None, FieldKey::Plain)), "name");
    assert_eq!(field_label(&f("name", Some(""), FieldKey::Plain)), "name");
}

#[test]
fn nested_rings_darken_toward_the_core() {
    let p = Palette::light();
    assert_eq!(ring_stroke(3, 3, false, &p), p.ink);
    assert_eq!(ring_stroke(2, 3, false, &p), p.muted);
    assert_eq!(ring_stroke(0, 3, false, &p), p.rule);
    assert_eq!(ring_stroke(0, 3, true, &p), p.accent);
}

#[test]
fn venn_sets_cycle_through_three_treatments() {
    let p = Palette::light();
    assert_eq!(set_colors(0, &p), (p.ink.with_alpha(10), p.ink.with_alpha(150)));
    assert_eq!(set_colors(1, &p), (p.muted.with_alpha(12), p.muted));
    assert_eq!(set_colors(2, &p), (p.soft.with_alpha(12), p.soft));
    assert_eq!(set_colors(3, &p), set_colors(0, &p));
    let (fill, _) = set_colors(0, &p);
    assert_eq!(fill, Color::rgba(0x1c, 0x19, 0x17, 10));
}
