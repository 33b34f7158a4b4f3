use makepad_diagram_kit::streaming::{close_open, trim_trailing_comma, LossyCursor};

fn candidates(body: &str) -> Vec<String> {
    let mut c = LossyCursor::start(body).expect("non-blank body");
    let mut out = Vec::new();
    while let Some(s) = c.next_candidate() {
        out.push(s);
    }
    out
}

#[test]
fn empty_input_returns_none() {
    assert!(LossyCursor::start("").is_none());
    assert!(LossyCursor::start("   ").is_none());
}

#[test]
fn blank_with_newlines_and_tabs_returns_none() {
    assert!(LossyCursor::start("\n\t \r\n").is_none());
    assert!(LossyCursor::start(" x ").is_some());
}

#[test]
fn dangling_comma_recovered() {
    let body = r#"{"type":"layers","layers":[{"label":"A"},"#;
    assert_eq!(close_open(body), r#"{"type":"layers","layers":[{"label":"A"}]}"#);
}

#[test]
fn test_pyramid_prefix_layout() {
    let cut = r#"{"type":"pyramid","levels":[
            {"label":"L1"},
            {"label":"L2"}"#;
    let closed = close_open(cut);
    assert_eq!(closed, format!("{cut}]}}"));
}

#[test]
fn close_open_of_balanced_body_trims_the_comma() {
    assert_eq!(close_open("{\"a\":1} ,  "), "{\"a\":1}");
    assert_eq!(close_open("{\"a\":1}"), "{\"a\":1}");
}

#[test]
fn close_open_gives_up_inside_a_string() {
    assert_eq!(close_open(r#"{"label":"unfinished"#), "");
    assert_eq!(close_open(r#"{"label":"a\"#), "");
}

#[test]
fn close_open_skips_brackets_inside_strings() {
    assert_eq!(close_open(r#"{"a":"[{","b":["#), r#"{"a":"[{","b":[]}"#);
    assert_eq!(close_open(r#"{"a":"x\"]","b":[1"#), r#"{"a":"x\"]","b":[1]}"#);
}

#[test]
fn trim_trailing_comma_drops_one_comma_and_surrounding_space() {
    assert_eq!(trim_trailing_comma("[1, 2 ,\n\t"), "[1, 2");
    assert_eq!(trim_trailing_comma("[1,,"), "[1,");
    assert_eq!(trim_trailing_comma("abc  "), "abc");
}

#[test]
fn candidates_come_body_first_then_closed_prefixes() {
    let got = candidates(r#"{"a":[1,"#);
    let want = vec![
        r#"{"a":[1,"#,
        r#"{"a":[1]}"#,
        r#"{"a":[1]}"#,
        r#"{"a":[]}"#,
        r#"{"a":}"#,
        r#"{"a"}"#,
        r#"{}"#,
    ];
    assert_eq!(got, want);
}

#[test]
fn unrecoverable_returns_none() {
    // The only candidates of a lone brace are the brace and its closed form;
    // neither is a diagram.
    assert_eq!(candidates("{"), vec!["{".to_string(), "{}".to_string()]);
}

#[test]
fn parses_valid_body_fastpath() {
    // A complete body is the first candidate a lossy parse tries.
    let body = r#"{"type":"layers","layers":[{"label":"A"}]}"#;
    let mut c = LossyCursor::start(body).unwrap();
    assert_eq!(c.next_candidate(), Some(body.to_string()));
}
