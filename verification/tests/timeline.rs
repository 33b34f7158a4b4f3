use makepad_diagram_kit::types::timeline::{
    day_range, event_days, event_days_in_range, iso_day_in_range, parse_iso_day, warnings, EventRole, TimelineEvent,
    TimelineSpec,
};

fn event(time: &str) -> TimelineEvent {
    TimelineEvent { time: time.into(), label: "x".into(), sublabel: None, role: EventRole::Default }
}

#[test]
fn epoch_is_day_zero() {
    assert_eq!(parse_iso_day("1970-01-01"), Some(0));
    assert_eq!(parse_iso_day("1969-12-31"), Some(-1));
}

#[test]
fn known_ordinals() {
    assert_eq!(parse_iso_day("2000-01-01"), Some(10957));
    assert_eq!(parse_iso_day("2024-02-29"), Some(19782));
    assert_eq!(parse_iso_day("2024-1-5"), Some(19727));
    assert_eq!(parse_iso_day("+2024-01-05"), Some(19727));
    assert_eq!(parse_iso_day("1900-03-01"), Some(-25508));
    assert_eq!(parse_iso_day("0001-01-01"), Some(-719162));
}

#[test]
fn successive_days_have_successive_ordinals() {
    let pairs = [
        ("2025-12-31", "2026-01-01"),
        ("2024-02-28", "2024-02-29"),
        ("2024-02-29", "2024-03-01"),
        ("1900-02-28", "1900-03-01"),
        ("2000-02-28", "2000-02-29"),
        ("2023-04-30", "2023-05-01"),
    ];
    for (a, b) in pairs {
        let da = parse_iso_day(a).unwrap();
        let db = parse_iso_day(b).unwrap();
        assert_eq!(db, da + 1, "{a} -> {b}");
    }
}

#[test]
fn invalid_dates_are_none() {
    for s in [
        "2023-02-29", "1900-02-29", "2024-13-01", "2024-00-10", "2024-01-32", "2024-04-31",
        "2024-01-00", "abc", "", "2024-01", "2024", "-2024-01-01", "2024-01-05T10:00", "2024- 01-05",
        "2024-+-5", "2024-01-", "99999999999-01-01",
    ] {
        assert_eq!(parse_iso_day(s), None, "{s}");
    }
}

#[test]
fn fields_past_the_third_are_ignored() {
    assert_eq!(parse_iso_day("2024-01-05-extra"), Some(19727));
}

#[test]
fn range_check_rejects_only_overflowing_years() {
    assert!(iso_day_in_range("2024-01-05"));
    assert!(iso_day_in_range("not a date"));
    assert!(iso_day_in_range("5000000-01-01"));
    assert!(!iso_day_in_range("9999999-01-01"));
    // A leading '-' leaves the year field empty: no date, nothing to overflow.
    assert!(iso_day_in_range("-2000000000-01-01"));
    assert_eq!(parse_iso_day("-2000000000-01-01"), None);
}

#[test]
fn event_days_needs_every_event_to_be_a_date() {
    let spec = TimelineSpec {
        events: vec![event("2024-01-05"), event("1970-01-01"), event("2000-01-01")],
        axis_label: None,
    };
    assert_eq!(event_days(&spec), Some(vec![19727, 0, 10957]));
    let spec = TimelineSpec { events: vec![event("2024-01-05"), event("Q3")], axis_label: None };
    assert_eq!(event_days(&spec), None);
}

#[test]
fn day_range_finds_extremes() {
    assert_eq!(day_range(&[19727, 0, 10957]), Some((0, 19727)));
    assert_eq!(day_range(&[5]), Some((5, 5)));
    assert_eq!(day_range(&[]), None);
}

#[test]
fn timeline_density_warning() {
    let spec = TimelineSpec { events: (0..15).map(|_| event("x")).collect(), axis_label: None };
    assert_eq!(warnings(&spec).len(), 1);
    let spec = TimelineSpec { events: (0..14).map(|_| event("x")).collect(), axis_label: None };
    assert!(warnings(&spec).is_empty());
}

#[test]
fn event_days_stop_at_the_first_non_date() {
    let spec = TimelineSpec { events: vec![event("Q3"), event("9999999-01-01")], axis_label: None };
    assert!(event_days_in_range(&spec));
    assert_eq!(event_days(&spec), None);
    let spec = TimelineSpec {
        events: vec![event("2024-01-01"), event("9999999-01-01")],
        axis_label: None,
    };
    assert!(!event_days_in_range(&spec));
    let spec = TimelineSpec { events: vec![event("2024-01-01"), event("1970-01-01")], axis_label: None };
    assert!(event_days_in_range(&spec));
}
