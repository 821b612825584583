//! Tests for the time and identifier boundary: the Date header line,
//! RFC 3339 timestamps, and UUID text, held against chrono and uuid
//! directly.

use chrono::{DateTime, Utc};
use tusk_rs::clock::{date_header_string, now_parts, DateParts, Timestamp, UuidValue};
use tusk_rs::json::JsonObject;

#[test]
fn date_header_formats_fixed_moment() {
    let p = DateParts { year: 2021, month: 2, day: 3, hour: 4, minute: 5, second: 6, weekday: 2 };
    assert_eq!(date_header_string(p), "Wed, 3 Feb 2021 04:05:06 GMT");
}

#[test]
fn date_header_pads_time_fields_only() {
    let p = DateParts {
        year: 1999,
        month: 12,
        day: 31,
        hour: 23,
        minute: 59,
        second: 9,
        weekday: 4,
    };
    assert_eq!(date_header_string(p), "Fri, 31 Dec 1999 23:59:09 GMT");
}

#[test]
fn now_parts_fields_lie_in_range() {
    let p = now_parts();
    assert!((1..=12).contains(&p.month));
    assert!((1..=31).contains(&p.day));
    assert!(p.hour <= 23);
    assert!(p.minute <= 59);
    assert!(p.second <= 59);
    assert!(p.weekday <= 6);
}

#[test]
fn timestamp_canonicalizes_offsets_to_utc() {
    let t = Timestamp::parse("2020-06-01T12:00:00+02:00").unwrap();
    let expected = DateTime::parse_from_rfc3339("2020-06-01T12:00:00+02:00")
        .unwrap()
        .with_timezone(&Utc)
        .to_rfc3339();
    assert_eq!(t.as_text(), expected);
}

#[test]
fn timestamp_rejects_malformed_text() {
    assert!(Timestamp::parse("yesterday at noon").is_none());
}

#[test]
fn timestamp_rejects_instants_without_a_canonical_form() {
    // Converted to UTC this instant falls before year zero; its rendering
    // carries a sign the strict parser refuses, so no canonical form
    // exists and the parse reports none.
    assert!(Timestamp::parse("0000-01-01T00:00:00+01:00").is_none());
}

#[test]
fn timestamp_round_trips_through_json() {
    let t = Timestamp::parse("2020-06-01T10:00:00+00:00").unwrap();
    let mut o = JsonObject::empty();
    o.set("at", t.clone());
    let back: Timestamp = o.get("at").unwrap();
    assert_eq!(back, t);
}

#[test]
fn uuid_canonicalizes_case_and_braces() {
    let u = UuidValue::parse("{67E55044-10B1-426F-9247-BB680E5FE0C8}").unwrap();
    let expected = uuid::Uuid::parse_str("{67E55044-10B1-426F-9247-BB680E5FE0C8}")
        .unwrap()
        .to_string();
    assert_eq!(u.as_text(), expected);
    assert_eq!(u.as_text(), "67e55044-10b1-426f-9247-bb680e5fe0c8");
}

#[test]
fn uuid_rejects_malformed_text() {
    assert!(UuidValue::parse("not-a-uuid").is_none());
}

#[test]
fn uuid_parses_from_quoted_json_slice() {
    let o = JsonObject::from_string(
        "{\"id\": \"67e55044-10b1-426f-9247-bb680e5fe0c8\"}",
    );
    let id: UuidValue = o.get("id").unwrap();
    assert_eq!(id.as_text(), "67e55044-10b1-426f-9247-bb680e5fe0c8");
}
