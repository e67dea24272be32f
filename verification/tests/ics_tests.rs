use caldav_ics_sync::datetime::{
    event_end_parsed, is_event_in_future, parse_ics_value, DateTimeValue, DateValue, EventEnd,
};
use caldav_ics_sync::ics::{events_equal, extract_events, normalize_vevent, unfold_ics};
use chrono::{Datelike, Timelike};

fn today_value() -> DateValue {
    let d = chrono::Local::now().date_naive();
    DateValue { year: d.year() as u32, month: d.month(), day: d.day() }
}

fn now_value() -> DateTimeValue {
    let t = chrono::Utc::now().naive_utc();
    DateTimeValue {
        year: t.year() as u32,
        month: t.month(),
        day: t.day(),
        hour: t.hour(),
        minute: t.minute(),
        second: t.second(),
    }
}

#[test]
fn unfold_joins_continuation_lines() {
    let folded = "SUMMARY:Long event\r\n  name here";
    assert!(unfold_ics(folded).contains("SUMMARY:Long event name here"));
}

#[test]
fn normalize_strips_volatile_fields() {
    let vevent = "BEGIN:VEVENT\r\nUID:1\r\nDTSTAMP:20260101T000000Z\r\nSUMMARY:Test\r\nSEQUENCE:3\r\nEND:VEVENT";
    let lines = normalize_vevent(vevent);
    assert!(!lines.iter().any(|l| l.starts_with("DTSTAMP")));
    assert!(!lines.iter().any(|l| l.starts_with("SEQUENCE")));
    assert!(lines.iter().any(|l| l.starts_with("SUMMARY")));
}

#[test]
fn events_equal_ignores_dtstamp_difference() {
    let a = vec![
        "BEGIN:VEVENT\r\nUID:1\r\nDTSTAMP:20260101T000000Z\r\nSUMMARY:Test\r\nEND:VEVENT"
            .to_string(),
    ];
    let b = vec![
        "BEGIN:VEVENT\r\nUID:1\r\nDTSTAMP:20260221T120000Z\r\nSUMMARY:Test\r\nEND:VEVENT"
            .to_string(),
    ];
    assert!(events_equal(&a, &b));
}

#[test]
fn events_not_equal_when_summary_differs() {
    let a = vec!["BEGIN:VEVENT\r\nUID:1\r\nSUMMARY:Meeting A\r\nEND:VEVENT".to_string()];
    let b = vec!["BEGIN:VEVENT\r\nUID:1\r\nSUMMARY:Meeting B\r\nEND:VEVENT".to_string()];
    assert!(!events_equal(&a, &b));
}

#[test]
fn events_equal_different_vevent_count() {
    let a = vec!["BEGIN:VEVENT\r\nUID:1\r\nSUMMARY:Test\r\nEND:VEVENT".to_string()];
    let b = vec![
        "BEGIN:VEVENT\r\nUID:1\r\nSUMMARY:Test\r\nEND:VEVENT".to_string(),
        "BEGIN:VEVENT\r\nUID:1\r\nRECURRENCE-ID:20260308T100000Z\r\nSUMMARY:Override\r\nEND:VEVENT".to_string(),
    ];
    assert!(!events_equal(&a, &b));
}

#[test]
fn extract_events_parses_uids() {
    let ics = "BEGIN:VCALENDAR\r\nBEGIN:VEVENT\r\nUID:abc@test\r\nSUMMARY:Test\r\nEND:VEVENT\r\nEND:VCALENDAR";
    let extracted = extract_events(ics);
    assert_eq!(extracted.events.len(), 1);
    assert!(extracted.events.contains_key("abc@test"));
    assert_eq!(extracted.events.get("abc@test").unwrap().len(), 1);
}

#[test]
fn extract_events_groups_recurring_by_uid() {
    let ics = "BEGIN:VCALENDAR\r\n\
            BEGIN:VEVENT\r\n\
            UID:recurring@test\r\n\
            SUMMARY:Weekly Meeting\r\n\
            DTSTART:20260301T100000Z\r\n\
            DTEND:20260301T110000Z\r\n\
            RRULE:FREQ=WEEKLY\r\n\
            END:VEVENT\r\n\
            BEGIN:VEVENT\r\n\
            UID:recurring@test\r\n\
            RECURRENCE-ID:20260308T100000Z\r\n\
            SUMMARY:Weekly Meeting (moved)\r\n\
            DTSTART:20260308T140000Z\r\n\
            DTEND:20260308T150000Z\r\n\
            END:VEVENT\r\n\
            END:VCALENDAR";
    let extracted = extract_events(ics);
    assert_eq!(extracted.events.len(), 1, "both VEVENTs share the same UID");
    assert_eq!(
        extracted.events.get("recurring@test").unwrap().len(),
        2,
        "master + override = 2 VEVENT blocks"
    );
}

#[test]
fn normalize_handles_parameterized_volatile_fields() {
    let vevent = "BEGIN:VEVENT\r\nUID:1\r\nDTSTAMP;VALUE=DATE-TIME:20260101T000000Z\r\nLAST-MODIFIED:20260101T000000Z\r\nSUMMARY:Test\r\nEND:VEVENT";
    let lines = normalize_vevent(vevent);
    assert!(!lines.iter().any(|l| l.starts_with("DTSTAMP")));
    assert!(!lines.iter().any(|l| l.starts_with("LAST-MODIFIED")));
}

#[test]
fn parse_ics_value_date_only() {
    match parse_ics_value("20260301", None) {
        Some(EventEnd::Date(d)) => {
            assert_eq!(d, DateValue { year: 2026, month: 3, day: 1 })
        }
        other => panic!("Expected EventEnd::Date, got {:?}", other),
    }
}

#[test]
fn parse_ics_value_with_time() {
    match parse_ics_value("20260301T100000", None) {
        Some(EventEnd::DateTime(dt)) => assert_eq!(dt.hour, 10),
        other => panic!("Expected EventEnd::DateTime, got {:?}", other),
    }
}

#[test]
fn parse_ics_value_utc_suffix() {
    match parse_ics_value("20260301T100000Z", None) {
        Some(EventEnd::DateTime(dt)) => assert_eq!(dt.hour, 10),
        other => panic!("Expected EventEnd::DateTime, got {:?}", other),
    }
}

#[test]
fn parse_ics_value_with_tzid() {
    // March 1 in America/New_York is EST (UTC-5), so 10:00 local = 15:00 UTC
    match parse_ics_value("20260301T100000", Some("America/New_York")) {
        Some(EventEnd::DateTime(dt)) => assert_eq!(dt.hour, 15),
        other => panic!(
            "Expected EventEnd::DateTime with UTC hour 15, got {:?}",
            other
        ),
    }
}

#[test]
fn parse_ics_value_with_unrecognized_tzid() {
    match parse_ics_value("20260301T100000", Some("Fake/Timezone")) {
        Some(EventEnd::DateTime(dt)) => assert_eq!(dt.hour, 10),
        other => panic!("Expected EventEnd::DateTime with hour 10, got {:?}", other),
    }
}

#[test]
fn event_end_parsed_uses_dtend() {
    let vevent =
        "BEGIN:VEVENT\r\nDTSTART:20260101T090000Z\r\nDTEND:20260101T100000Z\r\nEND:VEVENT";
    match event_end_parsed(vevent) {
        Some(EventEnd::DateTime(dt)) => assert_eq!(dt.hour, 10),
        other => panic!("Expected EventEnd::DateTime, got {:?}", other),
    }
}

#[test]
fn event_end_parsed_falls_back_to_dtstart() {
    let vevent = "BEGIN:VEVENT\r\nDTSTART:20260101T090000Z\r\nEND:VEVENT";
    match event_end_parsed(vevent) {
        Some(EventEnd::DateTime(dt)) => assert_eq!(dt.hour, 9),
        other => panic!("Expected EventEnd::DateTime, got {:?}", other),
    }
}

#[test]
fn event_end_parsed_handles_tzid() {
    // March 1 in America/New_York is EST (UTC-5), so 10:00 local = 15:00 UTC
    let vevent = "BEGIN:VEVENT\r\nDTEND;TZID=America/New_York:20260301T100000\r\nEND:VEVENT";
    match event_end_parsed(vevent) {
        Some(EventEnd::DateTime(dt)) => assert_eq!(dt.hour, 15),
        other => panic!("Expected EventEnd::DateTime, got {:?}", other),
    }
}

#[test]
fn is_event_in_future_past_event() {
    let vevent = "BEGIN:VEVENT\r\nDTEND:20200101T100000Z\r\nEND:VEVENT";
    assert!(!is_event_in_future(vevent, &today_value(), &now_value()));
}

#[test]
fn is_event_in_future_future_event() {
    let vevent = "BEGIN:VEVENT\r\nDTEND:20990101T100000Z\r\nEND:VEVENT";
    assert!(is_event_in_future(vevent, &today_value(), &now_value()));
}

#[test]
fn is_event_in_future_unparseable_defaults_true() {
    let vevent = "BEGIN:VEVENT\r\nSUMMARY:No dates\r\nEND:VEVENT";
    assert!(is_event_in_future(vevent, &today_value(), &now_value()));
}

#[test]
fn parse_ics_value_dst_gap_falls_back_to_naive() {
    // 2:30 AM on March 8, 2026 falls in the DST gap for America/New_York
    // (clocks spring forward from 2:00 to 3:00)
    match parse_ics_value("20260308T023000", Some("America/New_York")) {
        Some(EventEnd::DateTime(dt)) => {
            assert_eq!(dt.hour, 2);
            assert_eq!(dt.minute, 30);
        }
        other => panic!("Expected EventEnd::DateTime fallback, got {:?}", other),
    }
}

#[test]
fn extract_events_captures_vtimezone_blocks() {
    let ics = "BEGIN:VCALENDAR\r\n\
            VERSION:2.0\r\n\
            BEGIN:VTIMEZONE\r\n\
            TZID:America/New_York\r\n\
            BEGIN:STANDARD\r\n\
            DTSTART:19701101T020000\r\n\
            RRULE:FREQ=YEARLY;BYMONTH=11;BYDAY=1SU\r\n\
            TZOFFSETFROM:-0400\r\n\
            TZOFFSETTO:-0500\r\n\
            END:STANDARD\r\n\
            END:VTIMEZONE\r\n\
            BEGIN:VEVENT\r\n\
            UID:tz-test@example\r\n\
            DTSTART;TZID=America/New_York:20260301T100000\r\n\
            SUMMARY:TZ Test\r\n\
            END:VEVENT\r\n\
            END:VCALENDAR";
    let extracted = extract_events(ics);
    assert_eq!(extracted.events.len(), 1);
    assert!(extracted.events.contains_key("tz-test@example"));
    assert_eq!(extracted.vtimezones.len(), 1);
    assert!(extracted.vtimezones[0].contains("TZID:America/New_York"));
    assert!(extracted.vtimezones[0].starts_with("BEGIN:VTIMEZONE"));
    assert!(extracted.vtimezones[0].contains("END:VTIMEZONE"));
}

#[test]
fn normalize_folded_equals_unfolded() {
    let a = "BEGIN:VEVENT\r\nSUMMARY:Long event\r\n  name here\r\nEND:VEVENT";
    let b = "BEGIN:VEVENT\r\nSUMMARY:Long event name here\r\nEND:VEVENT";
    assert_eq!(normalize_vevent(a), normalize_vevent(b));
}

#[test]
fn events_equal_tolerates_reordered_lines() {
    let a = vec!["BEGIN:VEVENT\r\nUID:9\r\nSUMMARY:S\r\nLOCATION:L\r\nEND:VEVENT".to_string()];
    let b = vec!["BEGIN:VEVENT\r\nLOCATION:L\r\nUID:9\r\nSUMMARY:S\r\nEND:VEVENT".to_string()];
    assert!(events_equal(&a, &b));
}

#[test]
fn unfold_is_identity_without_folding() {
    let text = "BEGIN:VEVENT\nUID:1\nEND:VEVENT";
    assert_eq!(unfold_ics(text), text);
}
