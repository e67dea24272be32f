use caldav_ics_sync::api::{public_request_path_ok, reverse_result_message, sync_result_message};
use caldav_ics_sync::auto_sync::{new_registry, tick_decision, AutoSyncKey, TickAction};
use caldav_ics_sync::caldav::{
    parse_multistatus_calendar_data, parse_multistatus_calendars, resolve_calendar_url,
    toggle_slash, xml_decode,
};
use caldav_ics_sync::datetime::{DateTimeValue, DateValue};
use caldav_ics_sync::ics::{extract_events, index_events};
use caldav_ics_sync::reverse::{
    calendar_base, event_url, plan_reverse_sync, reverse_sync_outcome,
};
use caldav_ics_sync::sync::{aggregate_events, basic_auth_header, build_sync_output};

fn sample_today() -> DateValue {
    DateValue { year: 2026, month: 1, day: 15 }
}

fn sample_now() -> DateTimeValue {
    DateTimeValue { year: 2026, month: 1, day: 15, hour: 12, minute: 0, second: 0 }
}

fn event_ics(uid: &str, summary: &str, dtstart: &str, dtend: &str) -> String {
    format!(
        "BEGIN:VCALENDAR\r\nVERSION:2.0\r\nBEGIN:VEVENT\r\nUID:{uid}\r\nSUMMARY:{summary}\r\nDTSTART:{dtstart}\r\nDTEND:{dtend}\r\nEND:VEVENT\r\nEND:VCALENDAR"
    )
}

fn feed_ics(events: &[(&str, &str, &str, &str)]) -> String {
    let mut body = String::from("BEGIN:VCALENDAR\r\nVERSION:2.0\r\n");
    for (uid, summary, dtstart, dtend) in events {
        body.push_str(&format!(
            "BEGIN:VEVENT\r\nUID:{uid}\r\nSUMMARY:{summary}\r\nDTSTART:{dtstart}\r\nDTEND:{dtend}\r\nEND:VEVENT\r\n"
        ));
    }
    body.push_str("END:VCALENDAR\r\n");
    body
}

fn propfind_body(paths: &[&str]) -> String {
    let mut responses = String::new();
    for path in paths {
        responses.push_str(&format!(
            "<d:response>\n  <d:href>{path}</d:href>\n  <d:propstat>\n    <d:prop>\n      <d:resourcetype>\n        <d:collection/>\n        <c:calendar/>\n      </d:resourcetype>\n      <d:displayname>cal</d:displayname>\n    </d:prop>\n    <d:status>HTTP/1.1 200 OK</d:status>\n  </d:propstat>\n</d:response>"
        ));
    }
    format!(
        "<?xml version=\"1.0\" encoding=\"utf-8\" ?>\n<d:multistatus xmlns:d=\"DAV:\" xmlns:c=\"urn:ietf:params:xml:ns:caldav\">\n  {responses}\n</d:multistatus>"
    )
}

fn report_body(events: &[(&str, &str, &str, &str)]) -> String {
    let mut responses = String::new();
    for (uid, summary, dtstart, dtend) in events {
        let ics = event_ics(uid, summary, dtstart, dtend)
            .replace('&', "&amp;")
            .replace('<', "&lt;")
            .replace('>', "&gt;");
        responses.push_str(&format!(
            "<d:response>\n  <d:href>/cal/{uid}.ics</d:href>\n  <d:propstat>\n    <d:prop>\n      <d:getetag>\"{uid}\"</d:getetag>\n      <c:calendar-data>{ics}</c:calendar-data>\n    </d:prop>\n  </d:propstat>\n</d:response>"
        ));
    }
    format!(
        "<?xml version=\"1.0\" encoding=\"utf-8\" ?>\n<d:multistatus xmlns:d=\"DAV:\" xmlns:c=\"urn:ietf:params:xml:ns:caldav\">\n  {responses}\n</d:multistatus>"
    )
}

// ---- trailing-slash retry form ----

#[test]
fn toggle_slash_adds_trailing_slash() {
    assert_eq!(
        toggle_slash("http://example.com/dav"),
        "http://example.com/dav/"
    );
}

#[test]
fn toggle_slash_removes_trailing_slash() {
    assert_eq!(
        toggle_slash("http://example.com/dav/"),
        "http://example.com/dav"
    );
}

#[test]
fn toggle_slash_roundtrips() {
    let original = "http://example.com/dav";
    let toggled = toggle_slash(original);
    let back = toggle_slash(&toggled);
    assert_eq!(back, original);
}

// ---- URL composition ----

#[test]
fn resolve_origin_relative_href_keeps_port() {
    assert_eq!(
        resolve_calendar_url("http://127.0.0.1:8080/dav/x", "/cal/"),
        "http://127.0.0.1:8080/cal/"
    );
}

#[test]
fn resolve_absolute_href_stands_alone() {
    assert_eq!(
        resolve_calendar_url("http://a/dav", "https://b/cal/"),
        "https://b/cal/"
    );
}

#[test]
fn resolve_relative_href_joins_base() {
    assert_eq!(resolve_calendar_url("http://a/dav", "cal"), "http://a/dav/cal");
}

// ---- multistatus parsing ----

#[test]
fn propfind_parse_returns_calendar_hrefs() {
    let xml = propfind_body(&["/dav/calendars/personal/", "/dav/calendars/work/"]);
    let cals = parse_multistatus_calendars(&xml);
    assert_eq!(cals.len(), 2);
    assert!(cals.contains(&"/dav/calendars/personal/".to_string()));
    assert!(cals.contains(&"/dav/calendars/work/".to_string()));
}

#[test]
fn propfind_parse_empty_multistatus() {
    let xml = "<?xml version=\"1.0\" encoding=\"utf-8\" ?>\n<d:multistatus xmlns:d=\"DAV:\" xmlns:c=\"urn:ietf:params:xml:ns:caldav\">\n</d:multistatus>";
    assert!(parse_multistatus_calendars(xml).is_empty());
}

#[test]
fn propfind_parse_skips_non_calendar_collections() {
    let xml = "<?xml version=\"1.0\" ?>\n<d:multistatus xmlns:d=\"DAV:\">\n<d:response><d:href>/dav/</d:href><d:propstat><d:prop><d:resourcetype><d:collection/></d:resourcetype></d:prop></d:propstat></d:response>\n</d:multistatus>";
    assert!(parse_multistatus_calendars(xml).is_empty());
}

#[test]
fn report_parse_returns_decoded_event_payloads() {
    let xml = report_body(&[("uid-1", "Meeting", "20250101T100000Z", "20250101T110000Z")]);
    let result = parse_multistatus_calendar_data(&xml);
    assert_eq!(result.len(), 1);
    assert!(result[0].contains("BEGIN:VEVENT"));
    assert!(result[0].contains("SUMMARY:Meeting"));
}

#[test]
fn xml_decode_unescapes_entities() {
    assert_eq!(xml_decode("a&lt;b&gt;c&amp;d&quot;e&apos;f"), "a<b>c&d\"e'f");
}

// ---- forward sync aggregation ----

#[test]
fn run_sync_counts_and_wrapper() {
    let per_calendar = vec![vec![
        event_ics("uid-a", "Alpha", "20250301T080000Z", "20250301T090000Z"),
        event_ics("uid-b", "Beta", "20250301T100000Z", "20250301T110000Z"),
    ]];
    let (event_count, calendar_count, ics) = build_sync_output(&per_calendar);
    assert_eq!(calendar_count, 1);
    assert_eq!(event_count, 2);
    assert!(ics.starts_with("BEGIN:VCALENDAR\r\n"));
    assert!(ics.ends_with("END:VCALENDAR\r\n"));
    assert!(ics.contains("VERSION:2.0"));
    assert!(ics.contains("PRODID:-//CalDAV/ICS Sync//EN"));
    assert_eq!(ics.matches("BEGIN:VEVENT").count(), 2);
    assert_eq!(ics.matches("END:VEVENT").count(), 2);
}

#[test]
fn run_sync_handles_multiple_calendars_with_same_uid() {
    let one = event_ics("uid-multi", "Multi", "20250501T140000Z", "20250501T150000Z");
    let per_calendar = vec![vec![one.clone()], vec![one]];
    let (event_count, calendar_count, ics) = build_sync_output(&per_calendar);
    assert_eq!(calendar_count, 2);
    assert_eq!(event_count, 2);
    assert_eq!(ics.matches("UID:uid-multi").count(), 2);
}

#[test]
fn aggregate_of_nothing_is_bare_wrapper() {
    let ics = aggregate_events(&Vec::new());
    assert_eq!(
        ics,
        "BEGIN:VCALENDAR\r\nVERSION:2.0\r\nPRODID:-//CalDAV/ICS Sync//EN\r\nEND:VCALENDAR\r\n"
    );
}

#[test]
fn basic_auth_header_encodes_credentials() {
    assert_eq!(basic_auth_header("user", "pass"), "Basic dXNlcjpwYXNz");
}

// ---- reverse sync planning ----

#[test]
fn reverse_plan_uploads_new_and_skips_unchanged() {
    let feed = feed_ics(&[
        ("uid-same", "Same Event", "20990601T080000Z", "20990601T090000Z"),
        ("uid-new", "New Event", "20990601T100000Z", "20990601T110000Z"),
    ]);
    let existing_payload = event_ics("uid-same", "Same Event", "20990601T080000Z", "20990601T090000Z");
    let existing = index_events(&vec![existing_payload]);
    let plan = plan_reverse_sync(
        &feed,
        "http://caldav.example/dav",
        "cal",
        &existing,
        false,
        false,
        &sample_today(),
        &sample_now(),
    );
    assert!(!plan.empty_feed);
    assert_eq!(plan.total, 2);
    assert_eq!(plan.skipped, 1, "uid-same should be skipped");
    assert_eq!(plan.uploads.len(), 1, "only uid-new should be uploaded");
    assert_eq!(plan.uploads[0].uid, "uid-new");
    assert_eq!(
        plan.uploads[0].url,
        "http://caldav.example/dav/cal/uid-new.ics"
    );
    assert!(plan.uploads[0].body.starts_with("BEGIN:VCALENDAR\r\n"));
    assert!(plan.uploads[0].body.contains("UID:uid-new"));
    assert!(plan.deletions.is_empty());
}

#[test]
fn reverse_plan_empty_feed_touches_nothing() {
    let feed = "BEGIN:VCALENDAR\r\nVERSION:2.0\r\nEND:VCALENDAR\r\n";
    let existing = index_events(&vec![event_ics(
        "uid-old",
        "Old",
        "20990101T080000Z",
        "20990101T090000Z",
    )]);
    let plan = plan_reverse_sync(
        feed,
        "http://caldav.example/dav",
        "cal",
        &existing,
        true,
        false,
        &sample_today(),
        &sample_now(),
    );
    assert!(plan.empty_feed);
    assert_eq!(plan.uploads.len(), 0);
    assert_eq!(plan.deletions.len(), 0);
    assert_eq!(plan.total, 0);
    assert_eq!(plan.skipped, 0);
}

#[test]
fn reverse_plan_second_run_is_idempotent() {
    let events = [
        ("uid-r1", "Rev1", "20990601T080000Z", "20990601T090000Z"),
        ("uid-r2", "Rev2", "20990601T100000Z", "20990601T110000Z"),
    ];
    let feed = feed_ics(&events);
    // after the first run the calendar holds exactly the feed's events
    let existing = index_events(&vec![
        event_ics("uid-r1", "Rev1", "20990601T080000Z", "20990601T090000Z"),
        event_ics("uid-r2", "Rev2", "20990601T100000Z", "20990601T110000Z"),
    ]);
    let plan = plan_reverse_sync(
        &feed,
        "http://caldav.example/dav",
        "cal",
        &existing,
        false,
        false,
        &sample_today(),
        &sample_now(),
    );
    assert_eq!(plan.uploads.len(), 0);
    assert_eq!(plan.skipped, plan.total);
    assert_eq!(plan.deletions.len(), 0);
}

#[test]
fn reverse_plan_deletes_orphans() {
    let feed = feed_ics(&[("uid-keep", "Keep", "20990601T080000Z", "20990601T090000Z")]);
    let existing = index_events(&vec![
        event_ics("uid-keep", "Keep", "20990601T080000Z", "20990601T090000Z"),
        event_ics("uid-gone", "Gone", "20990701T080000Z", "20990701T090000Z"),
    ]);
    let plan = plan_reverse_sync(
        &feed,
        "http://caldav.example/dav",
        "cal",
        &existing,
        true,
        false,
        &sample_today(),
        &sample_now(),
    );
    assert_eq!(plan.deletions, vec!["uid-gone".to_string()]);
}

#[test]
fn reverse_plan_keep_local_never_deletes() {
    let feed = feed_ics(&[("uid-keep", "Keep", "20990601T080000Z", "20990601T090000Z")]);
    let existing = index_events(&vec![event_ics(
        "uid-gone",
        "Gone",
        "20990701T080000Z",
        "20990701T090000Z",
    )]);
    let plan = plan_reverse_sync(
        &feed,
        "http://caldav.example/dav",
        "cal",
        &existing,
        true,
        true,
        &sample_today(),
        &sample_now(),
    );
    assert!(plan.deletions.is_empty());
}

#[test]
fn reverse_plan_skips_past_events_without_sync_all() {
    let feed = feed_ics(&[("uid-past", "Past", "20200101T080000Z", "20200101T090000Z")]);
    let existing = index_events(&Vec::new());
    let plan = plan_reverse_sync(
        &feed,
        "http://caldav.example/dav",
        "cal",
        &existing,
        false,
        false,
        &sample_today(),
        &sample_now(),
    );
    assert_eq!(plan.total, 0);
    assert_eq!(plan.uploads.len(), 0);
}

#[test]
fn calendar_base_handles_double_calendar_path() {
    assert_eq!(
        calendar_base("http://h/dav/calendars/personal", "personal"),
        "http://h/dav/calendars/personal/"
    );
    assert_eq!(
        calendar_base("http://h/dav/calendars/", "personal"),
        "http://h/dav/calendars/personal/"
    );
}

#[test]
fn event_url_appends_uid_verbatim() {
    assert_eq!(event_url("http://h/cal/", "a b"), "http://h/cal/a b.ics");
}

#[test]
fn reverse_outcome_fails_on_any_upload_error() {
    let r = reverse_sync_outcome(3, 2, 0, 0, 5);
    assert!(r.is_err());
    let msg = r.unwrap_err();
    assert_eq!(msg, "Uploaded 3 events but 2 failed");
    assert!(msg.contains("failed"));
}

#[test]
fn reverse_outcome_reports_counters_on_success() {
    let st = reverse_sync_outcome(1, 0, 2, 3, 3).unwrap();
    assert_eq!(st.uploaded, 1);
    assert_eq!(st.skipped, 2);
    assert_eq!(st.deleted, 3);
    assert_eq!(st.total, 3);
}

// ---- messages and the anonymous-route guard ----

#[test]
fn sync_message_spells_counts() {
    assert_eq!(
        sync_result_message(2, 1),
        "Synchronized 2 events from 1 calendars"
    );
}

#[test]
fn reverse_message_spells_counts() {
    assert_eq!(
        reverse_result_message(1, 2, 1, 0),
        "Uploaded 1 of 2 events (1 unchanged, 0 deleted)"
    );
}

#[test]
fn public_route_rejects_path_traversal() {
    assert!(!public_request_path_ok("foo/../bar"));
    assert!(!public_request_path_ok("/abs"));
    assert!(public_request_path_ok("cal"));
}

// ---- the auto-sync registry ----

#[test]
fn registry_replaces_entry_on_reregistration() {
    let mut reg = new_registry();
    let rt = tokio::runtime::Builder::new_current_thread().build().unwrap();
    let h1 = rt.spawn(async {}).abort_handle();
    let h2 = rt.spawn(async {}).abort_handle();
    let key = AutoSyncKey::Source(1);
    let g1 = reg.next_generation();
    reg.cancel(&key);
    reg.insert(key, g1, h1);
    // re-registration: cancel, draw a newer generation, insert again
    reg.cancel(&key);
    let g2 = reg.next_generation();
    reg.insert(key, g2, h2);
    assert!(g2 > g1);
    // a stale task's teardown must not evict the newer registration
    reg.try_remove(&key, g1);
    let h3 = rt.spawn(async {}).abort_handle();
    // the slot is still taken: inserting without cancel would break the
    // one-entry-per-key rule, so cancel first
    reg.cancel(&key);
    reg.insert(key, g2, h3);
    // the owning generation tears its slot down
    reg.try_remove(&key, g2);
    let g3 = reg.next_generation();
    let h4 = rt.spawn(async {}).abort_handle();
    reg.insert(key, g3, h4);
    reg.cancel(&key);
}

#[test]
fn tick_decision_stops_only_when_entity_is_gone() {
    assert_eq!(tick_decision(true, true), TickAction::Continue);
    assert_eq!(tick_decision(true, false), TickAction::Continue);
    assert_eq!(
        tick_decision(false, true),
        TickAction::PersistErrorAndContinue
    );
    assert_eq!(tick_decision(false, false), TickAction::Stop);
}

#[test]
fn extract_and_plan_agree_on_uids() {
    let feed = feed_ics(&[("u1", "A", "20990601T080000Z", "20990601T090000Z")]);
    let ex = extract_events(&feed);
    assert!(ex.events.contains_key("u1"));
    assert_eq!(ex.events.len(), 1);
}

#[test]
fn propfind_parse_requires_flags_inside_resourcetype() {
    // collection and calendar elements outside resourcetype do not make
    // the response a calendar
    let xml = "<?xml version=\"1.0\" ?>\n<d:multistatus xmlns:d=\"DAV:\" xmlns:c=\"urn:ietf:params:xml:ns:caldav\">\n<d:response><d:href>/dav/x/</d:href><d:collection/><c:calendar/><d:propstat><d:prop><d:resourcetype/></d:prop></d:propstat></d:response>\n</d:multistatus>";
    assert!(parse_multistatus_calendars(xml).is_empty());
}
