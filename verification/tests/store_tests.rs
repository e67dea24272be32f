use caldav_ics_sync::store::{
    CreateDestination, CreateSource, CreateSourcePath, Store, UpdateDestination, UpdateSource,
    UpdateSourcePath,
};

fn setup() -> Store {
    Store::new()
}

fn now() -> &'static str {
    "2026-01-01 00:00:00"
}

fn valid_source() -> CreateSource {
    CreateSource {
        name: "Test".into(),
        caldav_url: "https://cal.example.com".into(),
        username: "user".into(),
        password: "pass".into(),
        ics_path: "cal.ics".into(),
        sync_interval_secs: 3600,
        public_ics: false,
        public_ics_path: None,
    }
}

fn valid_destination() -> CreateDestination {
    CreateDestination {
        name: "Dest".into(),
        ics_url: "https://example.com/cal.ics".into(),
        caldav_url: "https://caldav.example.com".into(),
        calendar_name: "main".into(),
        username: "user".into(),
        password: "pass".into(),
        sync_interval_secs: 3600,
        sync_all: false,
        keep_local: false,
    }
}

// ---- Sources CRUD ----

#[test]
fn create_source_valid() {
    let mut conn = setup();
    let id = conn.create_source(&valid_source(), now()).unwrap();
    assert!(id > 0);
}

#[test]
fn create_source_rejects_empty_name() {
    let mut conn = setup();
    let mut s = valid_source();
    s.name = "  ".into();
    assert!(conn.create_source(&s, now()).is_err());
}

#[test]
fn create_source_rejects_empty_caldav_url() {
    let mut conn = setup();
    let mut s = valid_source();
    s.caldav_url = "".into();
    assert!(conn.create_source(&s, now()).is_err());
}

#[test]
fn create_source_rejects_empty_username() {
    let mut conn = setup();
    let mut s = valid_source();
    s.username = "".into();
    assert!(conn.create_source(&s, now()).is_err());
}

#[test]
fn create_source_rejects_empty_password() {
    let mut conn = setup();
    let mut s = valid_source();
    s.password = "".into();
    assert!(conn.create_source(&s, now()).is_err());
}

#[test]
fn create_source_rejects_empty_ics_path() {
    let mut conn = setup();
    let mut s = valid_source();
    s.ics_path = "  ".into();
    assert!(conn.create_source(&s, now()).is_err());
}

#[test]
fn create_source_rejects_negative_sync_interval() {
    let mut conn = setup();
    let mut s = valid_source();
    s.sync_interval_secs = -1;
    assert!(conn.create_source(&s, now()).is_err());
}

#[test]
fn create_source_rejects_duplicate_ics_path() {
    let mut conn = setup();
    conn.create_source(&valid_source(), now()).unwrap();
    let mut s2 = valid_source();
    s2.name = "Other".into();
    assert!(conn.create_source(&s2, now()).is_err());
}

#[test]
fn create_source_rejects_public_ics_path_prefix() {
    let mut conn = setup();
    let mut s = valid_source();
    s.ics_path = "public".into();
    assert!(conn.create_source(&s, now()).is_err());
}

#[test]
fn create_source_rejects_public_slash_prefix() {
    let mut conn = setup();
    let mut s = valid_source();
    s.ics_path = "public/foo".into();
    assert!(conn.create_source(&s, now()).is_err());
}

#[test]
fn db_tests_list_sources_returns_created() {
    let mut conn = setup();
    conn.create_source(&valid_source(), now()).unwrap();

    let mut s2 = valid_source();
    s2.ics_path = "other.ics".into();
    conn.create_source(&s2, now()).unwrap();

    let sources = conn.list_sources().unwrap();
    assert_eq!(sources.len(), 2);
    assert_eq!(sources[0].ics_path, "cal.ics");
    assert_eq!(sources[1].ics_path, "other.ics");
}

#[test]
fn get_source_by_id() {
    let mut conn = setup();
    let id = conn.create_source(&valid_source(), now()).unwrap();
    let src = conn.get_source(id).unwrap().unwrap();
    assert_eq!(src.name, "Test");
    assert_eq!(src.ics_path, "cal.ics");
}

#[test]
fn get_source_nonexistent() {
    let conn = setup();
    assert!(conn.get_source(999).unwrap().is_none());
}

#[test]
fn update_source_preserves_password_on_empty() {
    let mut conn = setup();
    let id = conn.create_source(&valid_source(), now()).unwrap();
    let upd = UpdateSource {
        name: Some("Renamed".into()),
        caldav_url: None,
        username: None,
        password: Some("".into()),
        ics_path: None,
        sync_interval_secs: None,
        public_ics: None,
        public_ics_path: None,
    };
    conn.update_source(id, &upd).unwrap();
    let src = conn.get_source(id).unwrap().unwrap();
    assert_eq!(src.name, "Renamed");
    assert_eq!(src.password, "pass");
}

#[test]
fn update_source_rejects_duplicate_ics_path() {
    let mut conn = setup();
    let id1 = conn.create_source(&valid_source(), now()).unwrap();

    let mut s2 = valid_source();
    s2.ics_path = "other.ics".into();
    conn.create_source(&s2, now()).unwrap();

    let upd = UpdateSource {
        name: None,
        caldav_url: None,
        username: None,
        password: None,
        ics_path: Some("other.ics".into()),
        sync_interval_secs: None,
        public_ics: None,
        public_ics_path: None,
    };
    assert!(conn.update_source(id1, &upd).is_err());
}

#[test]
fn delete_source_removes_it() {
    let mut conn = setup();
    let id = conn.create_source(&valid_source(), now()).unwrap();
    assert!(conn.delete_source(id).unwrap());
    assert!(conn.get_source(id).unwrap().is_none());
}

#[test]
fn delete_source_nonexistent() {
    let mut conn = setup();
    assert!(!conn.delete_source(999).unwrap());
}

// ---- Public ICS ----

#[test]
fn create_source_public_with_custom_path() {
    let mut conn = setup();
    let mut s = valid_source();
    s.public_ics = true;
    s.public_ics_path = Some("shared/cal.ics".into());
    let id = conn.create_source(&s, now()).unwrap();
    let src = conn.get_source(id).unwrap().unwrap();
    assert!(src.public_ics);
    assert_eq!(src.public_ics_path.as_deref(), Some("shared/cal.ics"));
}

#[test]
fn create_source_public_no_custom_path() {
    let mut conn = setup();
    let mut s = valid_source();
    s.public_ics = true;
    s.public_ics_path = None;
    let id = conn.create_source(&s, now()).unwrap();
    let src = conn.get_source(id).unwrap().unwrap();
    assert!(src.public_ics);
    assert!(src.public_ics_path.is_none());
}

#[test]
fn create_source_rejects_public_path_with_dotdot() {
    let mut conn = setup();
    let mut s = valid_source();
    s.public_ics = true;
    s.public_ics_path = Some("foo/../bar".into());
    assert!(conn.create_source(&s, now()).is_err());
}

#[test]
fn create_source_rejects_public_path_with_leading_slash() {
    let mut conn = setup();
    let mut s = valid_source();
    s.public_ics = true;
    s.public_ics_path = Some("/foo/bar".into());
    assert!(conn.create_source(&s, now()).is_err());
}

#[test]
fn create_source_rejects_public_path_same_as_ics_path() {
    let mut conn = setup();
    let mut s = valid_source();
    s.public_ics = true;
    s.public_ics_path = Some("cal.ics".into());
    assert!(conn.create_source(&s, now()).is_err());
}

#[test]
fn cross_table_ics_path_cannot_match_another_public_path() {
    let mut conn = setup();
    let mut s1 = valid_source();
    s1.public_ics = true;
    s1.public_ics_path = Some("shared.ics".into());
    conn.create_source(&s1, now()).unwrap();

    let mut s2 = valid_source();
    s2.ics_path = "shared.ics".into();
    assert!(conn.create_source(&s2, now()).is_err());
}

#[test]
fn cross_table_public_path_cannot_match_another_ics_path() {
    let mut conn = setup();
    conn.create_source(&valid_source(), now()).unwrap();

    let mut s2 = valid_source();
    s2.ics_path = "other.ics".into();
    s2.public_ics = true;
    s2.public_ics_path = Some("cal.ics".into());
    assert!(conn.create_source(&s2, now()).is_err());
}

#[test]
fn update_public_ics_false_clears_public_path() {
    let mut conn = setup();
    let mut s = valid_source();
    s.public_ics = true;
    s.public_ics_path = Some("shared.ics".into());
    let id = conn.create_source(&s, now()).unwrap();

    let upd = UpdateSource {
        name: None,
        caldav_url: None,
        username: None,
        password: None,
        ics_path: None,
        sync_interval_secs: None,
        public_ics: Some(false),
        public_ics_path: None,
    };
    conn.update_source(id, &upd).unwrap();
    let src = conn.get_source(id).unwrap().unwrap();
    assert!(!src.public_ics);
    assert!(src.public_ics_path.is_none());
}

#[test]
fn get_ics_data_by_public_path_only_when_public() {
    let mut conn = setup();
    let mut s = valid_source();
    s.public_ics = true;
    s.public_ics_path = Some("shared.ics".into());
    let id = conn.create_source(&s, now()).unwrap();
    conn.save_ics_data(id, "BEGIN:VCALENDAR\nEND:VCALENDAR", now()).unwrap();

    let data = conn.get_ics_data_by_public_path("shared.ics").unwrap();
    assert!(data.is_some());

    let upd = UpdateSource {
        name: None,
        caldav_url: None,
        username: None,
        password: None,
        ics_path: None,
        sync_interval_secs: None,
        public_ics: Some(false),
        public_ics_path: None,
    };
    conn.update_source(id, &upd).unwrap();
    let data = conn.get_ics_data_by_public_path("shared.ics").unwrap();
    assert!(data.is_none());
}

#[test]
fn is_public_standard_ics_true_when_public_no_custom_path() {
    let mut conn = setup();
    let mut s = valid_source();
    s.public_ics = true;
    s.public_ics_path = None;
    let id = conn.create_source(&s, now()).unwrap();
    conn.save_ics_data(id, "data", now()).unwrap();

    assert!(conn.is_public_standard_ics("cal.ics").unwrap());
}

#[test]
fn is_public_standard_ics_false_when_custom_path() {
    let mut conn = setup();
    let mut s = valid_source();
    s.public_ics = true;
    s.public_ics_path = Some("shared.ics".into());
    conn.create_source(&s, now()).unwrap();

    assert!(!conn.is_public_standard_ics("cal.ics").unwrap());
}

#[test]
fn is_public_standard_ics_false_when_not_public() {
    let mut conn = setup();
    conn.create_source(&valid_source(), now()).unwrap();
    assert!(!conn.is_public_standard_ics("cal.ics").unwrap());
}

// ---- Source Paths ----

#[test]
fn create_source_path_succeeds() {
    let mut conn = setup();
    let src_id = conn.create_source(&valid_source(), now()).unwrap();
    let body = CreateSourcePath { path: "alias.ics".into(), is_public: false };
    let sp_id = conn.create_source_path(src_id, &body, now()).unwrap();
    assert!(sp_id > 0);
}

#[test]
fn create_source_path_rejects_duplicate() {
    let mut conn = setup();
    let src_id = conn.create_source(&valid_source(), now()).unwrap();
    let body = CreateSourcePath { path: "alias.ics".into(), is_public: false };
    conn.create_source_path(src_id, &body, now()).unwrap();
    assert!(conn.create_source_path(src_id, &body, now()).is_err());
}

#[test]
fn create_source_path_rejects_match_with_sources_ics_path() {
    let mut conn = setup();
    let src_id = conn.create_source(&valid_source(), now()).unwrap();
    let body = CreateSourcePath { path: "cal.ics".into(), is_public: false };
    assert!(conn.create_source_path(src_id, &body, now()).is_err());
}

#[test]
fn create_source_path_rejects_match_with_sources_public_path() {
    let mut conn = setup();
    let mut s = valid_source();
    s.public_ics = true;
    s.public_ics_path = Some("shared.ics".into());
    let src_id = conn.create_source(&s, now()).unwrap();
    let body = CreateSourcePath { path: "shared.ics".into(), is_public: false };
    assert!(conn.create_source_path(src_id, &body, now()).is_err());
}

#[test]
fn create_source_path_rejects_public_prefix() {
    let mut conn = setup();
    let src_id = conn.create_source(&valid_source(), now()).unwrap();
    let body = CreateSourcePath { path: "public/foo".into(), is_public: false };
    assert!(conn.create_source_path(src_id, &body, now()).is_err());
}

#[test]
fn create_source_path_rejects_public_exact() {
    let mut conn = setup();
    let src_id = conn.create_source(&valid_source(), now()).unwrap();
    let body = CreateSourcePath { path: "public".into(), is_public: false };
    assert!(conn.create_source_path(src_id, &body, now()).is_err());
}

#[test]
fn create_source_path_rejects_dotdot() {
    let mut conn = setup();
    let src_id = conn.create_source(&valid_source(), now()).unwrap();
    let body = CreateSourcePath { path: "foo/../bar".into(), is_public: false };
    assert!(conn.create_source_path(src_id, &body, now()).is_err());
}

#[test]
fn create_source_path_rejects_leading_slash() {
    let mut conn = setup();
    let src_id = conn.create_source(&valid_source(), now()).unwrap();
    let body = CreateSourcePath { path: "/foo.ics".into(), is_public: false };
    assert!(conn.create_source_path(src_id, &body, now()).is_err());
}

#[test]
fn list_source_paths_for_source() {
    let mut conn = setup();
    let src_id = conn.create_source(&valid_source(), now()).unwrap();
    conn.create_source_path(
        src_id,
        &CreateSourcePath { path: "a.ics".into(), is_public: false },
        now(),
    )
    .unwrap();
    conn.create_source_path(
        src_id,
        &CreateSourcePath { path: "b.ics".into(), is_public: true },
        now(),
    )
    .unwrap();

    let paths = conn.list_source_paths(src_id).unwrap();
    assert_eq!(paths.len(), 2);
    assert_eq!(paths[0].path, "a.ics");
    assert_eq!(paths[1].path, "b.ics");
}

#[test]
fn update_source_path_changes_path() {
    let mut conn = setup();
    let src_id = conn.create_source(&valid_source(), now()).unwrap();
    let sp_id = conn
        .create_source_path(
            src_id,
            &CreateSourcePath { path: "old.ics".into(), is_public: false },
            now(),
        )
        .unwrap();
    let upd = UpdateSourcePath { path: Some("new.ics".into()), is_public: None };
    assert!(conn.update_source_path(sp_id, &upd).unwrap());
    let sp = conn.get_source_path(sp_id).unwrap().unwrap();
    assert_eq!(sp.path, "new.ics");
}

#[test]
fn delete_source_path_removes_it() {
    let mut conn = setup();
    let src_id = conn.create_source(&valid_source(), now()).unwrap();
    let sp_id = conn
        .create_source_path(
            src_id,
            &CreateSourcePath { path: "alias.ics".into(), is_public: false },
            now(),
        )
        .unwrap();
    assert!(conn.delete_source_path(sp_id).unwrap());
    assert!(conn.get_source_path(sp_id).unwrap().is_none());
}

#[test]
fn get_ics_data_by_path_finds_via_source_paths() {
    let mut conn = setup();
    let src_id = conn.create_source(&valid_source(), now()).unwrap();
    conn.save_ics_data(src_id, "ICS_CONTENT", now()).unwrap();
    conn.create_source_path(
        src_id,
        &CreateSourcePath { path: "alias.ics".into(), is_public: false },
        now(),
    )
    .unwrap();

    let data = conn.get_ics_data_by_path("alias.ics").unwrap();
    assert_eq!(data.as_deref(), Some("ICS_CONTENT"));
}

#[test]
fn get_ics_data_by_public_path_finds_via_source_paths() {
    let mut conn = setup();
    let src_id = conn.create_source(&valid_source(), now()).unwrap();
    conn.save_ics_data(src_id, "PUB_DATA", now()).unwrap();
    conn.create_source_path(
        src_id,
        &CreateSourcePath { path: "pub-alias.ics".into(), is_public: true },
        now(),
    )
    .unwrap();

    let data = conn.get_ics_data_by_public_path("pub-alias.ics").unwrap();
    assert_eq!(data.as_deref(), Some("PUB_DATA"));
}

#[test]
fn get_ics_data_by_public_path_not_found_when_not_public() {
    let mut conn = setup();
    let src_id = conn.create_source(&valid_source(), now()).unwrap();
    conn.save_ics_data(src_id, "DATA", now()).unwrap();
    conn.create_source_path(
        src_id,
        &CreateSourcePath { path: "priv.ics".into(), is_public: false },
        now(),
    )
    .unwrap();

    let data = conn.get_ics_data_by_public_path("priv.ics").unwrap();
    assert!(data.is_none());
}

#[test]
fn is_public_standard_ics_via_source_paths() {
    let mut conn = setup();
    let src_id = conn.create_source(&valid_source(), now()).unwrap();
    conn.create_source_path(
        src_id,
        &CreateSourcePath { path: "std-pub.ics".into(), is_public: true },
        now(),
    )
    .unwrap();
    assert!(conn.is_public_standard_ics("std-pub.ics").unwrap());
}

#[test]
fn is_public_standard_ics_false_for_private_source_path() {
    let mut conn = setup();
    let src_id = conn.create_source(&valid_source(), now()).unwrap();
    conn.create_source_path(
        src_id,
        &CreateSourcePath { path: "priv.ics".into(), is_public: false },
        now(),
    )
    .unwrap();
    assert!(!conn.is_public_standard_ics("priv.ics").unwrap());
}

#[test]
fn source_paths_deleted_on_cascade_when_source_deleted() {
    let mut conn = setup();
    let src_id = conn.create_source(&valid_source(), now()).unwrap();
    let sp_id = conn
        .create_source_path(
            src_id,
            &CreateSourcePath { path: "alias.ics".into(), is_public: false },
            now(),
        )
        .unwrap();
    conn.delete_source(src_id).unwrap();
    assert!(conn.get_source_path(sp_id).unwrap().is_none());
}

// ---- Destinations CRUD ----

#[test]
fn create_destination_valid() {
    let mut conn = setup();
    let id = conn.create_destination(&valid_destination(), now()).unwrap();
    assert!(id > 0);
}

#[test]
fn create_destination_rejects_empty_name() {
    let mut conn = setup();
    let mut d = valid_destination();
    d.name = "".into();
    assert!(conn.create_destination(&d, now()).is_err());
}

#[test]
fn create_destination_rejects_empty_ics_url() {
    let mut conn = setup();
    let mut d = valid_destination();
    d.ics_url = "".into();
    assert!(conn.create_destination(&d, now()).is_err());
}

#[test]
fn create_destination_rejects_empty_caldav_url() {
    let mut conn = setup();
    let mut d = valid_destination();
    d.caldav_url = "".into();
    assert!(conn.create_destination(&d, now()).is_err());
}

#[test]
fn create_destination_rejects_empty_calendar_name() {
    let mut conn = setup();
    let mut d = valid_destination();
    d.calendar_name = "".into();
    assert!(conn.create_destination(&d, now()).is_err());
}

#[test]
fn create_destination_rejects_empty_username() {
    let mut conn = setup();
    let mut d = valid_destination();
    d.username = "".into();
    assert!(conn.create_destination(&d, now()).is_err());
}

#[test]
fn create_destination_rejects_empty_password() {
    let mut conn = setup();
    let mut d = valid_destination();
    d.password = "".into();
    assert!(conn.create_destination(&d, now()).is_err());
}

#[test]
fn update_destination_preserves_password_on_empty() {
    let mut conn = setup();
    let id = conn.create_destination(&valid_destination(), now()).unwrap();
    let upd = UpdateDestination {
        name: Some("Renamed".into()),
        ics_url: None,
        caldav_url: None,
        calendar_name: None,
        username: None,
        password: Some("".into()),
        sync_interval_secs: None,
        sync_all: None,
        keep_local: None,
    };
    conn.update_destination(id, &upd).unwrap();
    let dest = conn.get_destination(id).unwrap().unwrap();
    assert_eq!(dest.name, "Renamed");
    assert_eq!(dest.password, "pass");
}

#[test]
fn delete_destination_removes_it() {
    let mut conn = setup();
    let id = conn.create_destination(&valid_destination(), now()).unwrap();
    assert!(conn.delete_destination(id).unwrap());
    assert!(conn.get_destination(id).unwrap().is_none());
}

#[test]
fn delete_destination_nonexistent() {
    let mut conn = setup();
    assert!(!conn.delete_destination(999).unwrap());
}

// ---- Overlapping Destinations ----

#[test]
fn find_overlapping_destinations_returns_other() {
    let mut conn = setup();
    let id1 = conn.create_destination(&valid_destination(), now()).unwrap();
    let mut d2 = valid_destination();
    d2.name = "Dest2".into();
    d2.ics_url = "https://example.com/other.ics".into();
    let id2 = conn.create_destination(&d2, now()).unwrap();

    let overlaps = conn
        .find_overlapping_destinations("https://caldav.example.com", "main", None)
        .unwrap();
    assert_eq!(overlaps.len(), 2);
    assert!(overlaps.iter().any(|d| d.id == id1));
    assert!(overlaps.iter().any(|d| d.id == id2));
}

#[test]
fn find_overlapping_destinations_exclude_id() {
    let mut conn = setup();
    let id1 = conn.create_destination(&valid_destination(), now()).unwrap();
    let mut d2 = valid_destination();
    d2.name = "Dest2".into();
    d2.ics_url = "https://example.com/other.ics".into();
    let id2 = conn.create_destination(&d2, now()).unwrap();

    let overlaps = conn
        .find_overlapping_destinations("https://caldav.example.com", "main", Some(id1))
        .unwrap();
    assert_eq!(overlaps.len(), 1);
    assert_eq!(overlaps[0].id, id2);
}

#[test]
fn find_overlapping_destinations_no_match() {
    let mut conn = setup();
    conn.create_destination(&valid_destination(), now()).unwrap();

    let overlaps = conn
        .find_overlapping_destinations("https://caldav.example.com", "other-calendar", None)
        .unwrap();
    assert!(overlaps.is_empty());
}

// ---- ICS Data ----

#[test]
fn save_and_retrieve_ics_data_by_path() {
    let mut conn = setup();
    let id = conn.create_source(&valid_source(), now()).unwrap();
    conn.save_ics_data(id, "BEGIN:VCALENDAR\nEND:VCALENDAR", now()).unwrap();

    let data = conn.get_ics_data_by_path("cal.ics").unwrap();
    assert_eq!(data.as_deref(), Some("BEGIN:VCALENDAR\nEND:VCALENDAR"));
}

#[test]
fn save_ics_data_upserts() {
    let mut conn = setup();
    let id = conn.create_source(&valid_source(), now()).unwrap();
    conn.save_ics_data(id, "first", now()).unwrap();
    conn.save_ics_data(id, "second", now()).unwrap();

    let data = conn.get_ics_data(id).unwrap();
    assert_eq!(data.as_deref(), Some("second"));
}

#[test]
fn get_ics_data_by_path_not_found() {
    let conn = setup();
    assert!(conn.get_ics_data_by_path("missing.ics").unwrap().is_none());
}

// ---- Cross-table: source_paths vs create_source ----

#[test]
fn create_source_rejects_ics_path_matching_existing_source_path() {
    let mut conn = setup();
    let src_id = conn.create_source(&valid_source(), now()).unwrap();
    conn.create_source_path(
        src_id,
        &CreateSourcePath { path: "taken.ics".into(), is_public: false },
        now(),
    )
    .unwrap();

    let mut s2 = valid_source();
    s2.ics_path = "taken.ics".into();
    assert!(conn.create_source(&s2, now()).is_err());
}

#[test]
fn create_source_rejects_public_path_matching_existing_source_path() {
    let mut conn = setup();
    let src_id = conn.create_source(&valid_source(), now()).unwrap();
    conn.create_source_path(
        src_id,
        &CreateSourcePath { path: "taken.ics".into(), is_public: false },
        now(),
    )
    .unwrap();

    let mut s2 = valid_source();
    s2.ics_path = "other2.ics".into();
    s2.public_ics = true;
    s2.public_ics_path = Some("taken.ics".into());
    assert!(conn.create_source(&s2, now()).is_err());
}

// ---- Error variants and update edge cases ----

#[test]
fn save_ics_data_rejects_missing_source() {
    let mut conn = setup();
    assert!(conn.save_ics_data(42, "data", now()).is_err());
}

#[test]
fn create_source_path_rejects_missing_source() {
    let mut conn = setup();
    let body = CreateSourcePath { path: "alias.ics".into(), is_public: false };
    assert!(conn.create_source_path(7, &body, now()).is_err());
}

#[test]
fn update_source_nonexistent_returns_false() {
    let mut conn = setup();
    let upd = UpdateSource {
        name: Some("X".into()),
        caldav_url: None,
        username: None,
        password: None,
        ics_path: None,
        sync_interval_secs: None,
        public_ics: None,
        public_ics_path: None,
    };
    assert_eq!(conn.update_source(5, &upd).unwrap(), false);
}

#[test]
fn update_sync_status_records_error_text() {
    let mut conn = setup();
    let id = conn.create_source(&valid_source(), now()).unwrap();
    conn.update_sync_status(id, "error", Some("boom")).unwrap();
    let src = conn.get_source(id).unwrap().unwrap();
    assert_eq!(src.last_sync_status.as_deref(), Some("error"));
    assert_eq!(src.last_sync_error.as_deref(), Some("boom"));
}

#[test]
fn update_last_synced_stamps_time() {
    let mut conn = setup();
    let id = conn.create_source(&valid_source(), now()).unwrap();
    conn.update_last_synced(id, "2026-02-03 04:05:06").unwrap();
    let src = conn.get_source(id).unwrap().unwrap();
    assert_eq!(src.last_synced.as_deref(), Some("2026-02-03 04:05:06"));
}

#[test]
fn destination_status_stamps_last_synced_only_on_ok() {
    let mut conn = setup();
    let id = conn.create_destination(&valid_destination(), now()).unwrap();

    conn.update_destination_sync_status(id, "error", Some("boom"), "2026-03-01 00:00:00")
        .unwrap();
    let d = conn.get_destination(id).unwrap().unwrap();
    assert_eq!(d.last_sync_status.as_deref(), Some("error"));
    assert_eq!(d.last_sync_error.as_deref(), Some("boom"));
    assert!(d.last_synced.is_none(), "a failed tick must not stamp last_synced");

    conn.update_destination_sync_status(id, "ok", None, "2026-03-02 00:00:00").unwrap();
    let d = conn.get_destination(id).unwrap().unwrap();
    assert_eq!(d.last_synced.as_deref(), Some("2026-03-02 00:00:00"));
    assert!(d.last_sync_error.is_none());

    conn.update_destination_sync_status(id, "error", Some("again"), "2026-03-03 00:00:00")
        .unwrap();
    let d = conn.get_destination(id).unwrap().unwrap();
    assert_eq!(
        d.last_synced.as_deref(),
        Some("2026-03-02 00:00:00"),
        "a later failure keeps the last successful stamp"
    );
}
