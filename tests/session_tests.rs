use faff_core::time::date_has_dst_event;
use faff_core::intent::Intent;
use faff_core::parse::SessionParseError;
use faff_core::session::{Session, SessionError};
use faff_core::time::{combine, resolve, Date, TimeError, ZonedTime};
use faff_core::valuetype::ValueType;

fn sample_intent() -> Intent {
    Intent::new(
        Some("work".to_string()),
        Some("engineer".to_string()),
        Some("development".to_string()),
        Some("coding".to_string()),
        Some("features".to_string()),
        vec![],
    )
}

fn utc(y: i32, mo: u32, d: u32, h: u32, mi: u32, s: u32) -> ZonedTime {
    resolve("UTC", Date::new(y, mo, d).unwrap(), h * 3600 + mi * 60 + s).unwrap()
}

fn field(k: &str, v: &str) -> (String, ValueType) {
    (k.to_string(), ValueType::String(v.to_string()))
}

#[test]
fn test_session_creation() {
    let intent = sample_intent();
    let start = utc(2025, 3, 15, 9, 0, 0);
    let end = utc(2025, 3, 15, 10, 30, 0);

    let session = Session::new(intent.clone(), start, Some(end), None);

    assert_eq!(session.intent, intent);
    assert_eq!(session.start, start);
    assert_eq!(session.end, Some(end));
    assert_eq!(session.note, None);
}

#[test]
fn test_session_with_note() {
    let intent = sample_intent();
    let start = utc(2025, 3, 15, 9, 0, 0);

    let session = Session::new(intent, start, None, Some("Working on tests".to_string()));

    assert_eq!(session.note, Some("Working on tests".to_string()));
}

#[test]
fn test_duration_completed_session() {
    let intent = sample_intent();
    let start = utc(2025, 3, 15, 9, 0, 0);
    let end = utc(2025, 3, 15, 10, 30, 0);

    let session = Session::new(intent, start, Some(end), None);
    let duration = session.duration().unwrap();

    assert_eq!(duration, 90 * 60);
}

#[test]
fn test_duration_open_session_error() {
    let intent = sample_intent();
    let start = utc(2025, 3, 15, 9, 0, 0);

    let session = Session::new(intent, start, None, None);
    let result = session.duration();

    assert!(matches!(result, Err(SessionError::MissingEnd)));
}

#[test]
fn test_duration_end_before_start_error() {
    let intent = sample_intent();
    let start = utc(2025, 3, 15, 10, 0, 0);
    let end = utc(2025, 3, 15, 9, 0, 0);

    let session = Session::new(intent, start, Some(end), None);
    let result = session.duration();

    assert!(matches!(result, Err(SessionError::EndBeforeStart)));
}

#[test]
fn test_with_end() {
    let intent = sample_intent();
    let start = utc(2025, 3, 15, 9, 0, 0);
    let end = utc(2025, 3, 15, 10, 30, 0);

    let open_session = Session::new(intent.clone(), start, None, None);
    assert_eq!(open_session.end, None);

    let closed_session = open_session.with_end(end);
    assert_eq!(closed_session.end, Some(end));
    assert_eq!(closed_session.intent, intent);
    assert_eq!(closed_session.start, start);
}

#[test]
fn test_with_end_immutability() {
    let intent = sample_intent();
    let start = utc(2025, 3, 15, 9, 0, 0);
    let end = utc(2025, 3, 15, 10, 30, 0);

    let open_session = Session::new(intent, start, None, None);
    let _closed_session = open_session.with_end(end);

    assert_eq!(open_session.end, None);
}

#[test]
fn test_combine_date_time_valid() {
    let date = Date::new(2025, 3, 15).unwrap();

    let result = combine(date, "UTC", "14:30").unwrap();

    assert_eq!(result.hour(), 14);
    assert_eq!(result.minute(), 30);
    assert_eq!(result.second(), 0);
}

#[test]
fn test_combine_date_time_with_timezone() {
    let date = Date::new(2025, 6, 15).unwrap();

    let result = combine(date, "Europe/London", "12:00").unwrap();

    assert_eq!(result.hour(), 12);
    assert_eq!(result.minute(), 0);
    assert_eq!(result.offset, 3600);
}

#[test]
fn test_combine_date_time_rejects_offset() {
    let date = Date::new(2025, 3, 15).unwrap();

    let result = combine(date, "UTC", "14:30+01:00");

    assert!(result.is_err());
    assert_eq!(result.unwrap_err(), TimeError::InvalidTimeFormat);
}

#[test]
fn test_combine_date_time_invalid_format() {
    let date = Date::new(2025, 3, 15).unwrap();

    let result = combine(date, "UTC", "25:99");

    assert!(result.is_err());
    assert_eq!(result.unwrap_err(), TimeError::InvalidTimeFormat);
}

#[test]
fn combine_in_gap_and_fold_fails() {
    let spring = Date::new(2025, 3, 30).unwrap();
    assert_eq!(
        combine(spring, "Europe/London", "01:30").unwrap_err(),
        TimeError::AmbiguousOrNonexistentTime
    );
    let autumn = Date::new(2025, 10, 26).unwrap();
    assert_eq!(
        combine(autumn, "Europe/London", "01:30").unwrap_err(),
        TimeError::AmbiguousOrNonexistentTime
    );
    assert_eq!(combine(autumn, "No/Zone", "01:30").unwrap_err(), TimeError::UnknownTimezone);
}

#[test]
fn dst_event_detection() {
    assert!(date_has_dst_event(Date::new(2025, 3, 30).unwrap(), "Europe/London"));
    assert!(date_has_dst_event(Date::new(2025, 10, 26).unwrap(), "Europe/London"));
    assert!(!date_has_dst_event(Date::new(2025, 3, 15).unwrap(), "Europe/London"));
    assert!(!date_has_dst_event(Date::new(2025, 3, 30).unwrap(), "UTC"));
}

#[test]
fn utc_instant_of_epoch_day() {
    let t = utc(1970, 1, 2, 0, 0, 1);
    assert_eq!(t.utc, 86401);
    assert_eq!(Date::new(2025, 3, 15).unwrap().epoch_day_exec(), 20162);
    assert!(Date::new(2024, 2, 29).is_some());
    assert!(Date::new(2025, 2, 29).is_none());
}

#[test]
fn test_from_dict_with_tz_basic() {
    let dict = vec![
        field("role", "engineer"),
        field("action", "coding"),
        field("subject", "tests"),
        field("start", "09:00"),
        field("end", "10:30"),
    ];

    let date = Date::new(2025, 3, 15).unwrap();

    let session = Session::from_dict_with_tz(&dict, date, "UTC").unwrap();

    assert_eq!(session.intent.role, Some("engineer".to_string()));
    assert_eq!(session.intent.action, Some("coding".to_string()));
    assert_eq!(session.intent.subject, Some("tests".to_string()));
    assert_eq!(session.start.hour(), 9);
    assert_eq!(session.end.unwrap().hour(), 10);
    assert_eq!(session.end.unwrap().minute(), 30);
}

#[test]
fn test_from_dict_with_tz_open_session() {
    let dict = vec![field("role", "engineer"), field("start", "09:00")];

    let date = Date::new(2025, 3, 15).unwrap();

    let session = Session::from_dict_with_tz(&dict, date, "UTC").unwrap();

    assert_eq!(session.end, None);
}

#[test]
fn test_from_dict_with_tz_with_note() {
    let dict = vec![field("start", "09:00"), field("note", "Test note")];

    let date = Date::new(2025, 3, 15).unwrap();

    let session = Session::from_dict_with_tz(&dict, date, "UTC").unwrap();

    assert_eq!(session.note, Some("Test note".to_string()));
}

#[test]
fn test_from_dict_with_tz_missing_start() {
    let dict: Vec<(String, ValueType)> = Vec::new();

    let date = Date::new(2025, 3, 15).unwrap();

    let result = Session::from_dict_with_tz(&dict, date, "UTC");

    assert!(result.is_err());
    assert_eq!(result.unwrap_err(), SessionParseError::MissingStart);
}

#[test]
fn test_from_dict_with_tz_single_tracker_string() {
    let dict = vec![field("start", "09:00"), field("trackers", "work:admin")];

    let date = Date::new(2025, 3, 15).unwrap();

    let session = Session::from_dict_with_tz(&dict, date, "UTC").unwrap();

    assert_eq!(session.intent.trackers, vec!["work:admin".to_string()]);
}

#[test]
fn from_dict_reads_tracker_list_and_offset_times() {
    let dict = vec![
        field("start", "09:00+0100"),
        (
            "trackers".to_string(),
            ValueType::List(vec!["a".to_string(), "b".to_string(), "a".to_string()]),
        ),
    ];
    let date = Date::new(2025, 3, 30).unwrap();
    let session = Session::from_dict_with_tz(&dict, date, "Europe/London").unwrap();
    assert_eq!(session.intent.trackers, vec!["a".to_string(), "b".to_string()]);
    assert_eq!(session.start.offset, 3600);
    assert_eq!(session.start.hour(), 9);
    assert_eq!(session.intent.alias, Some(":  to  for ".to_string()));
}

#[test]
fn test_session_equality() {
    let intent1 = sample_intent();
    let intent2 = sample_intent();
    let start = utc(2025, 3, 15, 9, 0, 0);
    let end = utc(2025, 3, 15, 10, 0, 0);

    let session1 = Session::new(intent1, start, Some(end), None);
    let session2 = Session::new(intent2, start, Some(end), None);

    assert_eq!(session1, session2);
}

#[test]
fn test_session_clone() {
    let intent = sample_intent();
    let start = utc(2025, 3, 15, 9, 0, 0);

    let session1 = Session::new(intent, start, None, Some("note".to_string()));
    let session2 = session1.clone();

    assert_eq!(session1, session2);
    assert_eq!(session2.note, Some("note".to_string()));
}

#[test]
fn intent_builds_alias_and_dedups_trackers() {
    let i = Intent::new(
        None,
        Some("dev".to_string()),
        Some("ship".to_string()),
        Some("write".to_string()),
        Some("docs".to_string()),
        vec!["t".to_string(), "t".to_string()],
    );
    assert_eq!(i.alias, Some("dev: write to ship for docs".to_string()));
    assert_eq!(i.trackers, vec!["t".to_string()]);
    let j = Intent::new(
        Some("x".to_string()),
        None,
        None,
        None,
        None,
        vec!["b".to_string(), "a".to_string()],
    );
    let k = Intent::new(
        Some("x".to_string()),
        None,
        None,
        None,
        None,
        vec!["a".to_string(), "b".to_string()],
    );
    assert_eq!(j, k);
}

#[test]
fn value_type_accessors() {
    let s = ValueType::String("x".to_string());
    let l = ValueType::List(vec!["y".to_string()]);
    assert_eq!(s.as_string(), Some(&"x".to_string()));
    assert!(s.as_list().is_none());
    assert_eq!(l.as_list(), Some(&vec!["y".to_string()]));
    assert!(l.as_string().is_none());
}

#[test]
fn test_version_exists() {
    let v = faff_core::version::version();
    assert!(!v.is_empty(), "Version should not be empty");
}
