use faff_core::parse::LogParseError;
use faff_core::codec::format_duration;
use faff_core::intent::Intent;
use faff_core::log::{Log, LogError};
use faff_core::session::Session;
use faff_core::time::{resolve, Date, ZonedTime};

fn sample_intent() -> Intent {
    Intent::new(
        Some("work".to_string()),
        Some("engineer".to_string()),
        Some("development".to_string()),
        Some("coding".to_string()),
        Some("features".to_string()),
        vec![],
    )
}

fn sample_date() -> Date {
    Date::new(2025, 3, 15).unwrap()
}

fn london_tz() -> String {
    "Europe/London".to_string()
}

fn at(tz: &str, y: i32, mo: u32, d: u32, h: u32, mi: u32, s: u32) -> ZonedTime {
    resolve(tz, Date::new(y, mo, d).unwrap(), h * 3600 + mi * 60 + s).unwrap()
}

fn london(y: i32, mo: u32, d: u32, h: u32, mi: u32, s: u32) -> ZonedTime {
    at("Europe/London", y, mo, d, h, mi, s)
}

fn utc(y: i32, mo: u32, d: u32, h: u32, mi: u32, s: u32) -> ZonedTime {
    at("UTC", y, mo, d, h, mi, s)
}

fn later_today() -> (Date, ZonedTime) {
    (Date::new(2026, 1, 1).unwrap(), utc(2026, 1, 1, 12, 0, 0))
}

#[test]
fn log_test_create_empty_log() {
    let log = Log::new(sample_date(), london_tz(), vec![]);
    assert_eq!(log.date, sample_date());
    assert_eq!(log.timezone, london_tz());
    assert_eq!(log.timeline.len(), 0);
}

#[test]
fn log_test_create_log_with_session() {
    let intent = sample_intent();
    let start = london(2025, 3, 15, 9, 0, 0);
    let end = london(2025, 3, 15, 10, 30, 0);
    let session = Session::new(intent, start, Some(end), None);

    let log = Log::new(sample_date(), london_tz(), vec![session.clone()]);

    assert_eq!(log.timeline.len(), 1);
    assert_eq!(log.timeline[0], session);
}

#[test]
fn log_test_empty_log_has_no_active_session() {
    let log = Log::new(sample_date(), london_tz(), vec![]);
    assert!(log.active_session().is_none());
}

#[test]
fn log_test_log_with_completed_session_has_no_active_session() {
    let intent = sample_intent();
    let start = london(2025, 3, 15, 9, 0, 0);
    let end = london(2025, 3, 15, 10, 30, 0);
    let session = Session::new(intent, start, Some(end), None);

    let log = Log::new(sample_date(), london_tz(), vec![session]);

    assert!(log.active_session().is_none());
}

#[test]
fn log_test_log_with_open_session_returns_it() {
    let intent = sample_intent();
    let start = london(2025, 3, 15, 14, 0, 0);
    let session = Session::new(intent.clone(), start, None, None);

    let log = Log::new(sample_date(), london_tz(), vec![session.clone()]);

    let active = log.active_session();
    assert!(active.is_some());
    assert_eq!(active.unwrap().end, None);
}

#[test]
fn log_test_only_last_session_matters_for_active() {
    let intent = sample_intent();
    let start1 = london(2025, 3, 15, 9, 0, 0);
    let end1 = london(2025, 3, 15, 10, 30, 0);
    let session1 = Session::new(intent.clone(), start1, Some(end1), None);

    let start2 = london(2025, 3, 15, 14, 0, 0);
    let session2 = Session::new(intent, start2, None, None);

    let log = Log::new(sample_date(), london_tz(), vec![session1, session2.clone()]);

    let active = log.active_session();
    assert_eq!(active.unwrap(), &session2);
}

#[test]
fn log_test_append_to_empty_log() {
    let intent = sample_intent();
    let start = london(2025, 3, 15, 9, 0, 0);
    let end = london(2025, 3, 15, 10, 30, 0);
    let session = Session::new(intent, start, Some(end), None);

    let log = Log::new(sample_date(), london_tz(), vec![]);
    let new_log = log.append_session(session.clone()).unwrap();

    assert_eq!(new_log.timeline.len(), 1);
    assert_eq!(new_log.timeline[0], session);
    assert_eq!(log.timeline.len(), 0);
}

#[test]
fn log_test_append_to_log_with_completed_sessions() {
    let intent = sample_intent();
    let start1 = london(2025, 3, 15, 9, 0, 0);
    let end1 = london(2025, 3, 15, 10, 30, 0);
    let session1 = Session::new(intent.clone(), start1, Some(end1), None);

    let start2 = london(2025, 3, 15, 11, 0, 0);
    let end2 = london(2025, 3, 15, 12, 0, 0);
    let session2 = Session::new(intent, start2, Some(end2), None);

    let log = Log::new(sample_date(), london_tz(), vec![session1]);
    let new_log = log.append_session(session2.clone()).unwrap();

    assert_eq!(new_log.timeline.len(), 2);
    assert_eq!(new_log.timeline[1], session2);
}

#[test]
fn log_test_append_automatically_stops_active_session() {
    let intent = sample_intent();
    let start1 = london(2025, 3, 15, 14, 0, 0);
    let open_session = Session::new(intent.clone(), start1, None, None);

    let start2 = london(2025, 3, 15, 15, 0, 0);
    let end2 = london(2025, 3, 15, 16, 0, 0);
    let new_session = Session::new(intent, start2, Some(end2), None);

    let log = Log::new(sample_date(), london_tz(), vec![open_session]);
    let new_log = log.append_session(new_session.clone()).unwrap();

    assert_eq!(new_log.timeline.len(), 2);
    assert_eq!(new_log.timeline[0].end, Some(start2));
    assert_eq!(new_log.timeline[1], new_session);
}

#[test]
fn log_test_stop_active_session() {
    let intent = sample_intent();
    let start = london(2025, 3, 15, 14, 0, 0);
    let open_session = Session::new(intent, start, None, None);

    let log = Log::new(sample_date(), london_tz(), vec![open_session]);

    let stop_time = london(2025, 3, 15, 16, 30, 0);
    let stopped_log = log.stop_active_session(stop_time).unwrap();

    assert_eq!(stopped_log.timeline[0].end, Some(stop_time));
    assert_eq!(log.timeline[0].end, None);
}

#[test]
fn log_test_stop_empty_log_raises_error() {
    let log = Log::new(sample_date(), london_tz(), vec![]);
    let stop_time = london(2025, 3, 15, 16, 30, 0);

    let result = log.stop_active_session(stop_time);
    assert!(matches!(result, Err(LogError::NoTimelineEntries)));
}

#[test]
fn log_test_empty_log_is_closed() {
    let log = Log::new(sample_date(), london_tz(), vec![]);
    assert!(log.is_closed());
}

#[test]
fn log_test_log_with_completed_sessions_is_closed() {
    let intent = sample_intent();
    let start = london(2025, 3, 15, 9, 0, 0);
    let end = london(2025, 3, 15, 10, 30, 0);
    let session = Session::new(intent, start, Some(end), None);

    let log = Log::new(sample_date(), london_tz(), vec![session]);
    assert!(log.is_closed());
}

#[test]
fn log_test_log_with_open_session_is_not_closed() {
    let intent = sample_intent();
    let start = london(2025, 3, 15, 14, 0, 0);
    let session = Session::new(intent, start, None, None);

    let log = Log::new(sample_date(), london_tz(), vec![session]);
    assert!(!log.is_closed());
}

#[test]
fn log_test_empty_log_has_zero_time() {
    let log = Log::new(sample_date(), london_tz(), vec![]);
    let (today, now) = later_today();
    assert_eq!(log.total_recorded_time(today, now).unwrap(), 0);
}

#[test]
fn log_test_single_completed_session() {
    let intent = sample_intent();
    let start = london(2025, 3, 15, 9, 0, 0);
    let end = london(2025, 3, 15, 10, 30, 0);
    let session = Session::new(intent, start, Some(end), None);

    let log = Log::new(sample_date(), london_tz(), vec![session]);
    let (today, now) = later_today();
    assert_eq!(log.total_recorded_time(today, now).unwrap(), 3600 + 30 * 60);
}

#[test]
fn log_test_multiple_completed_sessions() {
    let intent = sample_intent();

    let start1 = london(2025, 3, 15, 9, 0, 0);
    let end1 = london(2025, 3, 15, 10, 0, 0);
    let session1 = Session::new(intent.clone(), start1, Some(end1), None);

    let start2 = london(2025, 3, 15, 14, 0, 0);
    let end2 = london(2025, 3, 15, 15, 30, 0);
    let session2 = Session::new(intent, start2, Some(end2), None);

    let log = Log::new(sample_date(), london_tz(), vec![session1, session2]);

    let (today, now) = later_today();
    assert_eq!(log.total_recorded_time(today, now).unwrap(), 2 * 3600 + 30 * 60);
}

#[test]
fn log_test_open_session_on_past_date_uses_end_of_day() {
    let intent = sample_intent();
    let past_date = Date::new(2025, 3, 10).unwrap();

    let start = london(2025, 3, 10, 14, 0, 0);
    let open_session = Session::new(intent, start, None, None);

    let log = Log::new(past_date, london_tz(), vec![open_session]);
    let (today, now) = later_today();
    let total = log.total_recorded_time(today, now).unwrap();

    assert_eq!(total, 9 * 3600 + 59 * 60 + 59);
}

#[test]
fn open_session_today_runs_to_now() {
    let intent = sample_intent();
    let start = london(2025, 3, 15, 14, 0, 0);
    let log = Log::new(sample_date(), london_tz(), vec![Session::new(intent, start, None, None)]);
    let now = london(2025, 3, 15, 15, 15, 0);
    assert_eq!(log.total_recorded_time(sample_date(), now).unwrap(), 75 * 60);
}

#[test]
fn unknown_zone_fails_total_for_past_open_session() {
    let start = utc(2025, 3, 10, 14, 0, 0);
    let log = Log::new(
        Date::new(2025, 3, 10).unwrap(),
        "Nowhere/Special".to_string(),
        vec![Session::new(sample_intent(), start, None, None)],
    );
    let (today, now) = later_today();
    assert_eq!(log.total_recorded_time(today, now), Err(LogError::UnknownTimezone));
}

#[test]
fn log_test_to_log_file_empty() {
    let log = Log::new(sample_date(), "UTC".to_string(), vec![]);
    let trackers = Vec::new();
    let output = log.to_log_file(&trackers);

    assert!(output.contains("# This is a Faff-format log file"));
    assert!(output.contains("version  = \"1.1\""));
    assert!(output.contains("date     = \"2025-03-15\""));
    assert!(output.contains("timezone = \"UTC\""));
    assert!(output.contains("# Timeline is empty."));
}

#[test]
fn log_test_to_log_file_with_session() {
    let intent = sample_intent();
    let start = utc(2025, 3, 15, 9, 0, 0);
    let end = utc(2025, 3, 15, 10, 30, 0);
    let session = Session::new(intent, start, Some(end), None);

    let log = Log::new(sample_date(), "UTC".to_string(), vec![session]);
    let trackers = Vec::new();
    let output = log.to_log_file(&trackers);

    assert!(output.contains("[[timeline]]"));
    assert!(output.contains("alias     = \"work\""));
    assert!(output.contains("start     = \"09:00\""));
    assert!(output.contains("end       = \"10:30\""));
    assert!(output.contains("# duration = \"1 hour and 30 minutes\""));
}

#[test]
fn test_format_duration() {
    assert_eq!(format_duration(2 * 3600), "2 hours");
    assert_eq!(format_duration(45 * 60), "45 minutes");
    assert_eq!(format_duration(30), "30 seconds");
    assert_eq!(format_duration(3600 + 30 * 60), "1 hour and 30 minutes");
    assert_eq!(
        format_duration(2 * 3600 + 15 * 60 + 45),
        "2 hours, 15 minutes and 45 seconds"
    );
}

#[test]
fn format_duration_singular_and_gaps() {
    assert_eq!(format_duration(3600 + 1), "1 hour and 1 second");
    assert_eq!(format_duration(61), "1 minute and 1 second");
    assert_eq!(format_duration(0), "0 seconds");
    assert_eq!(format_duration(-90), "-30 seconds");
}

#[test]
fn dst_date_writes_offsets() {
    // 2025-03-30 is the spring-forward date in Europe/London.
    let date = Date::new(2025, 3, 30).unwrap();
    let start = london(2025, 3, 30, 9, 0, 0);
    let end = london(2025, 3, 30, 10, 0, 0);
    let log = Log::new(date, london_tz(), vec![Session::new(sample_intent(), start, Some(end), None)]);
    let output = log.to_log_file(&Vec::new());
    assert!(output.contains("# date_format = \"HH:mmZ\""));
    assert!(output.contains("\"09:00+0100\""));
    assert!(output.contains("\"10:00+0100\""));
}

#[test]
fn ordinary_date_writes_bare_times() {
    let start = london(2025, 3, 15, 9, 0, 0);
    let log = Log::new(sample_date(), london_tz(), vec![Session::new(sample_intent(), start, None, None)]);
    let output = log.to_log_file(&Vec::new());
    assert!(output.contains("# date_format = \"HH:mm\""));
    assert!(output.contains("start     = \"09:00\""));
}

#[test]
fn sessions_are_written_in_start_order_with_labels() {
    let a = Session::new(
        Intent::new(Some("late".to_string()), None, None, None, None, vec!["t1".to_string()]),
        utc(2025, 3, 15, 11, 0, 0),
        None,
        Some("".to_string()),
    );
    let b = Session::new(
        Intent::new(
            Some("early".to_string()),
            None,
            None,
            None,
            None,
            vec!["t1".to_string(), "t2".to_string()],
        ),
        utc(2025, 3, 15, 9, 0, 0),
        Some(utc(2025, 3, 15, 9, 0, 1)),
        Some("a note".to_string()),
    );
    let log = Log::new(sample_date(), "UTC".to_string(), vec![a, b]);
    let labels = vec![("t1".to_string(), "First".to_string())];
    let output = log.to_log_file(&labels);
    let early = output.find("\"early\"").unwrap();
    let late = output.find("\"late\"").unwrap();
    assert!(early < late);
    assert!(output.contains("trackers = \"t1\" # First"));
    assert!(output.contains("   \"t1\", # First"));
    assert!(output.contains("   \"t2\","));
    assert!(output.contains("# duration = \"1 second\""));
    assert!(output.contains("note     = \"a note\""));
    assert_eq!(output.matches("\nnote").count(), 1);
}

#[test]
fn log_text_round_trip() {
    let s1 = Session::new(
        Intent::new(
            Some("work".to_string()),
            Some("engineer".to_string()),
            None,
            Some("coding".to_string()),
            None,
            vec!["a:1".to_string(), "b:2".to_string()],
        ),
        london(2025, 3, 15, 9, 0, 0),
        Some(london(2025, 3, 15, 10, 30, 0)),
        Some("first".to_string()),
    );
    let s2 = Session::new(
        Intent::new(None, Some("r".to_string()), None, None, None, vec!["x".to_string()]),
        london(2025, 3, 15, 11, 0, 0),
        None,
        None,
    );
    let log = Log::new(sample_date(), london_tz(), vec![s1.clone(), s2.clone()]);
    let text = log.to_log_file(&vec![("x".to_string(), "Label".to_string())]);
    let back = Log::from_log_file(&text).unwrap();
    assert_eq!(back.date, sample_date());
    assert_eq!(back.timezone, london_tz());
    assert_eq!(back.timeline.len(), 2);
    assert_eq!(back.timeline[0], s1);
    assert_eq!(back.timeline[1], s2);
}

#[test]
fn log_text_round_trip_on_dst_date() {
    let date = Date::new(2025, 10, 26).unwrap();
    let s = Session::new(
        Intent::new(Some("w".to_string()), None, None, None, None, vec![]),
        london(2025, 10, 26, 8, 0, 0),
        Some(london(2025, 10, 26, 9, 45, 0)),
        None,
    );
    let log = Log::new(date, london_tz(), vec![s.clone()]);
    let text = log.to_log_file(&Vec::new());
    assert!(text.contains("\"08:00+0000\""));
    let back = Log::from_log_file(&text).unwrap();
    assert_eq!(back.timeline[0], s);
}

#[test]
fn from_log_file_reports_missing_parts() {
    assert_eq!(Log::from_log_file("timezone = \"UTC\"").unwrap_err(), LogParseError::MissingDate);
    assert_eq!(
        Log::from_log_file("date = \"2025-02-30\"\ntimezone = \"UTC\"").unwrap_err(),
        LogParseError::InvalidDate
    );
    assert_eq!(Log::from_log_file("date = \"2025-02-03\"").unwrap_err(), LogParseError::MissingTimezone);
    assert_eq!(
        Log::from_log_file("date = \"2025-02-03\"\ntimezone = \"Mars/Base\"").unwrap_err(),
        LogParseError::UnknownTimezone
    );
}
