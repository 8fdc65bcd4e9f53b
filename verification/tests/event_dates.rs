use chrono::Datelike;
use talendar::cache::{ColorDefinition, ColorPalette};
use talendar::date::Date;
use talendar::event::{Event, EventStatus, EventTime, Instant};
use talendar::utils::{get_event_color, month_to_str};

fn bare_event() -> Event {
    Event {
        id: Some("e".to_string()),
        summary: None,
        status: EventStatus::Confirmed,
        color_id: None,
        start: None,
        end: None,
    }
}

#[test]
fn all_day_events_bucket_under_their_own_date() {
    let mut e = bare_event();
    e.start = Some(EventTime::AllDay(Date::new(2024, 6, 1)));
    assert_eq!(e.bucket_date(), Some(Date::new(2024, 6, 1)));
}

#[test]
fn timed_events_bucket_under_their_local_date() {
    // the timestamp's calendar date in the local time zone, which may
    // differ from its UTC date (2024-06-02), is resolved at the boundary
    let stamp = "2024-06-01T23:30:00-07:00";
    let parsed = chrono::DateTime::parse_from_rfc3339(stamp).unwrap();
    let local = parsed.with_timezone(&chrono::Local).date_naive();
    let local_date = Date::new(local.year() as u32, local.month(), local.day());

    let mut e = bare_event();
    e.start = Some(EventTime::Timed(Instant {
        timestamp: stamp.to_string(),
        local_date,
    }));
    assert_eq!(e.bucket_date(), Some(local_date));
}

#[test]
fn an_event_without_a_start_has_no_bucket() {
    assert_eq!(bare_event().bucket_date(), None);
}

#[test]
fn end_dates_read_the_end_boundary() {
    let mut e = bare_event();
    e.end = Some(EventTime::AllDay(Date::new(2024, 6, 3)));
    assert_eq!(e.end_date(), Some(Date::new(2024, 6, 3)));
    assert_eq!(e.bucket_date(), None);
}

#[test]
fn statuses_parse_from_their_wire_strings() {
    assert_eq!(EventStatus::from_wire(Some("confirmed")), EventStatus::Confirmed);
    assert_eq!(EventStatus::from_wire(Some("tentative")), EventStatus::Tentative);
    assert_eq!(EventStatus::from_wire(Some("cancelled")), EventStatus::Cancelled);
    assert_eq!(EventStatus::from_wire(Some("something-new")), EventStatus::Other);
    assert_eq!(EventStatus::from_wire(None), EventStatus::Other);
}

#[test]
fn start_display_shows_timestamp_date_or_nothing() {
    let mut e = bare_event();
    assert_eq!(e.start_display(), "No Start Time");

    e.start = Some(EventTime::AllDay(Date::new(2024, 6, 1)));
    assert_eq!(e.start_display(), "2024-06-01 ALL DAY");

    e.start = Some(EventTime::Timed(Instant {
        timestamp: "2024-06-01T23:30:00-07:00".to_string(),
        local_date: Date::new(2024, 6, 1),
    }));
    assert_eq!(e.start_display(), "2024-06-01T23:30:00-07:00");
}

#[test]
fn month_names() {
    assert_eq!(month_to_str(1), "January");
    assert_eq!(month_to_str(6), "June");
    assert_eq!(month_to_str(12), "December");
}

#[test]
fn event_colors_come_from_the_palette_or_fall_back() {
    let palette = ColorPalette::from_entries(vec![
        ("5".to_string(), ColorDefinition {
            foreground: Some("#a4bdfc".to_string()),
            background: Some("#000000".to_string()),
        }),
        ("9".to_string(), ColorDefinition { foreground: None, background: None }),
    ]);

    let mut e = bare_event();
    assert_eq!(get_event_color(&e, &palette), "#FFFFFF");

    e.color_id = Some("5".to_string());
    assert_eq!(get_event_color(&e, &palette), "#a4bdfc");

    e.color_id = Some("9".to_string());
    assert_eq!(get_event_color(&e, &palette), "#FFFFFF");

    e.color_id = Some("77".to_string());
    assert_eq!(get_event_color(&e, &palette), "#FFFFFF");
}
