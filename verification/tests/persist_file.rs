use talendar::cache::{Cache, CalendarDescriptor, ColorDefinition, ColorPalette};
use talendar::date::Date;
use talendar::event::{Event, EventStatus, EventTime, Instant};
use talendar::persist::{load_cache, parse_cache, render_cache, LoadOutcome};

fn sample_cache() -> Cache {
    let mut cache = Cache::new();
    cache.set_sync_token("primary".to_string(), "tok-α".to_string());
    cache.set_sync_token("work".to_string(), "tok-2".to_string());

    let d1 = Date::new(2024, 6, 1);
    let d2 = Date::new(2024, 12, 31);
    cache.upsert(Event {
        id: Some("a".to_string()),
        summary: Some("Fête".to_string()),
        status: EventStatus::Confirmed,
        color_id: Some("3".to_string()),
        start: Some(EventTime::AllDay(d1)),
        end: Some(EventTime::AllDay(d1)),
    });
    cache.upsert(Event {
        id: None,
        summary: None,
        status: EventStatus::Other,
        color_id: None,
        start: Some(EventTime::Timed(Instant {
            timestamp: "2024-06-01T23:30:00-07:00".to_string(),
            local_date: d1,
        })),
        end: None,
    });
    cache.upsert(Event {
        id: Some("b".to_string()),
        summary: Some("new year's eve".to_string()),
        status: EventStatus::Tentative,
        color_id: None,
        start: Some(EventTime::AllDay(d2)),
        end: None,
    });

    cache.set_calendars(vec![
        CalendarDescriptor { id: Some("primary".to_string()), summary: Some("Home".to_string()) },
        CalendarDescriptor { id: None, summary: None },
    ]);

    cache.set_colors(ColorPalette::from_entries(vec![
        ("3".to_string(), ColorDefinition {
            foreground: Some("#112233".to_string()),
            background: Some("#ffffff".to_string()),
        }),
        ("7".to_string(), ColorDefinition { foreground: None, background: None }),
    ]));
    cache
}

#[test]
fn save_then_load_reconstructs_the_cache() {
    let cache = sample_cache();
    let text = render_cache(&cache);
    let reread = parse_cache(&text).expect("what the writer wrote must read back");
    assert_eq!(reread, cache);

    let (loaded, outcome) = load_cache(Some(&text));
    assert_eq!(outcome, LoadOutcome::Loaded);
    assert_eq!(loaded, cache);
}

#[test]
fn the_empty_cache_writes_four_empty_lists() {
    let text = render_cache(&Cache::new());
    assert_eq!(text.len(), 80);
    assert!(text.chars().all(|c| c == '0'));
    let reread = parse_cache(&text).expect("the empty cache must read back");
    assert_eq!(reread, Cache::new());
}

#[test]
fn a_missing_file_starts_empty() {
    let (cache, outcome) = load_cache(None);
    assert_eq!(outcome, LoadOutcome::Missing);
    assert_eq!(cache, Cache::new());
}

#[test]
fn unreadable_contents_recover_to_the_empty_cache() {
    for bad in ["", "not a cache", "0000", "{\"sync_tokens\":{}}"] {
        let (cache, outcome) = load_cache(Some(bad));
        assert_eq!(outcome, LoadOutcome::Corrupt, "contents: {:?}", bad);
        assert_eq!(cache, Cache::new());
    }
}

#[test]
fn trailing_garbage_is_rejected() {
    let mut text = render_cache(&sample_cache());
    text.push(' ');
    assert!(parse_cache(&text).is_none());
    let (cache, outcome) = load_cache(Some(&text));
    assert_eq!(outcome, LoadOutcome::Corrupt);
    assert_eq!(cache, Cache::new());
}

#[test]
fn truncated_contents_are_rejected() {
    let text = render_cache(&sample_cache());
    let cut: String = text.chars().take(text.chars().count() - 1).collect();
    assert!(parse_cache(&cut).is_none());
}
