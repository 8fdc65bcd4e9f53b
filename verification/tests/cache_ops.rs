use talendar::cache::{Cache, RemoveOutcome};
use talendar::date::Date;
use talendar::event::{Event, EventStatus, EventTime};

fn all_day_event(id: Option<&str>, date: Date) -> Event {
    Event {
        id: id.map(|s| s.to_string()),
        summary: None,
        status: EventStatus::Confirmed,
        color_id: None,
        start: Some(EventTime::AllDay(date)),
        end: None,
    }
}

#[test]
fn upsert_then_read_then_remove() {
    let d = Date::new(2024, 6, 1);
    let e1 = all_day_event(Some("a"), d);
    let e2 = all_day_event(Some("b"), d);

    let mut cache = Cache::new();
    assert!(cache.events_on(d).is_none());

    cache.upsert(e1.clone());
    assert_eq!(cache.events_on(d), Some(&vec![e1.clone()]));

    cache.upsert(e2.clone());
    assert_eq!(cache.events_on(d), Some(&vec![e1.clone(), e2.clone()]));

    let outcome = cache.remove(&e1);
    assert_eq!(outcome, RemoveOutcome::Removed);
    assert_eq!(cache.events_on(d), Some(&vec![e2.clone()]));
}

#[test]
fn distinct_ids_fill_the_bucket_exactly() {
    let d = Date::new(2025, 1, 15);
    let ids = ["one", "two", "three", "four"];
    let mut cache = Cache::new();
    for id in ids {
        cache.upsert(all_day_event(Some(id), d));
    }
    let bucket = cache.events_on(d).expect("bucket must exist");
    let got: Vec<&str> = bucket.iter().map(|e| e.id.as_deref().unwrap()).collect();
    assert_eq!(got, ids);
}

#[test]
fn duplicate_ids_coexist_until_removed() {
    let d = Date::new(2024, 3, 3);
    let mut cache = Cache::new();
    cache.upsert(all_day_event(Some("dup"), d));
    cache.upsert(all_day_event(Some("keep"), d));
    cache.upsert(all_day_event(Some("dup"), d));
    assert_eq!(cache.events_on(d).unwrap().len(), 3);

    let outcome = cache.remove(&all_day_event(Some("dup"), d));
    assert_eq!(outcome, RemoveOutcome::Removed);
    let bucket = cache.events_on(d).unwrap();
    assert_eq!(bucket.len(), 1);
    assert_eq!(bucket[0].id.as_deref(), Some("keep"));
}

#[test]
fn remove_leaves_other_entries_and_buckets_alone() {
    let d1 = Date::new(2024, 6, 1);
    let d2 = Date::new(2024, 6, 2);
    let mut cache = Cache::new();
    cache.upsert(all_day_event(Some("x"), d1));
    cache.upsert(all_day_event(Some("y"), d1));
    cache.upsert(all_day_event(None, d1));
    cache.upsert(all_day_event(Some("x"), d2));

    let outcome = cache.remove(&all_day_event(Some("x"), d1));
    assert_eq!(outcome, RemoveOutcome::Removed);

    let bucket1 = cache.events_on(d1).unwrap();
    assert_eq!(bucket1.len(), 2);
    assert_eq!(bucket1[0].id.as_deref(), Some("y"));
    assert_eq!(bucket1[1].id, None);

    let bucket2 = cache.events_on(d2).unwrap();
    assert_eq!(bucket2.len(), 1);
    assert_eq!(bucket2[0].id.as_deref(), Some("x"));
}

#[test]
fn remove_missing_bucket_is_a_reported_noop() {
    let d = Date::new(2024, 6, 1);
    let mut cache = Cache::new();
    cache.upsert(all_day_event(Some("a"), d));
    let before = render_snapshot(&cache);

    let other = Date::new(1999, 12, 31);
    let outcome = cache.remove(&all_day_event(Some("a"), other));
    assert_eq!(outcome, RemoveOutcome::NoBucket);
    assert_eq!(render_snapshot(&cache), before);

    // a matching bucket but an id nobody has is also a quiet success
    let outcome = cache.remove(&all_day_event(Some("ghost"), d));
    assert_eq!(outcome, RemoveOutcome::Removed);
    assert_eq!(render_snapshot(&cache), before);
}

#[test]
fn remove_without_usable_id_is_a_reported_skip() {
    let d = Date::new(2024, 6, 1);
    let mut cache = Cache::new();
    cache.upsert(all_day_event(Some("a"), d));
    let before = render_snapshot(&cache);

    assert_eq!(cache.remove(&all_day_event(None, d)), RemoveOutcome::NoId);
    assert_eq!(cache.remove(&all_day_event(Some(""), d)), RemoveOutcome::NoId);
    assert_eq!(render_snapshot(&cache), before);
}

#[test]
fn dateless_event_never_targets_a_bucket() {
    let mut cache = Cache::new();
    cache.upsert(all_day_event(Some("a"), Date::new(2024, 6, 1)));
    let mut dateless = all_day_event(Some("a"), Date::new(2024, 6, 1));
    dateless.start = None;
    assert_eq!(cache.remove(&dateless), RemoveOutcome::NoBucket);
    assert_eq!(cache.events_on(Date::new(2024, 6, 1)).unwrap().len(), 1);
}

fn render_snapshot(cache: &Cache) -> String {
    talendar::persist::render_cache(cache)
}
