use talendar::cache::Cache;
use talendar::date::Date;
use talendar::event::{Event, EventStatus, EventTime};
use talendar::sync::{apply_page, initial_request, EventsResponse, PageOutcome, PAGE_SIZE};

fn event(id: &str, status: EventStatus, date: Date) -> Event {
    Event {
        id: Some(id.to_string()),
        summary: None,
        status,
        color_id: None,
        start: Some(EventTime::AllDay(date)),
        end: None,
    }
}

#[test]
fn first_request_without_token_is_a_full_sync() {
    let cache = Cache::new();
    let req = initial_request(&cache, &"cal".to_string(), &"Australia/Melbourne".to_string());
    assert_eq!(req.calendar_id, "cal");
    assert_eq!(req.sync_token, None);
    assert_eq!(req.page_token, None);
    assert_eq!(req.time_zone, "Australia/Melbourne");
    assert!(req.single_events);
    assert_eq!(req.max_results, PAGE_SIZE);
}

#[test]
fn first_request_with_stored_token_is_a_delta_sync() {
    let mut cache = Cache::new();
    cache.set_sync_token("cal".to_string(), "tok-1".to_string());
    let req = initial_request(&cache, &"cal".to_string(), &"UTC".to_string());
    assert_eq!(req.sync_token.as_deref(), Some("tok-1"));
    assert_eq!(req.page_token, None);
}

#[test]
fn two_pages_apply_both_and_store_only_the_last_token() {
    let d = Date::new(2024, 6, 1);
    let mut cache = Cache::new();
    let cal = "cal".to_string();
    let tz = "UTC".to_string();

    let page1 = EventsResponse {
        items: Some(vec![event("e1", EventStatus::Confirmed, d)]),
        next_page_token: Some("T".to_string()),
        next_sync_token: Some("S1".to_string()),
    };
    let outcome1 = apply_page(&mut cache, &cal, &tz, page1);
    let req2 = match outcome1 {
        PageOutcome::NextPage(req) => req,
        PageOutcome::Done => panic!("a page with a next-page token must continue"),
    };
    assert_eq!(req2.page_token.as_deref(), Some("T"));
    assert_eq!(req2.sync_token, None);
    assert_eq!(req2.calendar_id, "cal");
    assert_eq!(req2.max_results, PAGE_SIZE);
    // a continuing page must not store the page's sync token
    assert_eq!(cache.sync_token(&cal), None);

    let page2 = EventsResponse {
        items: Some(vec![event("e2", EventStatus::Confirmed, d)]),
        next_page_token: None,
        next_sync_token: Some("S2".to_string()),
    };
    let outcome2 = apply_page(&mut cache, &cal, &tz, page2);
    assert_eq!(outcome2, PageOutcome::Done);

    let bucket = cache.events_on(d).unwrap();
    let ids: Vec<&str> = bucket.iter().map(|e| e.id.as_deref().unwrap()).collect();
    assert_eq!(ids, ["e1", "e2"]);
    assert_eq!(cache.sync_token(&cal).map(|t| t.as_str()), Some("S2"));
}

#[test]
fn cancelled_items_remove_and_dateless_items_are_skipped() {
    let d = Date::new(2024, 6, 1);
    let mut cache = Cache::new();
    let cal = "cal".to_string();
    let tz = "UTC".to_string();
    cache.upsert(event("gone", EventStatus::Confirmed, d));
    cache.upsert(event("stays", EventStatus::Confirmed, d));

    let mut dateless = event("nowhere", EventStatus::Confirmed, d);
    dateless.start = None;

    let page = EventsResponse {
        items: Some(vec![
            event("gone", EventStatus::Cancelled, d),
            event("new", EventStatus::Tentative, d),
            dateless,
        ]),
        next_page_token: None,
        next_sync_token: None,
    };
    let outcome = apply_page(&mut cache, &cal, &tz, page);
    assert_eq!(outcome, PageOutcome::Done);

    let ids: Vec<&str> = cache.events_on(d).unwrap().iter().map(|e| e.id.as_deref().unwrap()).collect();
    assert_eq!(ids, ["stays", "new"]);
    // no token supplied: the store stays empty, forcing a full sync next pass
    assert_eq!(cache.sync_token(&cal), None);
}

#[test]
fn page_without_items_ends_the_pass_and_stores_its_token() {
    let mut cache = Cache::new();
    let cal = "cal".to_string();
    let tz = "UTC".to_string();
    let page = EventsResponse {
        items: None,
        next_page_token: Some("ignored".to_string()),
        next_sync_token: Some("S".to_string()),
    };
    let outcome = apply_page(&mut cache, &cal, &tz, page);
    assert_eq!(outcome, PageOutcome::Done);
    assert_eq!(cache.sync_token(&cal).map(|t| t.as_str()), Some("S"));
}
