use talendar::cache::{Cache, CalendarDescriptor, ColorDefinition};
use talendar::date::Date;
use talendar::engine::{EnginePhase, SyncAction, SyncEngine, SyncInput};
use talendar::event::{Event, EventStatus, EventTime};
use talendar::sync::EventsResponse;

fn cal(id: Option<&str>) -> CalendarDescriptor {
    CalendarDescriptor { id: id.map(|s| s.to_string()), summary: Some("a calendar".to_string()) }
}

fn event(id: &str, date: Date) -> Event {
    Event {
        id: Some(id.to_string()),
        summary: None,
        status: EventStatus::Confirmed,
        color_id: None,
        start: Some(EventTime::AllDay(date)),
        end: None,
    }
}

fn done_page(ids: &[&str], date: Date, token: Option<&str>) -> EventsResponse {
    EventsResponse {
        items: Some(ids.iter().map(|id| event(id, date)).collect()),
        next_page_token: None,
        next_sync_token: token.map(|t| t.to_string()),
    }
}

#[test]
fn a_full_pass_syncs_each_calendar_then_colors_then_persists() {
    let d = Date::new(2024, 6, 1);
    let mut cache = Cache::new();
    let mut engine = SyncEngine::new("UTC".to_string());
    assert_eq!(engine.phase, EnginePhase::ListingCalendars);

    let action = engine.step(&mut cache, SyncInput::CalendarList(vec![cal(Some("A")), cal(Some("B"))]));
    let req_a = match action {
        SyncAction::FetchPage(req) => req,
        _ => panic!("two calendars listed: the engine must ask for a page"),
    };
    assert_eq!(req_a.calendar_id, "A");
    assert_eq!(cache.get_calendars().len(), 2);

    let action = engine.step(&mut cache, SyncInput::Page(done_page(&["a1"], d, Some("tokA"))));
    let req_b = match action {
        SyncAction::FetchPage(req) => req,
        _ => panic!("calendar A done: the engine must move to B"),
    };
    assert_eq!(req_b.calendar_id, "B");

    let action = engine.step(&mut cache, SyncInput::Page(done_page(&["b1"], d, Some("tokB"))));
    assert!(matches!(action, SyncAction::FetchColors));

    let entries = vec![("1".to_string(), ColorDefinition {
        foreground: Some("#112233".to_string()),
        background: None,
    })];
    let action = engine.step(&mut cache, SyncInput::Colors(entries));
    assert!(matches!(action, SyncAction::Persist));
    assert_eq!(engine.phase, EnginePhase::Persisting);

    let action = engine.step(&mut cache, SyncInput::Persisted);
    assert!(matches!(action, SyncAction::Stop));
    assert_eq!(engine.phase, EnginePhase::Complete);

    let ids: Vec<&str> = cache.events_on(d).unwrap().iter().map(|e| e.id.as_deref().unwrap()).collect();
    assert_eq!(ids, ["a1", "b1"]);
    assert_eq!(cache.sync_token(&"A".to_string()).map(|t| t.as_str()), Some("tokA"));
    assert_eq!(cache.sync_token(&"B".to_string()).map(|t| t.as_str()), Some("tokB"));
}

#[test]
fn failure_on_the_second_calendar_keeps_the_first_ones_work_and_never_persists() {
    let d = Date::new(2024, 6, 1);
    let mut cache = Cache::new();
    let mut engine = SyncEngine::new("UTC".to_string());

    let mut saw_persist = false;
    let action = engine.step(&mut cache, SyncInput::CalendarList(vec![cal(Some("A")), cal(Some("B"))]));
    saw_persist |= matches!(action, SyncAction::Persist);

    let action = engine.step(&mut cache, SyncInput::Page(done_page(&["a1"], d, Some("tokA"))));
    saw_persist |= matches!(action, SyncAction::Persist);

    // calendar B's fetch fails: the pass aborts here
    let action = engine.step(&mut cache, SyncInput::TransportError);
    saw_persist |= matches!(action, SyncAction::Persist);
    assert!(matches!(action, SyncAction::Stop));
    assert_eq!(engine.phase, EnginePhase::Failed);
    assert!(!saw_persist);

    // calendar A's mutations stand
    let ids: Vec<&str> = cache.events_on(d).unwrap().iter().map(|e| e.id.as_deref().unwrap()).collect();
    assert_eq!(ids, ["a1"]);
    assert_eq!(cache.sync_token(&"A".to_string()).map(|t| t.as_str()), Some("tokA"));
    assert_eq!(cache.sync_token(&"B".to_string()), None);
}

#[test]
fn calendars_without_an_id_are_listed_but_not_synced() {
    let mut cache = Cache::new();
    let mut engine = SyncEngine::new("UTC".to_string());
    let action = engine.step(&mut cache, SyncInput::CalendarList(vec![cal(None)]));
    assert!(matches!(action, SyncAction::FetchColors));
    assert_eq!(cache.get_calendars().len(), 1);
}

#[test]
fn an_empty_calendar_list_still_fetches_colors() {
    let mut cache = Cache::new();
    let mut engine = SyncEngine::new("UTC".to_string());
    let action = engine.step(&mut cache, SyncInput::CalendarList(Vec::new()));
    assert!(matches!(action, SyncAction::FetchColors));
}
