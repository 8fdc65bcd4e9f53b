//! Per-calendar incremental synchronisation.
//!
//! A sync pass over one calendar is a sequence of paged requests. The
//! transport that issues them lives outside this crate; here stand the two
//! decisions the pass is made of: what to ask for first
//! ([`initial_request`]), and what a returned page does to the cache and
//! what to ask for next ([`apply_page`]). The driver keeps calling
//! [`apply_page`] until it answers [`PageOutcome::Done`].

use vstd::prelude::*;
use crate::cache::{Cache, CacheModel, spec_remove, spec_upsert};
use crate::event::{Event, EventModel, EventStatus, spec_bucket_date};

verus! {

/// The page size every request asks for.
pub const PAGE_SIZE: u32 = 2500;

/// One request against the event-list operation of the remote service:
/// always for single (non-recurring) events, localised to one time zone,
/// with a bounded page size; carrying the calendar's stored sync token when
/// one exists (delta sync), and a page token when continuing a paged result.
#[derive(Clone, Debug, PartialEq, Eq)]
pub struct EventsRequest {
    pub calendar_id: String,
    pub sync_token: Option<String>,
    pub page_token: Option<String>,
    pub time_zone: String,
    pub single_events: bool,
    pub max_results: u32,
}

/// One page of results from the event-list operation.
#[derive(Clone, Debug, PartialEq, Eq)]
pub struct EventsResponse {
    pub items: Option<Vec<Event>>,
    pub next_page_token: Option<String>,
    pub next_sync_token: Option<String>,
}

/// What to do after a page has been applied: issue the next request of the
/// same pass, or stop.
#[derive(Clone, Debug, PartialEq, Eq)]
pub enum PageOutcome {
    NextPage(EventsRequest),
    Done,
}

/// The sync token stored for a calendar, if any.
pub open spec fn spec_stored_token(m: CacheModel, calendar_id: Seq<char>) -> Option<Seq<char>> {
    if m.sync_tokens.contains_key(calendar_id) {
        Some(m.sync_tokens[calendar_id])
    } else {
        None
    }
}

/// What one returned item does to the cache: an item without a determinable
/// date is skipped, a cancelled item is removed, anything else is upserted.
pub open spec fn spec_apply_item(m: CacheModel, e: EventModel) -> CacheModel {
    if spec_bucket_date(e) is None {
        m
    } else if e.status is Cancelled {
        spec_remove(m, e)
    } else {
        spec_upsert(m, e)
    }
}

/// The items of a page, applied in order.
pub open spec fn spec_apply_items(m: CacheModel, items: Seq<EventModel>) -> CacheModel
    decreases items.len(),
{
    if items.len() == 0 {
        m
    } else {
        spec_apply_item(spec_apply_items(m, items.drop_last()), items.last())
    }
}

/// Applying items only changes date buckets: tokens, calendars and colours
/// stay as they were.
pub proof fn lemma_apply_items_frame(m: CacheModel, items: Seq<EventModel>)
    ensures
        spec_apply_items(m, items).sync_tokens == m.sync_tokens,
        spec_apply_items(m, items).calendars == m.calendars,
        spec_apply_items(m, items).colors == m.colors,
    decreases items.len(),
{
    if items.len() > 0 {
        lemma_apply_items_frame(m, items.drop_last());
    }
}

/// The token store after a response: a supplied sync token replaces the
/// calendar's stored one; a response without one leaves the store untouched,
/// which forces a full sync on the next pass.
pub open spec fn spec_tokens_after(
    m: CacheModel,
    calendar_id: Seq<char>,
    next_sync_token: Option<Seq<char>>,
) -> Map<Seq<char>, Seq<char>> {
    match next_sync_token {
        Some(t) => m.sync_tokens.insert(calendar_id, t),
        None => m.sync_tokens,
    }
}

/// Whether a page asks for a follow-up request: only when it carried items
/// and names a next page.
pub open spec fn spec_page_continues(
    items: Option<Seq<EventModel>>,
    next_page_token: Option<Seq<char>>,
) -> bool {
    items is Some && next_page_token is Some
}

/// The cache after one page: its items applied in order; and, when the pass
/// ends with this page, the sync token the response supplied (if any)
/// stored for the calendar. A page that continues stores no token — only
/// the last response of a pass may supply one that sticks.
pub open spec fn spec_apply_page(
    m: CacheModel,
    calendar_id: Seq<char>,
    items: Option<Seq<EventModel>>,
    next_page_token: Option<Seq<char>>,
    next_sync_token: Option<Seq<char>>,
) -> CacheModel {
    let applied = match items {
        Some(es) => spec_apply_items(m, es),
        None => m,
    };
    if spec_page_continues(items, next_page_token) {
        applied
    } else {
        CacheModel {
            sync_tokens: spec_tokens_after(applied, calendar_id, next_sync_token),
            ..applied
        }
    }
}

/// The first request of a pass over one calendar: a delta sync when a token
/// is stored for it, a full sync otherwise; no page token yet.
pub fn initial_request(cache: &Cache, calendar_id: &String, time_zone: &String) -> (r:
    EventsRequest)
    requires
        cache.wf(),
    ensures
        r.calendar_id@ == calendar_id@,
        r.sync_token.deep_view() == spec_stored_token(cache@, calendar_id@),
        r.page_token is None,
        r.time_zone@ == time_zone@,
        r.single_events == true,
        r.max_results == PAGE_SIZE,
{
    EventsRequest {
        calendar_id: calendar_id.clone(),
        sync_token: match cache.sync_token(calendar_id) {
            Some(t) => Some(t.clone()),
            None => None,
        },
        page_token: None,
        time_zone: time_zone.clone(),
        single_events: true,
        max_results: PAGE_SIZE,
    }
}

/// Stores a supplied sync token for the calendar; stores nothing otherwise.
fn store_token(cache: &mut Cache, calendar_id: &String, token: Option<String>)
    requires
        old(cache).wf(),
    ensures
        final(cache).wf(),
        final(cache)@ == (CacheModel {
            sync_tokens: spec_tokens_after(old(cache)@, calendar_id@, token.deep_view()),
            ..old(cache)@
        }),
{
    match token {
        Some(t) => cache.set_sync_token(calendar_id.clone(), t),
        None => {
            proof {
                assert(cache@ =~= (CacheModel {
                    sync_tokens: spec_tokens_after(old(cache)@, calendar_id@, None),
                    ..old(cache)@
                }));
            }
        },
    }
}

/// Applies one page of results to the cache and says how the pass goes on.
///
/// Every item with a determinable date is applied in order — removed when
/// cancelled, upserted otherwise; items without one are skipped. A response
/// that carries items and a next-page token asks for the next page, under
/// the same stored sync token; any other response ends the pass, storing
/// the response's sync token if it supplied one.
pub fn apply_page(
    cache: &mut Cache,
    calendar_id: &String,
    time_zone: &String,
    response: EventsResponse,
) -> (r: PageOutcome)
    requires
        old(cache).wf(),
    ensures
        final(cache).wf(),
        final(cache)@ == spec_apply_page(
            old(cache)@,
            calendar_id@,
            response.items.deep_view(),
            response.next_page_token.deep_view(),
            response.next_sync_token.deep_view(),
        ),
        (r is NextPage) == spec_page_continues(
            response.items.deep_view(),
            response.next_page_token.deep_view(),
        ),
        r matches PageOutcome::NextPage(req) ==> {
            &&& req.calendar_id@ == calendar_id@
            &&& req.sync_token.deep_view() == spec_stored_token(old(cache)@, calendar_id@)
            &&& req.page_token.deep_view() == response.next_page_token.deep_view()
            &&& req.time_zone@ == time_zone@
            &&& req.single_events == true
            &&& req.max_results == PAGE_SIZE
        },
{
    let EventsResponse { items, next_page_token, next_sync_token } = response;
    let mut es = match items {
        None => {
            store_token(cache, calendar_id, next_sync_token);
            return PageOutcome::Done;
        },
        Some(es) => es,
    };
    let ghost m0 = cache@;
    let ghost all = es.deep_view();
    let n = es.len();
    let mut i: usize = 0;
    while i < n
        invariant
            old(cache).wf(),
            cache.wf(),
            i <= n,
            n == all.len(),
            es.len() == n - i,
            es.deep_view() =~= all.skip(i as int),
            cache@ == spec_apply_items(m0, all.take(i as int)),
        decreases n - i,
    {
        let ghost edeep0 = es.deep_view();
        let ghost esh0 = es@;
        let e = es.remove(0);
        proof {
            assert(e@ == edeep0[0]);
            assert(e@ == all[i as int]);
            assert forall|k: int| 0 <= k < es.deep_view().len()
                implies es.deep_view()[k] == all.skip(i as int + 1)[k] by {
                assert(es@[k] == esh0[k + 1]);
                assert(es.deep_view()[k] == edeep0[k + 1]);
                assert(edeep0[k + 1] == all.skip(i as int)[k + 1]);
                assert(all.skip(i as int)[k + 1] == all[i as int + 1 + k]);
            }
            assert(es.deep_view() =~= all.skip(i as int + 1));
            assert(all.take(i as int + 1).drop_last() =~= all.take(i as int));
            assert(all.take(i as int + 1).last() == all[i as int]);
        }
        match e.bucket_date() {
            None => {},
            Some(_) => {
                if e.status == EventStatus::Cancelled {
                    cache.remove(&e);
                } else {
                    cache.upsert(e);
                }
            },
        }
        i = i + 1;
    }
    proof {
        assert(all.take(n as int) =~= all);
    }
    match next_page_token {
        Some(pt) => {
            proof {
                lemma_apply_items_frame(m0, all);
            }
            let stored = match cache.sync_token(calendar_id) {
                Some(t) => Some(t.clone()),
                None => None,
            };
            PageOutcome::NextPage(
                EventsRequest {
                    calendar_id: calendar_id.clone(),
                    sync_token: stored,
                    page_token: Some(pt),
                    time_zone: time_zone.clone(),
                    single_events: true,
                    max_results: PAGE_SIZE,
                },
            )
        },
        None => {
            store_token(cache, calendar_id, next_sync_token);
            PageOutcome::Done
        },
    }
}

} // verus!
