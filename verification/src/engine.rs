//! Orchestration of one sync pass across all calendars.
//!
//! A pass fetches the calendar list, syncs each listed calendar in list
//! order — strictly sequentially — fetches the colour palette, and finally
//! persists the cache. All transport is outside this crate: the engine is a
//! step machine that turns each transport result into cache mutations and
//! the next action the driver must take. Any transport failure aborts the
//! pass; mutations already applied stand, and persistence is never asked
//! for in a failed pass, so the persisted file never sees a partial pass.
//!
//! The driver's side: build the engine with [`SyncEngine::new`], fetch the
//! calendar list, then keep feeding results through [`SyncEngine::step`]
//! and performing the returned actions until [`SyncAction::Stop`].

use vstd::prelude::*;
use crate::cache::{Cache, CacheModel, CalendarDescriptor, CalendarDescriptorModel,
    ColorDefinition, ColorPalette};
use crate::kv::assoc_map;
use crate::sync::{EventsRequest, EventsResponse, PageOutcome, apply_page, initial_request,
    spec_apply_page, spec_page_continues, spec_stored_token, PAGE_SIZE};

verus! {

/// Where a pass stands.
#[derive(Clone, Copy, Debug, PartialEq, Eq, Structural)]
pub enum EnginePhase {
    /// Waiting for the calendar list.
    ListingCalendars,
    /// Waiting for a page of the calendar currently being synced.
    SyncingCalendar,
    /// All calendars done; waiting for the colour palette.
    FetchingColors,
    /// Palette stored; waiting for the cache to be persisted.
    Persisting,
    /// The pass committed, persistence included.
    Complete,
    /// A transport failure ended the pass. Mutations already applied stand;
    /// the cache may be ahead of the persisted file until the next pass.
    Failed,
}

/// What the driver hands the engine: the result of the action it performed,
/// or the one failure that ends the pass.
pub enum SyncInput {
    /// The fetched calendar list.
    CalendarList(Vec<CalendarDescriptor>),
    /// One page of events for the calendar being synced.
    Page(EventsResponse),
    /// The fetched colour palette, as listed entries.
    Colors(Vec<(String, ColorDefinition)>),
    /// The cache was written to durable storage.
    Persisted,
    /// The transport failed; the pass aborts here.
    TransportError,
}

/// What the driver must do next.
pub enum SyncAction {
    /// Issue this event-list request and feed back the page.
    FetchPage(EventsRequest),
    /// Fetch the colour palette and feed back its entries.
    FetchColors,
    /// Persist the cache and confirm.
    Persist,
    /// The pass is over: complete or failed.
    Stop,
}

/// The ids of the listed calendars that can be synced — those that carry
/// an id — in list order.
pub open spec fn spec_ids_of(cals: Seq<CalendarDescriptorModel>) -> Seq<Seq<char>>
    decreases cals.len(),
{
    if cals.len() == 0 {
        Seq::empty()
    } else {
        let rest = spec_ids_of(cals.drop_last());
        match cals.last().id {
            Some(s) => rest.push(s),
            None => rest,
        }
    }
}

/// The engine of one sync pass.
pub struct SyncEngine {
    /// Where the pass stands.
    pub phase: EnginePhase,
    /// The time zone every event-list request localises to.
    pub time_zone: String,
    /// The ids of the calendars this pass syncs, in list order.
    pub calendar_ids: Vec<String>,
    /// The position in `calendar_ids` being synced.
    pub current: usize,
}

impl SyncEngine {
    /// The phase's index bookkeeping is sound.
    pub open spec fn wf(&self) -> bool {
        self.phase is SyncingCalendar ==> self.current < self.calendar_ids@.len()
    }

    /// Which input the engine is waiting for. A terminal engine accepts
    /// nothing: a failed pass asks for no further action, persistence
    /// included.
    pub open spec fn spec_accepts(&self, input: SyncInput) -> bool {
        match input {
            SyncInput::CalendarList(_) => self.phase is ListingCalendars,
            SyncInput::Page(_) => self.phase is SyncingCalendar,
            SyncInput::Colors(_) => self.phase is FetchingColors,
            SyncInput::Persisted => self.phase is Persisting,
            SyncInput::TransportError => !(self.phase is Complete) && !(self.phase is Failed),
        }
    }

    /// A fresh engine. The pass begins by fetching the calendar list and
    /// feeding it to [`Self::step`].
    pub fn new(time_zone: String) -> (r: SyncEngine)
        ensures
            r.wf(),
            r.phase is ListingCalendars,
            r.time_zone@ == time_zone@,
    {
        SyncEngine {
            phase: EnginePhase::ListingCalendars,
            time_zone,
            calendar_ids: Vec::new(),
            current: 0,
        }
    }

    /// The id of the calendar being synced.
    pub open spec fn spec_current_id(&self) -> Seq<char> {
        self.calendar_ids@[self.current as int]@
    }

    /// Feeds one transport result into the pass. The cache is mutated as
    /// the result demands and the next action is returned.
    ///
    /// A `TransportError` leaves the cache exactly as it was, fails the
    /// pass, and stops it; since a failed engine accepts no further input,
    /// no `Persist` action can follow a failure within a pass.
    pub fn step(&mut self, cache: &mut Cache, input: SyncInput) -> (r: SyncAction)
        requires
            old(self).wf(),
            old(cache).wf(),
            old(self).spec_accepts(input),
        ensures
            final(self).wf(),
            final(cache).wf(),
            final(self).time_zone@ == old(self).time_zone@,
            // the one failure: nothing moves, the pass is over
            input is TransportError ==> {
                &&& final(self).phase is Failed
                &&& *final(cache) == *old(cache)
                &&& r is Stop
            },
            // persistence is asked for exactly when the palette arrived
            (r is Persist) == (input is Colors),
            // the calendar list is overwritten, never merged, and the pass
            // starts on the first listed calendar that carries an id
            input matches SyncInput::CalendarList(cals) ==> {
                &&& final(cache)@ == (CacheModel { calendars: cals.deep_view(), ..old(cache)@ })
                &&& final(self).calendar_ids.deep_view() == spec_ids_of(cals.deep_view())
                &&& if spec_ids_of(cals.deep_view()).len() == 0 {
                    &&& final(self).phase is FetchingColors
                    &&& r is FetchColors
                } else {
                    &&& final(self).phase is SyncingCalendar
                    &&& final(self).current == 0
                    &&& (r matches SyncAction::FetchPage(req) && {
                        &&& req.calendar_id@ == final(self).spec_current_id()
                        &&& req.sync_token.deep_view() == spec_stored_token(
                            old(cache)@,
                            final(self).spec_current_id(),
                        )
                        &&& req.page_token is None
                        &&& req.time_zone@ == old(self).time_zone@
                        &&& req.single_events == true
                        &&& req.max_results == PAGE_SIZE
                    })
                }
            },
            // a page mutates the cache as sync::apply_page says; the pass
            // then continues on this calendar, moves to the next, or goes
            // on to the colours
            input matches SyncInput::Page(resp) ==> {
                &&& final(cache)@ == spec_apply_page(
                    old(cache)@,
                    old(self).spec_current_id(),
                    resp.items.deep_view(),
                    resp.next_page_token.deep_view(),
                    resp.next_sync_token.deep_view(),
                )
                &&& final(self).calendar_ids == old(self).calendar_ids
                &&& if spec_page_continues(
                    resp.items.deep_view(),
                    resp.next_page_token.deep_view(),
                ) {
                    &&& final(self).phase is SyncingCalendar
                    &&& final(self).current == old(self).current
                    &&& (r matches SyncAction::FetchPage(req) && {
                        &&& req.calendar_id@ == old(self).spec_current_id()
                        &&& req.sync_token.deep_view() == spec_stored_token(
                            old(cache)@,
                            old(self).spec_current_id(),
                        )
                        &&& req.page_token.deep_view() == resp.next_page_token.deep_view()
                        &&& req.time_zone@ == old(self).time_zone@
                        &&& req.single_events == true
                        &&& req.max_results == PAGE_SIZE
                    })
                } else if old(self).current + 1 < old(self).calendar_ids@.len() {
                    &&& final(self).phase is SyncingCalendar
                    &&& final(self).current == old(self).current + 1
                    &&& (r matches SyncAction::FetchPage(req) && {
                        &&& req.calendar_id@ == final(self).spec_current_id()
                        &&& req.sync_token.deep_view() == spec_stored_token(
                            final(cache)@,
                            final(self).spec_current_id(),
                        )
                        &&& req.page_token is None
                        &&& req.time_zone@ == old(self).time_zone@
                        &&& req.single_events == true
                        &&& req.max_results == PAGE_SIZE
                    })
                } else {
                    &&& final(self).phase is FetchingColors
                    &&& r is FetchColors
                }
            },
            // the palette is overwritten as the map the entries denote;
            // then the pass persists
            input matches SyncInput::Colors(entries) ==> {
                &&& final(cache)@ == (CacheModel {
                    colors: assoc_map(entries.deep_view()),
                    ..old(cache)@
                })
                &&& final(self).phase is Persisting
            },
            // confirmation of persistence completes the pass
            input is Persisted ==> {
                &&& final(self).phase is Complete
                &&& *final(cache) == *old(cache)
                &&& r is Stop
            },
    {
        match input {
            SyncInput::TransportError => {
                self.phase = EnginePhase::Failed;
                SyncAction::Stop
            },
            SyncInput::CalendarList(cals) => {
                let ghost all = cals.deep_view();
                let mut ids: Vec<String> = Vec::new();
                let n = cals.len();
                let mut i: usize = 0;
                proof {
                    assert(all.take(0) =~= Seq::<CalendarDescriptorModel>::empty());
                    assert(ids.deep_view() =~= spec_ids_of(all.take(0)));
                }
                while i < n
                    invariant
                        i <= n,
                        n == cals.len(),
                        all == cals.deep_view(),
                        ids.deep_view() == spec_ids_of(all.take(i as int)),
                    decreases n - i,
                {
                    let ghost ids0 = ids.deep_view();
                    match &cals[i].id {
                        Some(s) => {
                            ids.push(s.clone());
                            proof {
                                assert(ids.deep_view() =~= ids0.push(s@));
                            }
                        },
                        None => {},
                    }
                    proof {
                        assert(all.take(i as int + 1).drop_last() =~= all.take(i as int));
                        assert(all.take(i as int + 1).last() == all[i as int]);
                        assert(all[i as int] == cals@[i as int]@);
                    }
                    i = i + 1;
                }
                proof {
                    assert(all.take(n as int) =~= all);
                }
                cache.set_calendars(cals);
                self.calendar_ids = ids;
                self.current = 0;
                if self.calendar_ids.len() == 0 {
                    self.phase = EnginePhase::FetchingColors;
                    SyncAction::FetchColors
                } else {
                    self.phase = EnginePhase::SyncingCalendar;
                    let req = initial_request(cache, &self.calendar_ids[0], &self.time_zone);
                    SyncAction::FetchPage(req)
                }
            },
            SyncInput::Page(resp) => {
                let outcome = apply_page(
                    cache,
                    &self.calendar_ids[self.current],
                    &self.time_zone,
                    resp,
                );
                match outcome {
                    PageOutcome::NextPage(req) => SyncAction::FetchPage(req),
                    PageOutcome::Done => {
                        let ncal = self.calendar_ids.len();
                        if self.current < ncal - 1 {
                            self.current = self.current + 1;
                            let req = initial_request(
                                cache,
                                &self.calendar_ids[self.current],
                                &self.time_zone,
                            );
                            SyncAction::FetchPage(req)
                        } else {
                            self.phase = EnginePhase::FetchingColors;
                            SyncAction::FetchColors
                        }
                    },
                }
            },
            SyncInput::Colors(entries) => {
                let palette = ColorPalette::from_entries(entries);
                cache.set_colors(palette);
                self.phase = EnginePhase::Persisting;
                SyncAction::Persist
            },
            SyncInput::Persisted => {
                self.phase = EnginePhase::Complete;
                SyncAction::Stop
            },
        }
    }
}

} // verus!
