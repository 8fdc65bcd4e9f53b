//! Events as received from the remote calendar service, reduced to the plain
//! values the engine reads.
//!
//! An event's start and end each carry either an all-day calendar date or a
//! time-zone-aware instant. For an instant, the engine only ever reads the
//! local calendar date it falls on; that date is resolved once, at the
//! boundary where the wire value is converted, and carried here as a plain
//! `Date` beside the original timestamp text.

use vstd::prelude::*;
use crate::date::{Date, spec_date_iso};
use crate::utils::str_eq;

verus! {

/// The confirmation status of an event. `Other` covers both an absent status
/// and any status string the service may add later.
#[derive(Clone, Copy, Debug, PartialEq, Eq, Structural)]
pub enum EventStatus {
    Confirmed,
    Tentative,
    Cancelled,
    Other,
}

/// The status denoted by an optional wire status string: `confirmed`,
/// `tentative` and `cancelled` name their variants, anything else (including
/// no status at all) is `Other`.
pub open spec fn spec_status_of(s: Option<Seq<char>>) -> EventStatus {
    match s {
        None => EventStatus::Other,
        Some(t) => if t == "confirmed"@ {
            EventStatus::Confirmed
        } else if t == "tentative"@ {
            EventStatus::Tentative
        } else if t == "cancelled"@ {
            EventStatus::Cancelled
        } else {
            EventStatus::Other
        },
    }
}

impl EventStatus {
    /// Classifies the status string of a wire event.
    pub fn from_wire(s: Option<&str>) -> (r: EventStatus)
        ensures
            r == spec_status_of(match s {
                Some(t) => Some(t@),
                None => None,
            }),
    {
        match s {
            None => EventStatus::Other,
            Some(t) => {
                if str_eq(t, "confirmed") {
                    EventStatus::Confirmed
                } else if str_eq(t, "tentative") {
                    EventStatus::Tentative
                } else if str_eq(t, "cancelled") {
                    EventStatus::Cancelled
                } else {
                    EventStatus::Other
                }
            },
        }
    }
}

/// A time-zone-aware instant: the timestamp text as received, together with
/// the local calendar date it was resolved to at the boundary.
#[derive(Clone, Debug, PartialEq, Eq)]
pub struct Instant {
    pub timestamp: String,
    pub local_date: Date,
}

/// Mathematical image of an [`Instant`].
pub ghost struct InstantModel {
    pub timestamp: Seq<char>,
    pub local_date: Date,
}

impl View for Instant {
    type V = InstantModel;

    open spec fn view(&self) -> InstantModel {
        InstantModel { timestamp: self.timestamp@, local_date: self.local_date }
    }
}

impl DeepView for Instant {
    type V = InstantModel;

    open spec fn deep_view(&self) -> InstantModel {
        self.view()
    }
}

/// An event boundary: an all-day calendar date, or a time-zone-aware
/// instant. A wire boundary that carries neither is converted to no
/// boundary at all; one that carries both keeps its date, as the service's
/// own clients read it.
#[derive(Clone, Debug, PartialEq, Eq)]
pub enum EventTime {
    AllDay(Date),
    Timed(Instant),
}

/// Mathematical image of an [`EventTime`].
pub ghost enum EventTimeModel {
    AllDay(Date),
    Timed(InstantModel),
}

impl View for EventTime {
    type V = EventTimeModel;

    open spec fn view(&self) -> EventTimeModel {
        match self {
            EventTime::AllDay(d) => EventTimeModel::AllDay(*d),
            EventTime::Timed(i) => EventTimeModel::Timed(i@),
        }
    }
}

impl DeepView for EventTime {
    type V = EventTimeModel;

    open spec fn deep_view(&self) -> EventTimeModel {
        self.view()
    }
}

/// A calendar event, immutable once received. Only the `id` can target it
/// for removal; all other fields are display data the engine carries along.
#[derive(Clone, Debug, PartialEq, Eq)]
pub struct Event {
    pub id: Option<String>,
    pub summary: Option<String>,
    pub status: EventStatus,
    pub color_id: Option<String>,
    pub start: Option<EventTime>,
    pub end: Option<EventTime>,
}

/// Mathematical image of an [`Event`].
pub ghost struct EventModel {
    pub id: Option<Seq<char>>,
    pub summary: Option<Seq<char>>,
    pub status: EventStatus,
    pub color_id: Option<Seq<char>>,
    pub start: Option<EventTimeModel>,
    pub end: Option<EventTimeModel>,
}

impl View for Event {
    type V = EventModel;

    open spec fn view(&self) -> EventModel {
        EventModel {
            id: self.id.deep_view(),
            summary: self.summary.deep_view(),
            status: self.status,
            color_id: self.color_id.deep_view(),
            start: self.start.deep_view(),
            end: self.end.deep_view(),
        }
    }
}

impl DeepView for Event {
    type V = EventModel;

    open spec fn deep_view(&self) -> EventModel {
        self.view()
    }
}

/// The local calendar date a boundary value denotes: an all-day date
/// itself, the local date of a timed instant, and nothing when the boundary
/// is absent.
pub open spec fn spec_time_date(t: Option<EventTimeModel>) -> Option<Date> {
    match t {
        None => None,
        Some(EventTimeModel::AllDay(d)) => Some(d),
        Some(EventTimeModel::Timed(inst)) => Some(inst.local_date),
    }
}

/// The date bucket an event belongs in: the local calendar date of its
/// start. An event whose start carries neither a date nor an instant has no
/// bucket and is never inserted into the cache.
pub open spec fn spec_bucket_date(e: EventModel) -> Option<Date> {
    spec_time_date(e.start)
}

/// The local calendar date an event ends on, if any.
pub open spec fn spec_end_date(e: EventModel) -> Option<Date> {
    spec_time_date(e.end)
}

/// What [`Event::start_display`] shows for a start.
pub open spec fn spec_start_display(e: EventModel) -> Seq<char> {
    match e.start {
        Some(EventTimeModel::Timed(i)) => i.timestamp,
        Some(EventTimeModel::AllDay(d)) => spec_date_iso(d) + " ALL DAY"@,
        None => "No Start Time"@,
    }
}

impl Event {
    /// The date bucket this event belongs in, or `None` when its start
    /// determines no local calendar date.
    pub fn bucket_date(&self) -> (r: Option<Date>)
        ensures
            r == spec_bucket_date(self@),
    {
        Self::time_date(&self.start)
    }

    /// The local calendar date this event ends on, or `None` when its end
    /// determines no local calendar date.
    pub fn end_date(&self) -> (r: Option<Date>)
        ensures
            r == spec_end_date(self@),
    {
        Self::time_date(&self.end)
    }

    /// How the event's start shows itself: a timed start is its timestamp
    /// text as received, an all-day start is its date marked `ALL DAY`, and
    /// an absent start says so.
    pub fn start_display(&self) -> (r: String)
        ensures
            r@ == spec_start_display(self@),
    {
        match &self.start {
            Some(EventTime::Timed(inst)) => inst.timestamp.clone(),
            Some(EventTime::AllDay(d)) => {
                let mut out = d.iso();
                out.append(" ALL DAY");
                out
            },
            None => {
                let r = String::new();
                r.concat("No Start Time")
            },
        }
    }

    fn time_date(t: &Option<EventTime>) -> (r: Option<Date>)
        ensures
            r == spec_time_date(t.deep_view()),
    {
        match t {
            None => None,
            Some(EventTime::AllDay(d)) => Some(*d),
            Some(EventTime::Timed(inst)) => Some(inst.local_date),
        }
    }
}

} // verus!
