//! The persisted cache file: a structured, human-inspectable text format,
//! with its writer and reader proved inverse.
//!
//! The file is the cache's four parts in order — sync tokens, date buckets,
//! calendars, colours. Every number is a fixed-width numeral (see
//! [`crate::num`]), every string is its length followed by its characters,
//! every list is its length followed by its items, and every optional or
//! variant value starts with a one-digit tag. Nothing needs escaping, so
//! reading is a single forward pass, and the round trip is exact: see
//! [`lemma_cache_round_trip`].

use vstd::prelude::*;
use crate::cache::{Cache, CacheRep, CalendarDescriptor, CalendarDescriptorModel, ColorDefinition,
    ColorDefinitionModel, ColorPalette, rep_wf};
use crate::date::Date;
use crate::kv::distinct_keys;
use crate::event::{EventModel, EventStatus, EventTimeModel, InstantModel, spec_bucket_date};
use crate::num::{spec_ser_u64, spec_sp_u64, spec_digit_char, spec_digit_val, spec_is_digit,
    lemma_u64_round_trip, push_digit, render_u64, parse_u64, digit_val, DEC_WIDTH};
use crate::event::{Event, EventTime, Instant};

verus! {

broadcast use crate::num::lemma_ser_u64_len;

// ---------------------------------------------------------------------
// What fits the format: every string and list no longer than a `u64` can
// count. Values held in real vectors and strings always satisfy this.
// ---------------------------------------------------------------------

pub open spec fn str_ok(t: Seq<char>) -> bool {
    t.len() <= u64::MAX
}

pub open spec fn opt_str_ok(o: Option<Seq<char>>) -> bool {
    match o {
        Some(t) => str_ok(t),
        None => true,
    }
}

pub open spec fn time_ok(t: Option<EventTimeModel>) -> bool {
    match t {
        Some(EventTimeModel::Timed(i)) => str_ok(i.timestamp),
        _ => true,
    }
}

pub open spec fn event_ok(e: EventModel) -> bool {
    &&& opt_str_ok(e.id)
    &&& opt_str_ok(e.summary)
    &&& opt_str_ok(e.color_id)
    &&& time_ok(e.start)
    &&& time_ok(e.end)
}

pub open spec fn rep_ok(r: CacheRep) -> bool {
    &&& r.tokens.len() <= u64::MAX
    &&& forall|i: int| 0 <= i < r.tokens.len()
        ==> str_ok((#[trigger] r.tokens[i]).0) && str_ok(r.tokens[i].1)
    &&& r.buckets.len() <= u64::MAX
    &&& forall|i: int| 0 <= i < r.buckets.len() ==> (#[trigger] r.buckets[i]).1.len() <= u64::MAX
    &&& forall|i: int, j: int|
        0 <= i < r.buckets.len() && 0 <= j < r.buckets[i].1.len()
            ==> event_ok(#[trigger] r.buckets[i].1[j])
    &&& r.calendars.len() <= u64::MAX
    &&& forall|i: int| 0 <= i < r.calendars.len()
        ==> opt_str_ok((#[trigger] r.calendars[i]).id) && opt_str_ok(r.calendars[i].summary)
    &&& r.colors.len() <= u64::MAX
    &&& forall|i: int| 0 <= i < r.colors.len()
        ==> str_ok((#[trigger] r.colors[i]).0) && opt_str_ok(r.colors[i].1.foreground)
            && opt_str_ok(r.colors[i].1.background)
}

// ---------------------------------------------------------------------
// Writing
// ---------------------------------------------------------------------

/// A one-digit tag.
pub open spec fn ser_tag(d: nat) -> Seq<char> {
    seq![spec_digit_char(d)]
}

/// A string: its character count, then its characters.
pub open spec fn ser_str(t: Seq<char>) -> Seq<char> {
    spec_ser_u64(t.len()) + t
}

/// An optional string: tag `0`, or tag `1` and the string.
pub open spec fn ser_opt_str(o: Option<Seq<char>>) -> Seq<char> {
    match o {
        None => ser_tag(0),
        Some(t) => ser_tag(1) + ser_str(t),
    }
}

/// A date: year, month, day.
pub open spec fn ser_date(d: Date) -> Seq<char> {
    spec_ser_u64(d.year as nat) + spec_ser_u64(d.month as nat) + spec_ser_u64(d.day as nat)
}

/// A status, as a tag.
pub open spec fn ser_status(st: EventStatus) -> Seq<char> {
    match st {
        EventStatus::Confirmed => ser_tag(0),
        EventStatus::Tentative => ser_tag(1),
        EventStatus::Cancelled => ser_tag(2),
        EventStatus::Other => ser_tag(3),
    }
}

/// An instant: its timestamp text, then its local date.
pub open spec fn ser_instant(m: InstantModel) -> Seq<char> {
    ser_str(m.timestamp) + ser_date(m.local_date)
}

/// An optional event boundary: tag `0` for none, tag `1` and a date for an
/// all-day boundary, tag `2` and an instant for a timed one.
pub open spec fn ser_time(t: Option<EventTimeModel>) -> Seq<char> {
    match t {
        None => ser_tag(0),
        Some(EventTimeModel::AllDay(d)) => ser_tag(1) + ser_date(d),
        Some(EventTimeModel::Timed(i)) => ser_tag(2) + ser_instant(i),
    }
}

/// An event's leading fields: id, summary, status.
pub open spec fn ser_event_head(e: EventModel) -> Seq<char> {
    ser_opt_str(e.id) + ser_opt_str(e.summary) + ser_status(e.status)
}

/// An event's trailing fields: colour id, start, end.
pub open spec fn ser_event_tail(e: EventModel) -> Seq<char> {
    ser_opt_str(e.color_id) + ser_time(e.start) + ser_time(e.end)
}

/// An event: id, summary, status, colour id, start, end.
pub open spec fn ser_event(e: EventModel) -> Seq<char> {
    ser_event_head(e) + ser_event_tail(e)
}

/// A token-store entry: calendar id, then token.
pub open spec fn ser_token(p: (Seq<char>, Seq<char>)) -> Seq<char> {
    ser_str(p.0) + ser_str(p.1)
}

/// A calendar descriptor: id, then summary.
pub open spec fn ser_cal(c: CalendarDescriptorModel) -> Seq<char> {
    ser_opt_str(c.id) + ser_opt_str(c.summary)
}

/// A palette entry: colour id, then foreground, then background.
pub open spec fn ser_color(p: (Seq<char>, ColorDefinitionModel)) -> Seq<char> {
    ser_str(p.0) + ser_opt_str(p.1.foreground) + ser_opt_str(p.1.background)
}

/// List items, one after the other.
pub open spec fn ser_items<T>(es: Seq<T>, f: spec_fn(T) -> Seq<char>) -> Seq<char>
    decreases es.len(),
{
    if es.len() == 0 {
        Seq::empty()
    } else {
        f(es.first()) + ser_items(es.drop_first(), f)
    }
}

/// A list: its item count, then its items.
pub open spec fn ser_list<T>(es: Seq<T>, f: spec_fn(T) -> Seq<char>) -> Seq<char> {
    spec_ser_u64(es.len()) + ser_items(es, f)
}

/// A date bucket: its date, then its events as a list.
pub open spec fn ser_bucket(p: (Date, Seq<EventModel>)) -> Seq<char> {
    ser_date(p.0) + ser_list(p.1, |e: EventModel| ser_event(e))
}

/// The whole cache: tokens, buckets, calendars, colours.
pub open spec fn ser_cache(r: CacheRep) -> Seq<char> {
    ser_list(r.tokens, |p: (Seq<char>, Seq<char>)| ser_token(p))
        + ser_list(r.buckets, |p: (Date, Seq<EventModel>)| ser_bucket(p))
        + ser_list(r.calendars, |c: CalendarDescriptorModel| ser_cal(c))
        + ser_list(r.colors, |p: (Seq<char>, ColorDefinitionModel)| ser_color(p))
}

// ---------------------------------------------------------------------
// Reading. Every reader takes the text from its position on and yields
// the value read and the count of characters consumed, or nothing when
// the text does not hold one.
// ---------------------------------------------------------------------

pub open spec fn sp_tag(s: Seq<char>) -> Option<(nat, int)> {
    if s.len() >= 1 && spec_is_digit(s[0]) {
        Some((spec_digit_val(s[0]), 1))
    } else {
        None
    }
}

pub open spec fn sp_str(s: Seq<char>) -> Option<(Seq<char>, int)> {
    match spec_sp_u64(s) {
        None => None,
        Some((v, c)) => if c + v <= s.len() {
            Some((s.subrange(c, c + v), c + v))
        } else {
            None
        },
    }
}

pub open spec fn sp_opt_str(s: Seq<char>) -> Option<(Option<Seq<char>>, int)> {
    match sp_tag(s) {
        None => None,
        Some((d, c)) => if d == 0 {
            Some((None, c))
        } else if d == 1 {
            match sp_str(s.skip(c)) {
                None => None,
                Some((t, c2)) => Some((Some(t), c + c2)),
            }
        } else {
            None
        },
    }
}

pub open spec fn sp_date(s: Seq<char>) -> Option<(Date, int)> {
    match spec_sp_u64(s) {
        None => None,
        Some((y, c1)) => if y > u32::MAX {
            None
        } else {
            match spec_sp_u64(s.skip(c1)) {
                None => None,
                Some((mo, c2)) => if mo > u32::MAX {
                    None
                } else {
                    match spec_sp_u64(s.skip(c1 + c2)) {
                        None => None,
                        Some((d, c3)) => if d > u32::MAX {
                            None
                        } else {
                            Some(
                                (
                                    Date { year: y as u32, month: mo as u32, day: d as u32 },
                                    c1 + c2 + c3,
                                ),
                            )
                        },
                    }
                },
            }
        },
    }
}

pub open spec fn sp_status(s: Seq<char>) -> Option<(EventStatus, int)> {
    match sp_tag(s) {
        None => None,
        Some((d, c)) => if d == 0 {
            Some((EventStatus::Confirmed, c))
        } else if d == 1 {
            Some((EventStatus::Tentative, c))
        } else if d == 2 {
            Some((EventStatus::Cancelled, c))
        } else if d == 3 {
            Some((EventStatus::Other, c))
        } else {
            None
        },
    }
}

pub open spec fn sp_instant(s: Seq<char>) -> Option<(InstantModel, int)> {
    match sp_str(s) {
        None => None,
        Some((t, c1)) => match sp_date(s.skip(c1)) {
            None => None,
            Some((d, c2)) => Some((InstantModel { timestamp: t, local_date: d }, c1 + c2)),
        },
    }
}

pub open spec fn sp_time(s: Seq<char>) -> Option<(Option<EventTimeModel>, int)> {
    match sp_tag(s) {
        None => None,
        Some((tag, c)) => if tag == 0 {
            Some((None, c))
        } else if tag == 1 {
            match sp_date(s.skip(c)) {
                None => None,
                Some((d, c2)) => Some((Some(EventTimeModel::AllDay(d)), c + c2)),
            }
        } else if tag == 2 {
            match sp_instant(s.skip(c)) {
                None => None,
                Some((i, c2)) => Some((Some(EventTimeModel::Timed(i)), c + c2)),
            }
        } else {
            None
        },
    }
}

pub open spec fn sp_event_head(s: Seq<char>) -> Option<
    ((Option<Seq<char>>, Option<Seq<char>>, EventStatus), int),
> {
    match sp_opt_str(s) {
        None => None,
        Some((id, c1)) => match sp_opt_str(s.skip(c1)) {
            None => None,
            Some((summary, c2)) => match sp_status(s.skip(c1 + c2)) {
                None => None,
                Some((status, c3)) => Some(((id, summary, status), c1 + c2 + c3)),
            },
        },
    }
}

pub open spec fn sp_event_tail(s: Seq<char>) -> Option<
    ((Option<Seq<char>>, Option<EventTimeModel>, Option<EventTimeModel>), int),
> {
    match sp_opt_str(s) {
        None => None,
        Some((color_id, c1)) => match sp_time(s.skip(c1)) {
            None => None,
            Some((start, c2)) => match sp_time(s.skip(c1 + c2)) {
                None => None,
                Some((end, c3)) => Some(((color_id, start, end), c1 + c2 + c3)),
            },
        },
    }
}

pub open spec fn sp_event(s: Seq<char>) -> Option<(EventModel, int)> {
    match sp_event_head(s) {
        None => None,
        Some(((id, summary, status), c1)) => match sp_event_tail(s.skip(c1)) {
            None => None,
            Some(((color_id, start, end), c2)) => Some(
                (EventModel { id, summary, status, color_id, start, end }, c1 + c2),
            ),
        },
    }
}

pub open spec fn sp_token(s: Seq<char>) -> Option<((Seq<char>, Seq<char>), int)> {
    match sp_str(s) {
        None => None,
        Some((k, c1)) => match sp_str(s.skip(c1)) {
            None => None,
            Some((v, c2)) => Some(((k, v), c1 + c2)),
        },
    }
}

pub open spec fn sp_cal(s: Seq<char>) -> Option<(CalendarDescriptorModel, int)> {
    match sp_opt_str(s) {
        None => None,
        Some((id, c1)) => match sp_opt_str(s.skip(c1)) {
            None => None,
            Some((summary, c2)) => Some((CalendarDescriptorModel { id, summary }, c1 + c2)),
        },
    }
}

pub open spec fn sp_color(s: Seq<char>) -> Option<((Seq<char>, ColorDefinitionModel), int)> {
    match sp_str(s) {
        None => None,
        Some((k, c1)) => match sp_opt_str(s.skip(c1)) {
            None => None,
            Some((fg, c2)) => match sp_opt_str(s.skip(c1 + c2)) {
                None => None,
                Some((bg, c3)) => Some(
                    ((k, ColorDefinitionModel { foreground: fg, background: bg }), c1 + c2 + c3),
                ),
            },
        },
    }
}

/// `count` items, one after the other.
pub open spec fn sp_items<T>(
    s: Seq<char>,
    pf: spec_fn(Seq<char>) -> Option<(T, int)>,
    count: nat,
) -> Option<(Seq<T>, int)>
    decreases count,
{
    if count == 0 {
        Some((Seq::empty(), 0))
    } else {
        match pf(s) {
            None => None,
            Some((v, c)) => match sp_items(s.skip(c), pf, (count - 1) as nat) {
                None => None,
                Some((vs, c2)) => Some((seq![v] + vs, c + c2)),
            },
        }
    }
}

/// A list: its item count, then that many items.
pub open spec fn sp_list<T>(s: Seq<char>, pf: spec_fn(Seq<char>) -> Option<(T, int)>) -> Option<
    (Seq<T>, int),
> {
    match spec_sp_u64(s) {
        None => None,
        Some((count, c)) => match sp_items(s.skip(c), pf, count) {
            None => None,
            Some((vs, c2)) => Some((vs, c + c2)),
        },
    }
}

/// The whole cache, in the writer's order.
pub open spec fn sp_cache(s: Seq<char>) -> Option<(CacheRep, int)> {
    match sp_list(s, |t: Seq<char>| sp_token(t)) {
        None => None,
        Some((tokens, c1)) => match sp_list(s.skip(c1), |t: Seq<char>| sp_bucket(t)) {
            None => None,
            Some((buckets, c2)) => match sp_list(s.skip(c1 + c2), |t: Seq<char>| sp_cal(t)) {
                None => None,
                Some((calendars, c3)) => match sp_list(
                    s.skip(c1 + c2 + c3),
                    |t: Seq<char>| sp_color(t),
                ) {
                    None => None,
                    Some((colors, c4)) => Some(
                        (CacheRep { tokens, buckets, calendars, colors }, c1 + c2 + c3 + c4),
                    ),
                },
            },
        },
    }
}

/// A date bucket: its date, then its events.
pub open spec fn sp_bucket(s: Seq<char>) -> Option<((Date, Seq<EventModel>), int)> {
    match sp_date(s) {
        None => None,
        Some((d, c1)) => match sp_list(s.skip(c1), |t: Seq<char>| sp_event(t)) {
            None => None,
            Some((es, c2)) => Some(((d, es), c1 + c2)),
        },
    }
}

// ---------------------------------------------------------------------
// The round trip: whatever the writer puts down, the reader takes back
// up unchanged, whatever text follows it.
// ---------------------------------------------------------------------

pub proof fn lemma_tag_round_trip(d: nat, rest: Seq<char>)
    requires
        d < 10,
    ensures
        sp_tag(ser_tag(d) + rest) == Some((d, 1int)),
{
    let s = ser_tag(d) + rest;
    assert(s[0] == spec_digit_char(d));
    assert(spec_digit_val(spec_digit_char(d)) == d);
}

pub proof fn lemma_str_round_trip(t: Seq<char>, rest: Seq<char>)
    requires
        str_ok(t),
    ensures
        sp_str(ser_str(t) + rest) == Some((t, ser_str(t).len() as int)),
{
    let s = ser_str(t) + rest;
    assert(s =~= spec_ser_u64(t.len()) + (t + rest));
    lemma_u64_round_trip(t.len(), t + rest);
    assert(s.subrange(DEC_WIDTH as int, DEC_WIDTH + t.len()) =~= t);
}

pub proof fn lemma_opt_str_round_trip(o: Option<Seq<char>>, rest: Seq<char>)
    requires
        opt_str_ok(o),
    ensures
        sp_opt_str(ser_opt_str(o) + rest) == Some((o, ser_opt_str(o).len() as int)),
{
    match o {
        None => {
            lemma_tag_round_trip(0, rest);
        },
        Some(t) => {
            let s = ser_opt_str(o) + rest;
            assert(s =~= ser_tag(1) + (ser_str(t) + rest));
            lemma_tag_round_trip(1, ser_str(t) + rest);
            assert(s.skip(1) =~= ser_str(t) + rest);
            lemma_str_round_trip(t, rest);
        },
    }
}

pub proof fn lemma_date_round_trip(d: Date, rest: Seq<char>)
    ensures
        sp_date(ser_date(d) + rest) == Some((d, ser_date(d).len() as int)),
{
    let s = ser_date(d) + rest;
    let tail1 = spec_ser_u64(d.month as nat) + (spec_ser_u64(d.day as nat) + rest);
    let tail2 = spec_ser_u64(d.day as nat) + rest;
    assert(s =~= spec_ser_u64(d.year as nat) + tail1);
    lemma_u64_round_trip(d.year as nat, tail1);
    assert(s.skip(DEC_WIDTH as int) =~= tail1);
    lemma_u64_round_trip(d.month as nat, tail2);
    assert(tail1.skip(DEC_WIDTH as int) =~= tail2);
    lemma_u64_round_trip(d.day as nat, rest);
    assert(s.skip(2 * DEC_WIDTH) =~= tail2);
}

pub proof fn lemma_status_round_trip(st: EventStatus, rest: Seq<char>)
    ensures
        sp_status(ser_status(st) + rest) == Some((st, 1int)),
{
    match st {
        EventStatus::Confirmed => lemma_tag_round_trip(0, rest),
        EventStatus::Tentative => lemma_tag_round_trip(1, rest),
        EventStatus::Cancelled => lemma_tag_round_trip(2, rest),
        EventStatus::Other => lemma_tag_round_trip(3, rest),
    }
}

pub proof fn lemma_instant_round_trip(m: InstantModel, rest: Seq<char>)
    requires
        str_ok(m.timestamp),
    ensures
        sp_instant(ser_instant(m) + rest) == Some((m, ser_instant(m).len() as int)),
{
    let s = ser_instant(m) + rest;
    let tail = ser_date(m.local_date) + rest;
    assert(s =~= ser_str(m.timestamp) + tail);
    lemma_str_round_trip(m.timestamp, tail);
    assert(s.skip(ser_str(m.timestamp).len() as int) =~= tail);
    lemma_date_round_trip(m.local_date, rest);
}

pub proof fn lemma_time_round_trip(t: Option<EventTimeModel>, rest: Seq<char>)
    requires
        time_ok(t),
    ensures
        sp_time(ser_time(t) + rest) == Some((t, ser_time(t).len() as int)),
{
    match t {
        None => {
            lemma_tag_round_trip(0, rest);
        },
        Some(EventTimeModel::AllDay(d)) => {
            let s = ser_time(t) + rest;
            assert(s =~= ser_tag(1) + (ser_date(d) + rest));
            lemma_tag_round_trip(1, ser_date(d) + rest);
            assert(s.skip(1) =~= ser_date(d) + rest);
            lemma_date_round_trip(d, rest);
        },
        Some(EventTimeModel::Timed(i)) => {
            let s = ser_time(t) + rest;
            assert(s =~= ser_tag(2) + (ser_instant(i) + rest));
            lemma_tag_round_trip(2, ser_instant(i) + rest);
            assert(s.skip(1) =~= ser_instant(i) + rest);
            lemma_instant_round_trip(i, rest);
        },
    }
}

/// Concatenation reads past its first part.
pub proof fn lemma_skip_concat<A>(a: Seq<A>, b: Seq<A>)
    ensures
        (a + b).skip(a.len() as int) == b,
{
    assert((a + b).skip(a.len() as int) =~= b);
}

/// Concatenation associates.
pub proof fn lemma_add_assoc<A>(a: Seq<A>, b: Seq<A>, c: Seq<A>)
    ensures
        (a + b) + c == a + (b + c),
{
    assert((a + b) + c =~= a + (b + c));
}

pub proof fn lemma_event_head_round_trip(e: EventModel, rest: Seq<char>)
    requires
        event_ok(e),
    ensures
        sp_event_head(ser_event_head(e) + rest) == Some(
            ((e.id, e.summary, e.status), ser_event_head(e).len() as int),
        ),
{
    let p1 = ser_opt_str(e.id);
    let p2 = ser_opt_str(e.summary);
    let p3 = ser_status(e.status);
    let s = ser_event_head(e) + rest;
    let t2 = p3 + rest;
    let t1 = p2 + t2;
    lemma_add_assoc(p1 + p2, p3, rest);
    lemma_add_assoc(p1, p2, t2);
    assert(s == p1 + t1);
    lemma_opt_str_round_trip(e.id, t1);
    lemma_skip_concat(p1, t1);
    lemma_opt_str_round_trip(e.summary, t2);
    lemma_skip_concat(p2, t2);
    lemma_status_round_trip(e.status, rest);
    lemma_skip_concat(p3, rest);
    let c1 = p1.len() as int;
    let c2 = p2.len() as int;
    assert(s.skip(c1) == t1);
    vstd::seq_lib::lemma_seq_skip_of_skip(s, c1, c2);
    assert(s.skip(c1 + c2) == t2);
}

pub proof fn lemma_event_tail_round_trip(e: EventModel, rest: Seq<char>)
    requires
        event_ok(e),
    ensures
        sp_event_tail(ser_event_tail(e) + rest) == Some(
            ((e.color_id, e.start, e.end), ser_event_tail(e).len() as int),
        ),
{
    let p1 = ser_opt_str(e.color_id);
    let p2 = ser_time(e.start);
    let p3 = ser_time(e.end);
    let s = ser_event_tail(e) + rest;
    let t2 = p3 + rest;
    let t1 = p2 + t2;
    lemma_add_assoc(p1 + p2, p3, rest);
    lemma_add_assoc(p1, p2, t2);
    assert(s == p1 + t1);
    lemma_opt_str_round_trip(e.color_id, t1);
    lemma_skip_concat(p1, t1);
    lemma_time_round_trip(e.start, t2);
    lemma_skip_concat(p2, t2);
    lemma_time_round_trip(e.end, rest);
    lemma_skip_concat(p3, rest);
    let c1 = p1.len() as int;
    let c2 = p2.len() as int;
    assert(s.skip(c1) == t1);
    vstd::seq_lib::lemma_seq_skip_of_skip(s, c1, c2);
    assert(s.skip(c1 + c2) == t2);
}

pub proof fn lemma_event_round_trip(e: EventModel, rest: Seq<char>)
    requires
        event_ok(e),
    ensures
        sp_event(ser_event(e) + rest) == Some((e, ser_event(e).len() as int)),
{
    let hd = ser_event_head(e);
    let tl = ser_event_tail(e);
    let s = ser_event(e) + rest;
    lemma_add_assoc(hd, tl, rest);
    assert(s == hd + (tl + rest));
    lemma_event_head_round_trip(e, tl + rest);
    lemma_skip_concat(hd, tl + rest);
    assert(s.skip(hd.len() as int) == tl + rest);
    lemma_event_tail_round_trip(e, rest);
    assert(EventModel {
        id: e.id,
        summary: e.summary,
        status: e.status,
        color_id: e.color_id,
        start: e.start,
        end: e.end,
    } == e);
}

pub proof fn lemma_token_round_trip(p: (Seq<char>, Seq<char>), rest: Seq<char>)
    requires
        str_ok(p.0),
        str_ok(p.1),
    ensures
        sp_token(ser_token(p) + rest) == Some((p, ser_token(p).len() as int)),
{
    let s = ser_token(p) + rest;
    let tail = ser_str(p.1) + rest;
    assert(s =~= ser_str(p.0) + tail);
    lemma_str_round_trip(p.0, tail);
    assert(s.skip(ser_str(p.0).len() as int) =~= tail);
    lemma_str_round_trip(p.1, rest);
}

pub proof fn lemma_cal_round_trip(c: CalendarDescriptorModel, rest: Seq<char>)
    requires
        opt_str_ok(c.id),
        opt_str_ok(c.summary),
    ensures
        sp_cal(ser_cal(c) + rest) == Some((c, ser_cal(c).len() as int)),
{
    let s = ser_cal(c) + rest;
    let tail = ser_opt_str(c.summary) + rest;
    assert(s =~= ser_opt_str(c.id) + tail);
    lemma_opt_str_round_trip(c.id, tail);
    assert(s.skip(ser_opt_str(c.id).len() as int) =~= tail);
    lemma_opt_str_round_trip(c.summary, rest);
}

pub proof fn lemma_color_round_trip(p: (Seq<char>, ColorDefinitionModel), rest: Seq<char>)
    requires
        str_ok(p.0),
        opt_str_ok(p.1.foreground),
        opt_str_ok(p.1.background),
    ensures
        sp_color(ser_color(p) + rest) == Some((p, ser_color(p).len() as int)),
{
    let s = ser_color(p) + rest;
    let tail2 = ser_opt_str(p.1.background) + rest;
    let tail1 = ser_opt_str(p.1.foreground) + tail2;
    assert(s =~= ser_str(p.0) + tail1);
    lemma_str_round_trip(p.0, tail1);
    assert(s.skip(ser_str(p.0).len() as int) =~= tail1);
    lemma_opt_str_round_trip(p.1.foreground, tail2);
    assert(tail1.skip(ser_opt_str(p.1.foreground).len() as int) =~= tail2);
    lemma_opt_str_round_trip(p.1.background, rest);
    assert(s.skip((ser_str(p.0).len() + ser_opt_str(p.1.foreground).len()) as int) =~= tail2);
}

/// Items written one after the other read back as themselves.
pub proof fn lemma_items_round_trip<T>(
    es: Seq<T>,
    rest: Seq<char>,
    f: spec_fn(T) -> Seq<char>,
    pf: spec_fn(Seq<char>) -> Option<(T, int)>,
)
    requires
        forall|i: int, r2: Seq<char>| 0 <= i < es.len()
            ==> #[trigger] pf(f(es[i]) + r2) == Some((es[i], f(es[i]).len() as int)),
    ensures
        sp_items(ser_items(es, f) + rest, pf, es.len()) == Some(
            (es, ser_items(es, f).len() as int),
        ),
    decreases es.len(),
{
    if es.len() == 0 {
        assert(ser_items(es, f) + rest =~= rest);
        assert(es =~= Seq::<T>::empty());
    } else {
        let head = es.first();
        let tail = es.drop_first();
        let s = ser_items(es, f) + rest;
        assert(head == es[0]);
        assert(s =~= f(es[0]) + (ser_items(tail, f) + rest));
        assert(pf(f(es[0]) + (ser_items(tail, f) + rest)) == Some(
            (es[0], f(es[0]).len() as int),
        ));
        assert(s.skip(f(head).len() as int) =~= ser_items(tail, f) + rest);
        assert forall|i: int, r2: Seq<char>| 0 <= i < tail.len()
            implies #[trigger] pf(f(tail[i]) + r2) == Some((tail[i], f(tail[i]).len() as int)) by {
            assert(tail[i] == es[i + 1]);
            assert(pf(f(es[i + 1]) + r2) == Some((es[i + 1], f(es[i + 1]).len() as int)));
        }
        lemma_items_round_trip(tail, rest, f, pf);
        assert(seq![head] + tail =~= es);
    }
}

/// A written list reads back as itself.
pub proof fn lemma_list_round_trip<T>(
    es: Seq<T>,
    rest: Seq<char>,
    f: spec_fn(T) -> Seq<char>,
    pf: spec_fn(Seq<char>) -> Option<(T, int)>,
)
    requires
        es.len() <= u64::MAX,
        forall|i: int, r2: Seq<char>| 0 <= i < es.len()
            ==> #[trigger] pf(f(es[i]) + r2) == Some((es[i], f(es[i]).len() as int)),
    ensures
        sp_list(ser_list(es, f) + rest, pf) == Some((es, ser_list(es, f).len() as int)),
{
    let s = ser_list(es, f) + rest;
    assert(s =~= spec_ser_u64(es.len()) + (ser_items(es, f) + rest));
    lemma_u64_round_trip(es.len(), ser_items(es, f) + rest);
    assert(s.skip(DEC_WIDTH as int) =~= ser_items(es, f) + rest);
    lemma_items_round_trip(es, rest, f, pf);
}

pub proof fn lemma_bucket_round_trip(p: (Date, Seq<EventModel>), rest: Seq<char>)
    requires
        p.1.len() <= u64::MAX,
        forall|j: int| 0 <= j < p.1.len() ==> event_ok(#[trigger] p.1[j]),
    ensures
        sp_bucket(ser_bucket(p) + rest) == Some((p, ser_bucket(p).len() as int)),
{
    let s = ser_bucket(p) + rest;
    let f = |e: EventModel| ser_event(e);
    let pf = |t: Seq<char>| sp_event(t);
    let tail = ser_list(p.1, f) + rest;
    assert(s =~= ser_date(p.0) + tail);
    lemma_date_round_trip(p.0, tail);
    assert(s.skip(ser_date(p.0).len() as int) =~= tail);
    assert forall|i: int, r2: Seq<char>| 0 <= i < p.1.len()
        implies #[trigger] pf(f(p.1[i]) + r2) == Some((p.1[i], f(p.1[i]).len() as int)) by {
        lemma_event_round_trip(p.1[i], r2);
    }
    lemma_list_round_trip(p.1, rest, f, pf);
}

/// Law: the persisted form is exact. A cache layout written by the format
/// and read back yields the very same layout, consuming the whole text.
pub proof fn lemma_cache_round_trip(r: CacheRep)
    requires
        rep_ok(r),
    ensures
        sp_cache(ser_cache(r)) == Some((r, ser_cache(r).len() as int)),
{
    let ftok = |p: (Seq<char>, Seq<char>)| ser_token(p);
    let ptok = |t: Seq<char>| sp_token(t);
    let fbuk = |p: (Date, Seq<EventModel>)| ser_bucket(p);
    let pbuk = |t: Seq<char>| sp_bucket(t);
    let fcal = |c: CalendarDescriptorModel| ser_cal(c);
    let pcal = |t: Seq<char>| sp_cal(t);
    let fcol = |p: (Seq<char>, ColorDefinitionModel)| ser_color(p);
    let pcol = |t: Seq<char>| sp_color(t);
    let s = ser_cache(r);
    let l1 = ser_list(r.tokens, ftok);
    let l2 = ser_list(r.buckets, fbuk);
    let l3 = ser_list(r.calendars, fcal);
    let l4 = ser_list(r.colors, fcol);
    let t3 = l4 + Seq::<char>::empty();
    let t2 = l3 + t3;
    let t1 = l2 + t2;
    assert(s + Seq::<char>::empty() =~= s);
    assert(s =~= l1 + t1);
    assert forall|i: int, r2: Seq<char>| 0 <= i < r.tokens.len()
        implies #[trigger] ptok(ftok(r.tokens[i]) + r2) == Some(
            (r.tokens[i], ftok(r.tokens[i]).len() as int),
        ) by {
        lemma_token_round_trip(r.tokens[i], r2);
    }
    lemma_list_round_trip(r.tokens, t1, ftok, ptok);
    assert(s.skip(l1.len() as int) =~= t1);
    assert forall|i: int, r2: Seq<char>| 0 <= i < r.buckets.len()
        implies #[trigger] pbuk(fbuk(r.buckets[i]) + r2) == Some(
            (r.buckets[i], fbuk(r.buckets[i]).len() as int),
        ) by {
        lemma_bucket_round_trip(r.buckets[i], r2);
    }
    lemma_list_round_trip(r.buckets, t2, fbuk, pbuk);
    assert(t1.skip(l2.len() as int) =~= t2);
    assert forall|i: int, r2: Seq<char>| 0 <= i < r.calendars.len()
        implies #[trigger] pcal(fcal(r.calendars[i]) + r2) == Some(
            (r.calendars[i], fcal(r.calendars[i]).len() as int),
        ) by {
        lemma_cal_round_trip(r.calendars[i], r2);
    }
    lemma_list_round_trip(r.calendars, t3, fcal, pcal);
    assert(t2.skip(l3.len() as int) =~= t3);
    assert forall|i: int, r2: Seq<char>| 0 <= i < r.colors.len()
        implies #[trigger] pcol(fcol(r.colors[i]) + r2) == Some(
            (r.colors[i], fcol(r.colors[i]).len() as int),
        ) by {
        lemma_color_round_trip(r.colors[i], r2);
    }
    lemma_list_round_trip(r.colors, Seq::<char>::empty(), fcol, pcol);
    assert(t3 =~= l4 + Seq::<char>::empty());
    assert(s.skip((l1.len() + l2.len()) as int) =~= t2);
    assert(s.skip((l1.len() + l2.len() + l3.len()) as int) =~= t3);
    assert(CacheRep { tokens: r.tokens, buckets: r.buckets, calendars: r.calendars, colors: r.colors } =~= r);
}

// ---------------------------------------------------------------------
// The writer
// ---------------------------------------------------------------------

fn render_tag(out: &mut String, d: u64)
    requires
        d < 10,
    ensures
        final(out)@ == old(out)@ + ser_tag(d as nat),
{
    push_digit(out, d);
}

fn render_str(out: &mut String, t: &String)
    ensures
        final(out)@ == old(out)@ + ser_str(t@),
        str_ok(t@),
{
    let l = t.as_str().unicode_len();
    render_u64(out, l as u64);
    out.append(t.as_str());
    proof {
        lemma_add_assoc(old(out)@, spec_ser_u64(t@.len()), t@);
    }
}

fn render_opt_str(out: &mut String, o: &Option<String>)
    ensures
        final(out)@ == old(out)@ + ser_opt_str(o.deep_view()),
        opt_str_ok(o.deep_view()),
{
    match o {
        None => {
            render_tag(out, 0);
        },
        Some(t) => {
            render_tag(out, 1);
            render_str(out, t);
            proof {
                lemma_add_assoc(old(out)@, ser_tag(1), ser_str(t@));
            }
        },
    }
}

fn render_date(out: &mut String, d: Date)
    ensures
        final(out)@ == old(out)@ + ser_date(d),
{
    render_u64(out, d.year as u64);
    render_u64(out, d.month as u64);
    render_u64(out, d.day as u64);
    proof {
        lemma_add_assoc(old(out)@, spec_ser_u64(d.year as nat), spec_ser_u64(d.month as nat));
        lemma_add_assoc(
            old(out)@,
            spec_ser_u64(d.year as nat) + spec_ser_u64(d.month as nat),
            spec_ser_u64(d.day as nat),
        );
    }
}

fn render_status(out: &mut String, st: EventStatus)
    ensures
        final(out)@ == old(out)@ + ser_status(st),
{
    match st {
        EventStatus::Confirmed => render_tag(out, 0),
        EventStatus::Tentative => render_tag(out, 1),
        EventStatus::Cancelled => render_tag(out, 2),
        EventStatus::Other => render_tag(out, 3),
    }
}

fn render_time(out: &mut String, t: &Option<EventTime>)
    ensures
        final(out)@ == old(out)@ + ser_time(t.deep_view()),
        time_ok(t.deep_view()),
{
    match t {
        None => {
            render_tag(out, 0);
        },
        Some(EventTime::AllDay(d)) => {
            render_tag(out, 1);
            render_date(out, *d);
            proof {
                lemma_add_assoc(old(out)@, ser_tag(1), ser_date(*d));
            }
        },
        Some(EventTime::Timed(inst)) => {
            render_tag(out, 2);
            render_str(out, &inst.timestamp);
            render_date(out, inst.local_date);
            proof {
                lemma_add_assoc(old(out)@, ser_tag(2), ser_str(inst.timestamp@));
                lemma_add_assoc(
                    old(out)@,
                    ser_tag(2) + ser_str(inst.timestamp@),
                    ser_date(inst.local_date),
                );
                lemma_add_assoc(ser_tag(2), ser_str(inst.timestamp@), ser_date(inst.local_date));
            }
        },
    }
}

fn render_event(out: &mut String, e: &Event)
    ensures
        final(out)@ == old(out)@ + ser_event(e@),
        event_ok(e@),
{
    render_opt_str(out, &e.id);
    render_opt_str(out, &e.summary);
    render_status(out, e.status);
    render_opt_str(out, &e.color_id);
    render_time(out, &e.start);
    render_time(out, &e.end);
    proof {
        let p1 = ser_opt_str(e@.id);
        let p2 = ser_opt_str(e@.summary);
        let p3 = ser_status(e@.status);
        let p4 = ser_opt_str(e@.color_id);
        let p5 = ser_time(e@.start);
        let p6 = ser_time(e@.end);
        let b = old(out)@;
        lemma_add_assoc(b, p1, p2);
        lemma_add_assoc(b, p1 + p2, p3);
        lemma_add_assoc(b, p1 + p2 + p3, p4);
        lemma_add_assoc(b, p1 + p2 + p3 + p4, p5);
        lemma_add_assoc(b, p1 + p2 + p3 + p4 + p5, p6);
        lemma_add_assoc(p1 + p2 + p3, p4 + p5, p6);
        lemma_add_assoc(p4, p5, p6);
        lemma_add_assoc(p1 + p2 + p3, p4, p5);
        assert(ser_event(e@) == (p1 + p2 + p3) + (p4 + p5 + p6));
        assert(((((p1 + p2) + p3) + p4) + p5) + p6 == ser_event(e@)) by {
            assert(((((p1 + p2) + p3) + p4) + p5) + p6 =~= ser_event(e@));
        }
    }
}

fn render_token(out: &mut String, p: &(String, String))
    ensures
        final(out)@ == old(out)@ + ser_token(p.deep_view()),
        str_ok(p.0@),
        str_ok(p.1@),
{
    render_str(out, &p.0);
    render_str(out, &p.1);
    proof {
        lemma_add_assoc(old(out)@, ser_str(p.0@), ser_str(p.1@));
    }
}

fn render_cal(out: &mut String, c: &CalendarDescriptor)
    ensures
        final(out)@ == old(out)@ + ser_cal(c@),
        opt_str_ok(c@.id),
        opt_str_ok(c@.summary),
{
    render_opt_str(out, &c.id);
    render_opt_str(out, &c.summary);
    proof {
        lemma_add_assoc(old(out)@, ser_opt_str(c@.id), ser_opt_str(c@.summary));
    }
}

fn render_color(out: &mut String, p: &(String, ColorDefinition))
    ensures
        final(out)@ == old(out)@ + ser_color(p.deep_view()),
        str_ok(p.0@),
        opt_str_ok(p.1@.foreground),
        opt_str_ok(p.1@.background),
{
    render_str(out, &p.0);
    render_opt_str(out, &p.1.foreground);
    render_opt_str(out, &p.1.background);
    proof {
        let b = old(out)@;
        lemma_add_assoc(b, ser_str(p.0@), ser_opt_str(p.1@.foreground));
        lemma_add_assoc(b, ser_str(p.0@) + ser_opt_str(p.1@.foreground), ser_opt_str(p.1@.background));
    }
}

fn render_event_list(out: &mut String, es: &Vec<Event>)
    ensures
        final(out)@ == old(out)@ + ser_list(es.deep_view(), |e: EventModel| ser_event(e)),
        es.deep_view().len() <= u64::MAX,
        forall|k: int| 0 <= k < es.deep_view().len() ==> event_ok(#[trigger] es.deep_view()[k]),
{
    let ghost all = es.deep_view();
    let n = es.len();
    render_u64(out, n as u64);
    let ghost base = out@;
    proof {
        assert(all.skip(0) =~= all);
    }
    let mut i: usize = 0;
    while i < n
        invariant
            n == es.len(),
            all == es.deep_view(),
            i <= n,
            out@ + ser_items(all.skip(i as int), |e: EventModel| ser_event(e)) == base
                + ser_items(all, |e: EventModel| ser_event(e)),
            forall|k: int| 0 <= k < i ==> event_ok(#[trigger] all[k]),
        decreases n - i,
    {
        let ghost pre = out@;
        render_event(out, &es[i]);
        proof {
            let f = |e: EventModel| ser_event(e);
            assert(all[i as int] == es@[i as int]@);
            let su = all.skip(i as int);
            assert(su.first() == all[i as int]);
            assert(su.drop_first() =~= all.skip(i as int + 1));
            assert(ser_items(su, f) == f(all[i as int]) + ser_items(all.skip(i as int + 1), f));
            lemma_add_assoc(pre, f(all[i as int]), ser_items(all.skip(i as int + 1), f));
        }
        i = i + 1;
    }
    proof {
        let f = |e: EventModel| ser_event(e);
        assert(all.skip(n as int) =~= Seq::<EventModel>::empty());
        assert(out@ + ser_items(all.skip(n as int), f) =~= out@);
        lemma_add_assoc(old(out)@, spec_ser_u64(all.len()), ser_items(all, f));
    }
}

fn render_bucket(out: &mut String, p: &(Date, Vec<Event>))
    ensures
        final(out)@ == old(out)@ + ser_bucket(p.deep_view()),
        p.deep_view().1.len() <= u64::MAX,
        forall|k: int| 0 <= k < p.deep_view().1.len() ==> event_ok(#[trigger] p.deep_view().1[k]),
{
    render_date(out, p.0);
    render_event_list(out, &p.1);
    proof {
        lemma_add_assoc(
            old(out)@,
            ser_date(p.0),
            ser_list(p.1.deep_view(), |e: EventModel| ser_event(e)),
        );
    }
}

fn render_token_list(out: &mut String, v: &Vec<(String, String)>)
    ensures
        final(out)@ == old(out)@ + ser_list(
            v.deep_view(),
            |p: (Seq<char>, Seq<char>)| ser_token(p),
        ),
        v.deep_view().len() <= u64::MAX,
        forall|k: int| 0 <= k < v.deep_view().len()
            ==> str_ok((#[trigger] v.deep_view()[k]).0) && str_ok(v.deep_view()[k].1),
{
    let ghost all = v.deep_view();
    let n = v.len();
    render_u64(out, n as u64);
    let ghost base = out@;
    proof {
        assert(all.skip(0) =~= all);
    }
    let mut i: usize = 0;
    while i < n
        invariant
            n == v.len(),
            all == v.deep_view(),
            i <= n,
            out@ + ser_items(all.skip(i as int), |p: (Seq<char>, Seq<char>)| ser_token(p)) == base
                + ser_items(all, |p: (Seq<char>, Seq<char>)| ser_token(p)),
            forall|k: int| 0 <= k < i
                ==> str_ok((#[trigger] all[k]).0) && str_ok(all[k].1),
        decreases n - i,
    {
        let ghost pre = out@;
        render_token(out, &v[i]);
        proof {
            let f = |p: (Seq<char>, Seq<char>)| ser_token(p);
            assert(all[i as int] == v@[i as int].deep_view());
            let su = all.skip(i as int);
            assert(su.first() == all[i as int]);
            assert(su.drop_first() =~= all.skip(i as int + 1));
            assert(ser_items(su, f) == f(all[i as int]) + ser_items(all.skip(i as int + 1), f));
            lemma_add_assoc(pre, f(all[i as int]), ser_items(all.skip(i as int + 1), f));
        }
        i = i + 1;
    }
    proof {
        let f = |p: (Seq<char>, Seq<char>)| ser_token(p);
        assert(all.skip(n as int) =~= Seq::<(Seq<char>, Seq<char>)>::empty());
        assert(out@ + ser_items(all.skip(n as int), f) =~= out@);
        lemma_add_assoc(old(out)@, spec_ser_u64(all.len()), ser_items(all, f));
    }
}

fn render_bucket_list(out: &mut String, v: &Vec<(Date, Vec<Event>)>)
    ensures
        final(out)@ == old(out)@ + ser_list(
            v.deep_view(),
            |p: (Date, Seq<EventModel>)| ser_bucket(p),
        ),
        v.deep_view().len() <= u64::MAX,
        forall|k: int| 0 <= k < v.deep_view().len()
            ==> (#[trigger] v.deep_view()[k]).1.len() <= u64::MAX,
        forall|k: int, j: int|
            0 <= k < v.deep_view().len() && 0 <= j < v.deep_view()[k].1.len()
                ==> event_ok(#[trigger] v.deep_view()[k].1[j]),
{
    let ghost all = v.deep_view();
    let n = v.len();
    render_u64(out, n as u64);
    let ghost base = out@;
    proof {
        assert(all.skip(0) =~= all);
    }
    let mut i: usize = 0;
    while i < n
        invariant
            n == v.len(),
            all == v.deep_view(),
            i <= n,
            out@ + ser_items(all.skip(i as int), |p: (Date, Seq<EventModel>)| ser_bucket(p))
                == base + ser_items(all, |p: (Date, Seq<EventModel>)| ser_bucket(p)),
            forall|k: int| 0 <= k < i ==> (#[trigger] all[k]).1.len() <= u64::MAX,
            forall|k: int, j: int|
                0 <= k < i && 0 <= j < all[k].1.len() ==> event_ok(#[trigger] all[k].1[j]),
        decreases n - i,
    {
        let ghost pre = out@;
        render_bucket(out, &v[i]);
        proof {
            let f = |p: (Date, Seq<EventModel>)| ser_bucket(p);
            assert(all[i as int] == v@[i as int].deep_view());
            let su = all.skip(i as int);
            assert(su.first() == all[i as int]);
            assert(su.drop_first() =~= all.skip(i as int + 1));
            assert(ser_items(su, f) == f(all[i as int]) + ser_items(all.skip(i as int + 1), f));
            lemma_add_assoc(pre, f(all[i as int]), ser_items(all.skip(i as int + 1), f));
        }
        i = i + 1;
    }
    proof {
        let f = |p: (Date, Seq<EventModel>)| ser_bucket(p);
        assert(all.skip(n as int) =~= Seq::<(Date, Seq<EventModel>)>::empty());
        assert(out@ + ser_items(all.skip(n as int), f) =~= out@);
        lemma_add_assoc(old(out)@, spec_ser_u64(all.len()), ser_items(all, f));
    }
}

fn render_cal_list(out: &mut String, v: &Vec<CalendarDescriptor>)
    ensures
        final(out)@ == old(out)@ + ser_list(
            v.deep_view(),
            |c: CalendarDescriptorModel| ser_cal(c),
        ),
        v.deep_view().len() <= u64::MAX,
        forall|k: int| 0 <= k < v.deep_view().len()
            ==> opt_str_ok((#[trigger] v.deep_view()[k]).id) && opt_str_ok(
                v.deep_view()[k].summary,
            ),
{
    let ghost all = v.deep_view();
    let n = v.len();
    render_u64(out, n as u64);
    let ghost base = out@;
    proof {
        assert(all.skip(0) =~= all);
    }
    let mut i: usize = 0;
    while i < n
        invariant
            n == v.len(),
            all == v.deep_view(),
            i <= n,
            out@ + ser_items(all.skip(i as int), |c: CalendarDescriptorModel| ser_cal(c)) == base
                + ser_items(all, |c: CalendarDescriptorModel| ser_cal(c)),
            forall|k: int| 0 <= k < i
                ==> opt_str_ok((#[trigger] all[k]).id) && opt_str_ok(all[k].summary),
        decreases n - i,
    {
        let ghost pre = out@;
        render_cal(out, &v[i]);
        proof {
            let f = |c: CalendarDescriptorModel| ser_cal(c);
            assert(all[i as int] == v@[i as int]@);
            let su = all.skip(i as int);
            assert(su.first() == all[i as int]);
            assert(su.drop_first() =~= all.skip(i as int + 1));
            assert(ser_items(su, f) == f(all[i as int]) + ser_items(all.skip(i as int + 1), f));
            lemma_add_assoc(pre, f(all[i as int]), ser_items(all.skip(i as int + 1), f));
        }
        i = i + 1;
    }
    proof {
        let f = |c: CalendarDescriptorModel| ser_cal(c);
        assert(all.skip(n as int) =~= Seq::<CalendarDescriptorModel>::empty());
        assert(out@ + ser_items(all.skip(n as int), f) =~= out@);
        lemma_add_assoc(old(out)@, spec_ser_u64(all.len()), ser_items(all, f));
    }
}

fn render_color_list(out: &mut String, v: &Vec<(String, ColorDefinition)>)
    ensures
        final(out)@ == old(out)@ + ser_list(
            v.deep_view(),
            |p: (Seq<char>, ColorDefinitionModel)| ser_color(p),
        ),
        v.deep_view().len() <= u64::MAX,
        forall|k: int| 0 <= k < v.deep_view().len()
            ==> str_ok((#[trigger] v.deep_view()[k]).0) && opt_str_ok(
                v.deep_view()[k].1.foreground,
            ) && opt_str_ok(v.deep_view()[k].1.background),
{
    let ghost all = v.deep_view();
    let n = v.len();
    render_u64(out, n as u64);
    let ghost base = out@;
    proof {
        assert(all.skip(0) =~= all);
    }
    let mut i: usize = 0;
    while i < n
        invariant
            n == v.len(),
            all == v.deep_view(),
            i <= n,
            out@ + ser_items(all.skip(i as int), |p: (Seq<char>, ColorDefinitionModel)| ser_color(p))
                == base + ser_items(all, |p: (Seq<char>, ColorDefinitionModel)| ser_color(p)),
            forall|k: int| 0 <= k < i
                ==> str_ok((#[trigger] all[k]).0) && opt_str_ok(all[k].1.foreground)
                    && opt_str_ok(all[k].1.background),
        decreases n - i,
    {
        let ghost pre = out@;
        render_color(out, &v[i]);
        proof {
            let f = |p: (Seq<char>, ColorDefinitionModel)| ser_color(p);
            assert(all[i as int] == v@[i as int].deep_view());
            let su = all.skip(i as int);
            assert(su.first() == all[i as int]);
            assert(su.drop_first() =~= all.skip(i as int + 1));
            assert(ser_items(su, f) == f(all[i as int]) + ser_items(all.skip(i as int + 1), f));
            lemma_add_assoc(pre, f(all[i as int]), ser_items(all.skip(i as int + 1), f));
        }
        i = i + 1;
    }
    proof {
        let f = |p: (Seq<char>, ColorDefinitionModel)| ser_color(p);
        assert(all.skip(n as int) =~= Seq::<(Seq<char>, ColorDefinitionModel)>::empty());
        assert(out@ + ser_items(all.skip(n as int), f) =~= out@);
        lemma_add_assoc(old(out)@, spec_ser_u64(all.len()), ser_items(all, f));
    }
}

/// Writes the whole cache in the persisted format.
pub fn render_cache(cache: &Cache) -> (r: String)
    ensures
        r@ == ser_cache(cache.rep()),
        rep_ok(cache.rep()),
{
    let mut out = String::new();
    render_token_list(&mut out, &cache.sync_tokens);
    render_bucket_list(&mut out, &cache.events);
    render_cal_list(&mut out, &cache.calendars);
    render_color_list(&mut out, &cache.colors.entries);
    proof {
        let l1 = ser_list(cache.sync_tokens.deep_view(), |p: (Seq<char>, Seq<char>)| ser_token(p));
        let l2 = ser_list(cache.events.deep_view(), |p: (Date, Seq<EventModel>)| ser_bucket(p));
        let l3 = ser_list(cache.calendars.deep_view(), |c: CalendarDescriptorModel| ser_cal(c));
        let l4 = ser_list(
            cache.colors.entries.deep_view(),
            |p: (Seq<char>, ColorDefinitionModel)| ser_color(p),
        );
        assert(Seq::<char>::empty() + l1 =~= l1);
        assert(out@ == ((l1 + l2) + l3) + l4);
        assert(out@ == ser_cache(cache.rep()));
    }
    out
}

// ---------------------------------------------------------------------
// The reader
// ---------------------------------------------------------------------

fn parse_tag(s: &str, n: usize, i: usize) -> (r: Option<(u8, usize)>)
    requires
        n == s@.len(),
        i <= n,
    ensures
        match sp_tag(s@.skip(i as int)) {
            None => r is None,
            Some((d, c)) => r matches Some(p) && p.0 as nat == d && p.1 == i + c && i <= p.1 <= n,
        },
{
    if i >= n {
        return None;
    }
    let c = s.get_char(i);
    let d = digit_val(c);
    proof {
        assert(s@.skip(i as int)[0] == s@[i as int]);
    }
    if d >= 10 {
        return None;
    }
    Some((d, i + 1))
}

fn parse_str(s: &str, n: usize, i: usize) -> (r: Option<(String, usize)>)
    requires
        n == s@.len(),
        i <= n,
    ensures
        match sp_str(s@.skip(i as int)) {
            None => r is None,
            Some((t, c)) => r matches Some(p) && p.0@ == t && p.1 == i + c && i <= p.1 <= n,
        },
{
    let (v, j) = match parse_u64(s, n, i) {
        None => {
            return None;
        },
        Some(p) => p,
    };
    if v > (n - j) as u64 {
        return None;
    }
    let l = v as usize;
    let sub = s.substring_char(j, j + l);
    let owned = sub.to_owned();
    proof {
        assert(s@.skip(i as int).subrange(DEC_WIDTH as int, DEC_WIDTH as int + v as int) =~= s@.subrange(
            j as int,
            (j + l) as int,
        ));
    }
    Some((owned, j + l))
}

fn parse_opt_str(s: &str, n: usize, i: usize) -> (r: Option<(Option<String>, usize)>)
    requires
        n == s@.len(),
        i <= n,
    ensures
        match sp_opt_str(s@.skip(i as int)) {
            None => r is None,
            Some((o, c)) => r matches Some(p) && p.0.deep_view() == o && p.1 == i + c && i <= p.1 <= n,
        },
{
    let (tag, j) = match parse_tag(s, n, i) {
        None => {
            return None;
        },
        Some(p) => p,
    };
    proof {
        vstd::seq_lib::lemma_seq_skip_of_skip(s@, i as int, 1);
    }
    if tag == 0 {
        return Some((None, j));
    }
    if tag != 1 {
        return None;
    }
    match parse_str(s, n, j) {
        None => None,
        Some((t, j2)) => Some((Some(t), j2)),
    }
}

fn parse_date(s: &str, n: usize, i: usize) -> (r: Option<(Date, usize)>)
    requires
        n == s@.len(),
        i <= n,
    ensures
        match sp_date(s@.skip(i as int)) {
            None => r is None,
            Some((d, c)) => r matches Some(p) && p.0 == d && p.1 == i + c && i <= p.1 <= n,
        },
{
    let (y, j1) = match parse_u64(s, n, i) {
        None => {
            return None;
        },
        Some(p) => p,
    };
    if y > u32::MAX as u64 {
        return None;
    }
    proof {
        vstd::seq_lib::lemma_seq_skip_of_skip(s@, i as int, (j1 - i) as int);
    }
    let (mo, j2) = match parse_u64(s, n, j1) {
        None => {
            return None;
        },
        Some(p) => p,
    };
    if mo > u32::MAX as u64 {
        return None;
    }
    proof {
        vstd::seq_lib::lemma_seq_skip_of_skip(s@, i as int, (j2 - i) as int);
    }
    let (d, j3) = match parse_u64(s, n, j2) {
        None => {
            return None;
        },
        Some(p) => p,
    };
    if d > u32::MAX as u64 {
        return None;
    }
    Some((Date::new(y as u32, mo as u32, d as u32), j3))
}

fn parse_status(s: &str, n: usize, i: usize) -> (r: Option<(EventStatus, usize)>)
    requires
        n == s@.len(),
        i <= n,
    ensures
        match sp_status(s@.skip(i as int)) {
            None => r is None,
            Some((st, c)) => r matches Some(p) && p.0 == st && p.1 == i + c && i <= p.1 <= n,
        },
{
    let (tag, j) = match parse_tag(s, n, i) {
        None => {
            return None;
        },
        Some(p) => p,
    };
    if tag == 0 {
        Some((EventStatus::Confirmed, j))
    } else if tag == 1 {
        Some((EventStatus::Tentative, j))
    } else if tag == 2 {
        Some((EventStatus::Cancelled, j))
    } else if tag == 3 {
        Some((EventStatus::Other, j))
    } else {
        None
    }
}

fn parse_time(s: &str, n: usize, i: usize) -> (r: Option<(Option<EventTime>, usize)>)
    requires
        n == s@.len(),
        i <= n,
    ensures
        match sp_time(s@.skip(i as int)) {
            None => r is None,
            Some((t, c)) => r matches Some(p) && p.0.deep_view() == t && p.1 == i + c && i <= p.1 <= n,
        },
{
    let (tag, j) = match parse_tag(s, n, i) {
        None => {
            return None;
        },
        Some(p) => p,
    };
    proof {
        vstd::seq_lib::lemma_seq_skip_of_skip(s@, i as int, 1);
    }
    if tag == 0 {
        return Some((None, j));
    }
    if tag == 1 {
        return match parse_date(s, n, j) {
            None => None,
            Some((d, j2)) => Some((Some(EventTime::AllDay(d)), j2)),
        };
    }
    if tag != 2 {
        return None;
    }
    let (ts, j2) = match parse_str(s, n, j) {
        None => {
            return None;
        },
        Some(p) => p,
    };
    proof {
        vstd::seq_lib::lemma_seq_skip_of_skip(s@, j as int, (j2 - j) as int);
    }
    match parse_date(s, n, j2) {
        None => None,
        Some((d, j3)) => Some((Some(EventTime::Timed(Instant { timestamp: ts, local_date: d })), j3)),
    }
}

#[verifier::rlimit(100)]
#[verifier::spinoff_prover]
fn parse_event_head(s: &str, n: usize, i: usize) -> (r: Option<
    ((Option<String>, Option<String>, EventStatus), usize),
>)
    requires
        n == s@.len(),
        i <= n,
    ensures
        match sp_event_head(s@.skip(i as int)) {
            None => r is None,
            Some(((id, summary, status), c)) => r matches Some(p) && p.0.0.deep_view() == id
                && p.0.1.deep_view() == summary && p.0.2 == status && p.1 == i + c && i <= p.1
                <= n,
        },
{
    let (id, j1) = match parse_opt_str(s, n, i) {
        None => {
            return None;
        },
        Some(p) => p,
    };
    proof {
        vstd::seq_lib::lemma_seq_skip_of_skip(s@, i as int, (j1 - i) as int);
    }
    let (summary, j2) = match parse_opt_str(s, n, j1) {
        None => {
            return None;
        },
        Some(p) => p,
    };
    proof {
        vstd::seq_lib::lemma_seq_skip_of_skip(s@, i as int, (j2 - i) as int);
    }
    match parse_status(s, n, j2) {
        None => None,
        Some((status, j3)) => Some(((id, summary, status), j3)),
    }
}

#[verifier::rlimit(100)]
#[verifier::spinoff_prover]
fn parse_event_tail(s: &str, n: usize, i: usize) -> (r: Option<
    ((Option<String>, Option<EventTime>, Option<EventTime>), usize),
>)
    requires
        n == s@.len(),
        i <= n,
    ensures
        match sp_event_tail(s@.skip(i as int)) {
            None => r is None,
            Some(((color_id, start, end), c)) => r matches Some(p) && p.0.0.deep_view()
                == color_id && p.0.1.deep_view() == start && p.0.2.deep_view() == end && p.1 == i
                + c && i <= p.1 <= n,
        },
{
    let (color_id, j1) = match parse_opt_str(s, n, i) {
        None => {
            return None;
        },
        Some(p) => p,
    };
    proof {
        vstd::seq_lib::lemma_seq_skip_of_skip(s@, i as int, (j1 - i) as int);
    }
    let (start, j2) = match parse_time(s, n, j1) {
        None => {
            return None;
        },
        Some(p) => p,
    };
    proof {
        vstd::seq_lib::lemma_seq_skip_of_skip(s@, i as int, (j2 - i) as int);
    }
    match parse_time(s, n, j2) {
        None => None,
        Some((end, j3)) => Some(((color_id, start, end), j3)),
    }
}

#[verifier::rlimit(100)]
#[verifier::spinoff_prover]
fn parse_event(s: &str, n: usize, i: usize) -> (r: Option<(Event, usize)>)
    requires
        n == s@.len(),
        i <= n,
    ensures
        match sp_event(s@.skip(i as int)) {
            None => r is None,
            Some((m, c)) => r matches Some(p) && p.0@ == m && p.1 == i + c && i <= p.1 <= n,
        },
{
    let ((id, summary, status), j1) = match parse_event_head(s, n, i) {
        None => {
            return None;
        },
        Some(p) => p,
    };
    proof {
        vstd::seq_lib::lemma_seq_skip_of_skip(s@, i as int, (j1 - i) as int);
    }
    match parse_event_tail(s, n, j1) {
        None => None,
        Some(((color_id, start, end), j2)) => Some(
            (Event { id, summary, status, color_id, start, end }, j2),
        ),
    }
}

fn parse_token(s: &str, n: usize, i: usize) -> (r: Option<((String, String), usize)>)
    requires
        n == s@.len(),
        i <= n,
    ensures
        match sp_token(s@.skip(i as int)) {
            None => r is None,
            Some((m, c)) => r matches Some(p) && p.0.deep_view() == m && p.1 == i + c && i <= p.1 <= n,
        },
{
    let (k, j1) = match parse_str(s, n, i) {
        None => {
            return None;
        },
        Some(p) => p,
    };
    proof {
        vstd::seq_lib::lemma_seq_skip_of_skip(s@, i as int, (j1 - i) as int);
    }
    match parse_str(s, n, j1) {
        None => None,
        Some((v, j2)) => Some(((k, v), j2)),
    }
}

fn parse_cal(s: &str, n: usize, i: usize) -> (r: Option<(CalendarDescriptor, usize)>)
    requires
        n == s@.len(),
        i <= n,
    ensures
        match sp_cal(s@.skip(i as int)) {
            None => r is None,
            Some((m, c)) => r matches Some(p) && p.0@ == m && p.1 == i + c && i <= p.1 <= n,
        },
{
    let (id, j1) = match parse_opt_str(s, n, i) {
        None => {
            return None;
        },
        Some(p) => p,
    };
    proof {
        vstd::seq_lib::lemma_seq_skip_of_skip(s@, i as int, (j1 - i) as int);
    }
    match parse_opt_str(s, n, j1) {
        None => None,
        Some((summary, j2)) => Some((CalendarDescriptor { id, summary }, j2)),
    }
}

fn parse_color(s: &str, n: usize, i: usize) -> (r: Option<((String, ColorDefinition), usize)>)
    requires
        n == s@.len(),
        i <= n,
    ensures
        match sp_color(s@.skip(i as int)) {
            None => r is None,
            Some((m, c)) => r matches Some(p) && p.0.deep_view() == m && p.1 == i + c && i <= p.1 <= n,
        },
{
    let (k, j1) = match parse_str(s, n, i) {
        None => {
            return None;
        },
        Some(p) => p,
    };
    proof {
        vstd::seq_lib::lemma_seq_skip_of_skip(s@, i as int, (j1 - i) as int);
    }
    let (fg, j2) = match parse_opt_str(s, n, j1) {
        None => {
            return None;
        },
        Some(p) => p,
    };
    proof {
        vstd::seq_lib::lemma_seq_skip_of_skip(s@, i as int, (j2 - i) as int);
    }
    match parse_opt_str(s, n, j2) {
        None => None,
        Some((bg, j3)) => Some(
            ((k, ColorDefinition { foreground: fg, background: bg }), j3),
        ),
    }
}

fn parse_token_list(s: &str, n: usize, i: usize) -> (r: Option<(Vec<(String, String)>, usize)>)
    requires
        n == s@.len(),
        i <= n,
    ensures
        match sp_list(s@.skip(i as int), |t: Seq<char>| sp_token(t)) {
            None => r is None,
            Some((vs, c)) => r matches Some(p) && p.0.deep_view() == vs && p.1 == i + c && i
                <= p.1 <= n,
        },
{
    let (cnt, j0) = match parse_u64(s, n, i) {
        None => {
            return None;
        },
        Some(p) => p,
    };
    let mut out: Vec<(String, String)> = Vec::new();
    let mut j = j0;
    let mut k: u64 = 0;
    proof {
        assert(out.deep_view() =~= Seq::<(Seq<char>, Seq<char>)>::empty());
    }
    while k < cnt
        invariant
            n == s@.len(),
            i <= j0 <= j <= n,
            k <= cnt,
            spec_sp_u64(s@.skip(i as int)) == Some((cnt as nat, (j0 - i) as int)),
            match sp_items(s@.skip(j as int), |t: Seq<char>| sp_token(t), (cnt - k) as nat) {
                None => sp_items(
                    s@.skip(j0 as int),
                    |t: Seq<char>| sp_token(t),
                    cnt as nat,
                ) is None,
                Some((vs, c)) => sp_items(
                    s@.skip(j0 as int),
                    |t: Seq<char>| sp_token(t),
                    cnt as nat,
                ) == Some((out.deep_view() + vs, (j - j0) + c)),
            },
        decreases cnt - k,
    {
        let ghost pf = |t: Seq<char>| sp_token(t);
        let ghost pre = out.deep_view();
        let parsed = parse_token(s, n, j);
        match parsed {
            None => {
                proof {
                    assert(sp_items(s@.skip(j as int), pf, (cnt - k) as nat) is None);
                    vstd::seq_lib::lemma_seq_skip_of_skip(s@, i as int, (j0 - i) as int);
                }
                return None;
            },
            Some((e, j2)) => {
                proof {
                    let m = (cnt - k) as nat;
                    vstd::seq_lib::lemma_seq_skip_of_skip(s@, j as int, (j2 - j) as int);
                    match sp_items(s@.skip(j2 as int), pf, (m - 1) as nat) {
                        None => {
                            assert(sp_items(s@.skip(j as int), pf, m) is None);
                        },
                        Some((vs2, c2)) => {
                            assert(sp_items(s@.skip(j as int), pf, m) == Some(
                                (seq![e.deep_view()] + vs2, (j2 - j) + c2),
                            ));
                            lemma_add_assoc(pre, seq![e.deep_view()], vs2);
                        },
                    }
                }
                out.push(e);
                proof {
                    assert(out.deep_view() =~= pre.push(e.deep_view()));
                    assert(pre.push(e.deep_view()) =~= pre + seq![e.deep_view()]);
                }
                j = j2;
                k = k + 1;
            },
        }
    }
    proof {
        let pf = |t: Seq<char>| sp_token(t);
        assert(sp_items(s@.skip(j as int), pf, 0nat) == Some((Seq::<(Seq<char>, Seq<char>)>::empty(), 0int)));
        assert(out.deep_view() + Seq::<(Seq<char>, Seq<char>)>::empty() =~= out.deep_view());
        vstd::seq_lib::lemma_seq_skip_of_skip(s@, i as int, (j0 - i) as int);
    }
    Some((out, j))
}

#[verifier::rlimit(100)]
#[verifier::spinoff_prover]
fn parse_event_list(s: &str, n: usize, i: usize) -> (r: Option<(Vec<Event>, usize)>)
    requires
        n == s@.len(),
        i <= n,
    ensures
        match sp_list(s@.skip(i as int), |t: Seq<char>| sp_event(t)) {
            None => r is None,
            Some((vs, c)) => r matches Some(p) && p.0.deep_view() == vs && p.1 == i + c && i
                <= p.1 <= n,
        },
{
    let (cnt, j0) = match parse_u64(s, n, i) {
        None => {
            return None;
        },
        Some(p) => p,
    };
    let mut out: Vec<Event> = Vec::new();
    let mut j = j0;
    let mut k: u64 = 0;
    proof {
        assert(out.deep_view() =~= Seq::<EventModel>::empty());
    }
    while k < cnt
        invariant
            n == s@.len(),
            i <= j0 <= j <= n,
            k <= cnt,
            spec_sp_u64(s@.skip(i as int)) == Some((cnt as nat, (j0 - i) as int)),
            match sp_items(s@.skip(j as int), |t: Seq<char>| sp_event(t), (cnt - k) as nat) {
                None => sp_items(
                    s@.skip(j0 as int),
                    |t: Seq<char>| sp_event(t),
                    cnt as nat,
                ) is None,
                Some((vs, c)) => sp_items(
                    s@.skip(j0 as int),
                    |t: Seq<char>| sp_event(t),
                    cnt as nat,
                ) == Some((out.deep_view() + vs, (j - j0) + c)),
            },
        decreases cnt - k,
    {
        let ghost pf = |t: Seq<char>| sp_event(t);
        let ghost pre = out.deep_view();
        let parsed = parse_event(s, n, j);
        match parsed {
            None => {
                proof {
                    assert(sp_items(s@.skip(j as int), pf, (cnt - k) as nat) is None);
                    vstd::seq_lib::lemma_seq_skip_of_skip(s@, i as int, (j0 - i) as int);
                }
                return None;
            },
            Some((e, j2)) => {
                proof {
                    let m = (cnt - k) as nat;
                    vstd::seq_lib::lemma_seq_skip_of_skip(s@, j as int, (j2 - j) as int);
                    match sp_items(s@.skip(j2 as int), pf, (m - 1) as nat) {
                        None => {
                            assert(sp_items(s@.skip(j as int), pf, m) is None);
                        },
                        Some((vs2, c2)) => {
                            assert(sp_items(s@.skip(j as int), pf, m) == Some(
                                (seq![e.deep_view()] + vs2, (j2 - j) + c2),
                            ));
                            lemma_add_assoc(pre, seq![e.deep_view()], vs2);
                        },
                    }
                }
                out.push(e);
                proof {
                    assert(out.deep_view() =~= pre.push(e.deep_view()));
                    assert(pre.push(e.deep_view()) =~= pre + seq![e.deep_view()]);
                }
                j = j2;
                k = k + 1;
            },
        }
    }
    proof {
        let pf = |t: Seq<char>| sp_event(t);
        assert(sp_items(s@.skip(j as int), pf, 0nat) == Some((Seq::<EventModel>::empty(), 0int)));
        assert(out.deep_view() + Seq::<EventModel>::empty() =~= out.deep_view());
        vstd::seq_lib::lemma_seq_skip_of_skip(s@, i as int, (j0 - i) as int);
    }
    Some((out, j))
}

fn parse_cal_list(s: &str, n: usize, i: usize) -> (r: Option<(Vec<CalendarDescriptor>, usize)>)
    requires
        n == s@.len(),
        i <= n,
    ensures
        match sp_list(s@.skip(i as int), |t: Seq<char>| sp_cal(t)) {
            None => r is None,
            Some((vs, c)) => r matches Some(p) && p.0.deep_view() == vs && p.1 == i + c && i
                <= p.1 <= n,
        },
{
    let (cnt, j0) = match parse_u64(s, n, i) {
        None => {
            return None;
        },
        Some(p) => p,
    };
    let mut out: Vec<CalendarDescriptor> = Vec::new();
    let mut j = j0;
    let mut k: u64 = 0;
    proof {
        assert(out.deep_view() =~= Seq::<CalendarDescriptorModel>::empty());
    }
    while k < cnt
        invariant
            n == s@.len(),
            i <= j0 <= j <= n,
            k <= cnt,
            spec_sp_u64(s@.skip(i as int)) == Some((cnt as nat, (j0 - i) as int)),
            match sp_items(s@.skip(j as int), |t: Seq<char>| sp_cal(t), (cnt - k) as nat) {
                None => sp_items(
                    s@.skip(j0 as int),
                    |t: Seq<char>| sp_cal(t),
                    cnt as nat,
                ) is None,
                Some((vs, c)) => sp_items(
                    s@.skip(j0 as int),
                    |t: Seq<char>| sp_cal(t),
                    cnt as nat,
                ) == Some((out.deep_view() + vs, (j - j0) + c)),
            },
        decreases cnt - k,
    {
        let ghost pf = |t: Seq<char>| sp_cal(t);
        let ghost pre = out.deep_view();
        let parsed = parse_cal(s, n, j);
        match parsed {
            None => {
                proof {
                    assert(sp_items(s@.skip(j as int), pf, (cnt - k) as nat) is None);
                    vstd::seq_lib::lemma_seq_skip_of_skip(s@, i as int, (j0 - i) as int);
                }
                return None;
            },
            Some((e, j2)) => {
                proof {
                    let m = (cnt - k) as nat;
                    vstd::seq_lib::lemma_seq_skip_of_skip(s@, j as int, (j2 - j) as int);
                    match sp_items(s@.skip(j2 as int), pf, (m - 1) as nat) {
                        None => {
                            assert(sp_items(s@.skip(j as int), pf, m) is None);
                        },
                        Some((vs2, c2)) => {
                            assert(sp_items(s@.skip(j as int), pf, m) == Some(
                                (seq![e.deep_view()] + vs2, (j2 - j) + c2),
                            ));
                            lemma_add_assoc(pre, seq![e.deep_view()], vs2);
                        },
                    }
                }
                out.push(e);
                proof {
                    assert(out.deep_view() =~= pre.push(e.deep_view()));
                    assert(pre.push(e.deep_view()) =~= pre + seq![e.deep_view()]);
                }
                j = j2;
                k = k + 1;
            },
        }
    }
    proof {
        let pf = |t: Seq<char>| sp_cal(t);
        assert(sp_items(s@.skip(j as int), pf, 0nat) == Some((Seq::<CalendarDescriptorModel>::empty(), 0int)));
        assert(out.deep_view() + Seq::<CalendarDescriptorModel>::empty() =~= out.deep_view());
        vstd::seq_lib::lemma_seq_skip_of_skip(s@, i as int, (j0 - i) as int);
    }
    Some((out, j))
}

fn parse_color_list(s: &str, n: usize, i: usize) -> (r: Option<(Vec<(String, ColorDefinition)>, usize)>)
    requires
        n == s@.len(),
        i <= n,
    ensures
        match sp_list(s@.skip(i as int), |t: Seq<char>| sp_color(t)) {
            None => r is None,
            Some((vs, c)) => r matches Some(p) && p.0.deep_view() == vs && p.1 == i + c && i
                <= p.1 <= n,
        },
{
    let (cnt, j0) = match parse_u64(s, n, i) {
        None => {
            return None;
        },
        Some(p) => p,
    };
    let mut out: Vec<(String, ColorDefinition)> = Vec::new();
    let mut j = j0;
    let mut k: u64 = 0;
    proof {
        assert(out.deep_view() =~= Seq::<(Seq<char>, ColorDefinitionModel)>::empty());
    }
    while k < cnt
        invariant
            n == s@.len(),
            i <= j0 <= j <= n,
            k <= cnt,
            spec_sp_u64(s@.skip(i as int)) == Some((cnt as nat, (j0 - i) as int)),
            match sp_items(s@.skip(j as int), |t: Seq<char>| sp_color(t), (cnt - k) as nat) {
                None => sp_items(
                    s@.skip(j0 as int),
                    |t: Seq<char>| sp_color(t),
                    cnt as nat,
                ) is None,
                Some((vs, c)) => sp_items(
                    s@.skip(j0 as int),
                    |t: Seq<char>| sp_color(t),
                    cnt as nat,
                ) == Some((out.deep_view() + vs, (j - j0) + c)),
            },
        decreases cnt - k,
    {
        let ghost pf = |t: Seq<char>| sp_color(t);
        let ghost pre = out.deep_view();
        let parsed = parse_color(s, n, j);
        match parsed {
            None => {
                proof {
                    assert(sp_items(s@.skip(j as int), pf, (cnt - k) as nat) is None);
                    vstd::seq_lib::lemma_seq_skip_of_skip(s@, i as int, (j0 - i) as int);
                }
                return None;
            },
            Some((e, j2)) => {
                proof {
                    let m = (cnt - k) as nat;
                    vstd::seq_lib::lemma_seq_skip_of_skip(s@, j as int, (j2 - j) as int);
                    match sp_items(s@.skip(j2 as int), pf, (m - 1) as nat) {
                        None => {
                            assert(sp_items(s@.skip(j as int), pf, m) is None);
                        },
                        Some((vs2, c2)) => {
                            assert(sp_items(s@.skip(j as int), pf, m) == Some(
                                (seq![e.deep_view()] + vs2, (j2 - j) + c2),
                            ));
                            lemma_add_assoc(pre, seq![e.deep_view()], vs2);
                        },
                    }
                }
                out.push(e);
                proof {
                    assert(out.deep_view() =~= pre.push(e.deep_view()));
                    assert(pre.push(e.deep_view()) =~= pre + seq![e.deep_view()]);
                }
                j = j2;
                k = k + 1;
            },
        }
    }
    proof {
        let pf = |t: Seq<char>| sp_color(t);
        assert(sp_items(s@.skip(j as int), pf, 0nat) == Some((Seq::<(Seq<char>, ColorDefinitionModel)>::empty(), 0int)));
        assert(out.deep_view() + Seq::<(Seq<char>, ColorDefinitionModel)>::empty() =~= out.deep_view());
        vstd::seq_lib::lemma_seq_skip_of_skip(s@, i as int, (j0 - i) as int);
    }
    Some((out, j))
}

#[verifier::rlimit(100)]
#[verifier::spinoff_prover]
fn parse_bucket_list(s: &str, n: usize, i: usize) -> (r: Option<(Vec<(Date, Vec<Event>)>, usize)>)
    requires
        n == s@.len(),
        i <= n,
    ensures
        match sp_list(s@.skip(i as int), |t: Seq<char>| sp_bucket(t)) {
            None => r is None,
            Some((vs, c)) => r matches Some(p) && p.0.deep_view() == vs && p.1 == i + c && i
                <= p.1 <= n,
        },
{
    let (cnt, j0) = match parse_u64(s, n, i) {
        None => {
            return None;
        },
        Some(p) => p,
    };
    let mut out: Vec<(Date, Vec<Event>)> = Vec::new();
    let mut j = j0;
    let mut k: u64 = 0;
    proof {
        assert(out.deep_view() =~= Seq::<(Date, Seq<EventModel>)>::empty());
    }
    while k < cnt
        invariant
            n == s@.len(),
            i <= j0 <= j <= n,
            k <= cnt,
            spec_sp_u64(s@.skip(i as int)) == Some((cnt as nat, (j0 - i) as int)),
            match sp_items(s@.skip(j as int), |t: Seq<char>| sp_bucket(t), (cnt - k) as nat) {
                None => sp_items(
                    s@.skip(j0 as int),
                    |t: Seq<char>| sp_bucket(t),
                    cnt as nat,
                ) is None,
                Some((vs, c)) => sp_items(
                    s@.skip(j0 as int),
                    |t: Seq<char>| sp_bucket(t),
                    cnt as nat,
                ) == Some((out.deep_view() + vs, (j - j0) + c)),
            },
        decreases cnt - k,
    {
        let ghost pf = |t: Seq<char>| sp_bucket(t);
        let ghost pre = out.deep_view();
        let parsed = parse_bucket(s, n, j);
        match parsed {
            None => {
                proof {
                    assert(sp_items(s@.skip(j as int), pf, (cnt - k) as nat) is None);
                    vstd::seq_lib::lemma_seq_skip_of_skip(s@, i as int, (j0 - i) as int);
                }
                return None;
            },
            Some((e, j2)) => {
                proof {
                    let m = (cnt - k) as nat;
                    vstd::seq_lib::lemma_seq_skip_of_skip(s@, j as int, (j2 - j) as int);
                    match sp_items(s@.skip(j2 as int), pf, (m - 1) as nat) {
                        None => {
                            assert(sp_items(s@.skip(j as int), pf, m) is None);
                        },
                        Some((vs2, c2)) => {
                            assert(sp_items(s@.skip(j as int), pf, m) == Some(
                                (seq![e.deep_view()] + vs2, (j2 - j) + c2),
                            ));
                            lemma_add_assoc(pre, seq![e.deep_view()], vs2);
                        },
                    }
                }
                out.push(e);
                proof {
                    assert(out.deep_view() =~= pre.push(e.deep_view()));
                    assert(pre.push(e.deep_view()) =~= pre + seq![e.deep_view()]);
                }
                j = j2;
                k = k + 1;
            },
        }
    }
    proof {
        let pf = |t: Seq<char>| sp_bucket(t);
        assert(sp_items(s@.skip(j as int), pf, 0nat) == Some((Seq::<(Date, Seq<EventModel>)>::empty(), 0int)));
        assert(out.deep_view() + Seq::<(Date, Seq<EventModel>)>::empty() =~= out.deep_view());
        vstd::seq_lib::lemma_seq_skip_of_skip(s@, i as int, (j0 - i) as int);
    }
    Some((out, j))
}

fn parse_bucket(s: &str, n: usize, i: usize) -> (r: Option<((Date, Vec<Event>), usize)>)
    requires
        n == s@.len(),
        i <= n,
    ensures
        match sp_bucket(s@.skip(i as int)) {
            None => r is None,
            Some((m, c)) => r matches Some(p) && p.0.deep_view() == m && p.1 == i + c && i <= p.1
                <= n,
        },
{
    let (d, j1) = match parse_date(s, n, i) {
        None => {
            return None;
        },
        Some(p) => p,
    };
    proof {
        vstd::seq_lib::lemma_seq_skip_of_skip(s@, i as int, (j1 - i) as int);
    }
    match parse_event_list(s, n, j1) {
        None => None,
        Some((es, j2)) => Some(((d, es), j2)),
    }
}

// ---------------------------------------------------------------------
// Validation and loading
// ---------------------------------------------------------------------

fn distinct_string_keys<V: DeepView>(v: &Vec<(String, V)>) -> (r: bool)
    ensures
        r == distinct_keys(v.deep_view()),
{
    let n = v.len();
    let mut i: usize = 0;
    while i < n
        invariant
            n == v.len(),
            i <= n,
            forall|x: int, y: int|
                0 <= x < y < v.deep_view().len() && x < i ==> (#[trigger] v.deep_view()[x]).0 != (
                #[trigger] v.deep_view()[y]).0,
        decreases n - i,
    {
        let mut j: usize = i + 1;
        while j < n
            invariant
                n == v.len(),
                i < n,
                i + 1 <= j <= n,
                forall|x: int, y: int|
                    0 <= x < y < v.deep_view().len() && x < i ==> (#[trigger] v.deep_view()[x]).0
                        != (#[trigger] v.deep_view()[y]).0,
                forall|y: int|
                    i < y < j ==> v.deep_view()[i as int].0 != (#[trigger] v.deep_view()[y]).0,
            decreases n - j,
        {
            if *&v[i].0 == *&v[j].0 {
                proof {
                    assert(v.deep_view()[i as int].0 == v@[i as int].0@);
                    assert(v.deep_view()[j as int].0 == v@[j as int].0@);
                }
                return false;
            }
            proof {
                assert(v.deep_view()[i as int].0 == v@[i as int].0@);
                assert(v.deep_view()[j as int].0 == v@[j as int].0@);
            }
            j = j + 1;
        }
        i = i + 1;
    }
    true
}

fn distinct_date_keys(v: &Vec<(Date, Vec<Event>)>) -> (r: bool)
    ensures
        r == distinct_keys(v.deep_view()),
{
    let n = v.len();
    let mut i: usize = 0;
    while i < n
        invariant
            n == v.len(),
            i <= n,
            forall|x: int, y: int|
                0 <= x < y < v.deep_view().len() && x < i ==> (#[trigger] v.deep_view()[x]).0 != (
                #[trigger] v.deep_view()[y]).0,
        decreases n - i,
    {
        let mut j: usize = i + 1;
        while j < n
            invariant
                n == v.len(),
                i < n,
                i + 1 <= j <= n,
                forall|x: int, y: int|
                    0 <= x < y < v.deep_view().len() && x < i ==> (#[trigger] v.deep_view()[x]).0
                        != (#[trigger] v.deep_view()[y]).0,
                forall|y: int|
                    i < y < j ==> v.deep_view()[i as int].0 != (#[trigger] v.deep_view()[y]).0,
            decreases n - j,
        {
            if v[i].0 == v[j].0 {
                proof {
                    assert(v.deep_view()[i as int].0 == v@[i as int].0);
                    assert(v.deep_view()[j as int].0 == v@[j as int].0);
                }
                return false;
            }
            proof {
                assert(v.deep_view()[i as int].0 == v@[i as int].0);
                assert(v.deep_view()[j as int].0 == v@[j as int].0);
            }
            j = j + 1;
        }
        i = i + 1;
    }
    true
}

fn buckets_consistent(v: &Vec<(Date, Vec<Event>)>) -> (r: bool)
    ensures
        r == (forall|x: int, y: int|
            0 <= x < v.deep_view().len() && 0 <= y < v.deep_view()[x].1.len()
                ==> spec_bucket_date(#[trigger] v.deep_view()[x].1[y]) == Some(
                v.deep_view()[x].0,
            )),
{
    let n = v.len();
    let mut i: usize = 0;
    while i < n
        invariant
            n == v.len(),
            i <= n,
            forall|x: int, y: int|
                0 <= x < i && 0 <= y < v.deep_view()[x].1.len() ==> spec_bucket_date(
                    #[trigger] v.deep_view()[x].1[y],
                ) == Some(v.deep_view()[x].0),
        decreases n - i,
    {
        let m = v[i].1.len();
        let mut j: usize = 0;
        while j < m
            invariant
                n == v.len(),
                i < n,
                m == v@[i as int].1.len(),
                j <= m,
                forall|x: int, y: int|
                    0 <= x < i && 0 <= y < v.deep_view()[x].1.len() ==> spec_bucket_date(
                        #[trigger] v.deep_view()[x].1[y],
                    ) == Some(v.deep_view()[x].0),
                forall|y: int|
                    0 <= y < j ==> spec_bucket_date(#[trigger] v.deep_view()[i as int].1[y])
                        == Some(v.deep_view()[i as int].0),
            decreases m - j,
        {
            let ok = match v[i].1[j].bucket_date() {
                Some(d) => d == v[i].0,
                None => false,
            };
            proof {
                assert(v.deep_view()[i as int].1[j as int] == v@[i as int].1@[j as int]@);
                assert(v.deep_view()[i as int].0 == v@[i as int].0);
            }
            if !ok {
                return false;
            }
            j = j + 1;
        }
        i = i + 1;
    }
    true
}

/// Decides whether a cache is well formed, as [`Cache::wf`] reads it.
pub fn check_wf(cache: &Cache) -> (r: bool)
    ensures
        r == cache.wf(),
{
    let a = distinct_string_keys(&cache.sync_tokens);
    if !a {
        return false;
    }
    let b = distinct_date_keys(&cache.events);
    if !b {
        return false;
    }
    let c = distinct_string_keys(&cache.colors.entries);
    if !c {
        return false;
    }
    buckets_consistent(&cache.events)
}

/// Reads a whole cache from the persisted text: the text must hold exactly
/// one cache, with nothing after it, and the cache must be well formed.
pub fn parse_cache(s: &str) -> (r: Option<Cache>)
    ensures
        match sp_cache(s@) {
            None => r is None,
            Some((rep, c)) => if c == s@.len() && rep_wf(rep) {
                r matches Some(cache) && cache.rep() == rep && cache.wf()
            } else {
                r is None
            },
        },
{
    let n = s.unicode_len();
    proof {
        assert(s@.skip(0) =~= s@);
    }
    let (tokens, j1) = match parse_token_list(s, n, 0) {
        None => {
            return None;
        },
        Some(p) => p,
    };
    let (buckets, j2) = match parse_bucket_list(s, n, j1) {
        None => {
            return None;
        },
        Some(p) => p,
    };
    let (cals, j3) = match parse_cal_list(s, n, j2) {
        None => {
            return None;
        },
        Some(p) => p,
    };
    let (colors, j4) = match parse_color_list(s, n, j3) {
        None => {
            return None;
        },
        Some(p) => p,
    };
    let cache = Cache {
        sync_tokens: tokens,
        events: buckets,
        calendars: cals,
        colors: ColorPalette { entries: colors },
    };
    proof {
        let rep = sp_cache(s@).unwrap().0;
        assert(cache.rep() =~= rep);
    }
    if j4 != n {
        return None;
    }
    if !check_wf(&cache) {
        return None;
    }
    Some(cache)
}

/// How loading the persisted cache went.
#[derive(Clone, Copy, Debug, PartialEq, Eq, Structural)]
pub enum LoadOutcome {
    /// The file was read and held a well-formed cache.
    Loaded,
    /// There was no file; a sync has never completed here. The cache starts
    /// empty.
    Missing,
    /// The file could not be read as a cache. The cache starts empty — data
    /// loss, reported, never fatal.
    Corrupt,
}

/// Builds the starting cache from the persisted file's contents, `None`
/// standing for a missing file. A file the format cannot read in full, or
/// whose contents break the cache's invariants, is reported as corrupt and
/// replaced by the empty cache.
pub fn load_cache(contents: Option<&str>) -> (r: (Cache, LoadOutcome))
    ensures
        r.0.wf(),
        match contents {
            None => r.1 is Missing && r.0@ == Cache::spec_empty(),
            Some(text) => match sp_cache(text@) {
                Some((rep, c)) => if c == text@.len() && rep_wf(rep) {
                    r.1 is Loaded && r.0.rep() == rep
                } else {
                    r.1 is Corrupt && r.0@ == Cache::spec_empty()
                },
                None => r.1 is Corrupt && r.0@ == Cache::spec_empty(),
            },
        },
{
    match contents {
        None => (Cache::new(), LoadOutcome::Missing),
        Some(text) => match parse_cache(text) {
            Some(c) => (c, LoadOutcome::Loaded),
            None => (Cache::new(), LoadOutcome::Corrupt),
        },
    }
}

} // verus!
