//! The local cache: a date-indexed mirror of remote calendar state.
//!
//! The cache holds date buckets of events, calendar descriptors, the colour
//! palette, and one opaque sync token per calendar. Its maps are stored as
//! vectors of pairs with distinct keys (see [`crate::kv`]); contracts speak
//! of the maps those vectors denote, through [`CacheModel`].

use vstd::prelude::*;
use crate::date::Date;
use crate::event::{Event, EventModel, spec_bucket_date};
use crate::kv::{assoc_map, distinct_keys, lemma_assoc_map_contains, lemma_assoc_map_index,
    lemma_assoc_map_push, lemma_assoc_map_update};

verus! {

/// A calendar as listed by the remote service: its id and its display name.
/// The list is refreshed by full overwrite on every sync, never merged.
#[derive(Clone, Debug, PartialEq, Eq)]
pub struct CalendarDescriptor {
    pub id: Option<String>,
    pub summary: Option<String>,
}

/// Mathematical image of a [`CalendarDescriptor`].
pub ghost struct CalendarDescriptorModel {
    pub id: Option<Seq<char>>,
    pub summary: Option<Seq<char>>,
}

impl View for CalendarDescriptor {
    type V = CalendarDescriptorModel;

    open spec fn view(&self) -> CalendarDescriptorModel {
        CalendarDescriptorModel { id: self.id.deep_view(), summary: self.summary.deep_view() }
    }
}

impl DeepView for CalendarDescriptor {
    type V = CalendarDescriptorModel;

    open spec fn deep_view(&self) -> CalendarDescriptorModel {
        self.view()
    }
}

/// A foreground/background pair from the colour palette.
#[derive(Clone, Debug, PartialEq, Eq)]
pub struct ColorDefinition {
    pub foreground: Option<String>,
    pub background: Option<String>,
}

/// Mathematical image of a [`ColorDefinition`].
pub ghost struct ColorDefinitionModel {
    pub foreground: Option<Seq<char>>,
    pub background: Option<Seq<char>>,
}

impl View for ColorDefinition {
    type V = ColorDefinitionModel;

    open spec fn view(&self) -> ColorDefinitionModel {
        ColorDefinitionModel {
            foreground: self.foreground.deep_view(),
            background: self.background.deep_view(),
        }
    }
}

impl DeepView for ColorDefinition {
    type V = ColorDefinitionModel;

    open spec fn deep_view(&self) -> ColorDefinitionModel {
        self.view()
    }
}

/// The palette of event colours, keyed by colour id; refreshed by full
/// overwrite.
#[derive(Clone, Debug, PartialEq, Eq)]
pub struct ColorPalette {
    pub entries: Vec<(String, ColorDefinition)>,
}

impl ColorPalette {
    /// The entries as a sequence of key/value pairs.
    pub open spec fn rep(&self) -> Seq<(Seq<char>, ColorDefinitionModel)> {
        self.entries.deep_view()
    }

    /// The entries carry distinct colour ids.
    pub open spec fn wf(&self) -> bool {
        distinct_keys(self.rep())
    }

    pub fn new() -> (r: ColorPalette)
        ensures
            r.wf(),
            r@ == Map::<Seq<char>, ColorDefinitionModel>::empty(),
    {
        let r = ColorPalette { entries: Vec::new() };
        proof {
            assert(r.rep() =~= Seq::<(Seq<char>, ColorDefinitionModel)>::empty());
        }
        r
    }

    /// Builds a palette from listed entries; a later entry for a colour id
    /// overrides an earlier one, as in the map the list denotes.
    pub fn from_entries(entries: Vec<(String, ColorDefinition)>) -> (r: ColorPalette)
        ensures
            r.wf(),
            r@ == assoc_map(entries.deep_view()),
    {
        let mut r = ColorPalette { entries: Vec::new() };
        proof {
            assert(r.rep() =~= Seq::<(Seq<char>, ColorDefinitionModel)>::empty());
            assert(entries.deep_view().take(0) =~= Seq::<(Seq<char>, ColorDefinitionModel)>::empty());
        }
        let n = entries.len();
        let mut entries = entries;
        let ghost all = entries.deep_view();
        // consume the input front to back, inserting each pair
        let mut i: usize = 0;
        while i < n
            invariant
                n == all.len(),
                i <= n,
                entries.len() == n - i,
                entries.deep_view() =~= all.skip(i as int),
                r.wf(),
                assoc_map(r.rep()) == assoc_map(all.take(i as int)),
            decreases n - i,
        {
            let ghost edeep0 = entries.deep_view();
            let ghost esh0 = entries@;
            let (key, value) = entries.remove(0);
            proof {
                assert(edeep0[0] == (key@, value@));
                assert(all[i as int] == (key@, value@));
                assert forall|k: int| 0 <= k < entries.deep_view().len()
                    implies entries.deep_view()[k] == all.skip(i as int + 1)[k] by {
                    assert(entries@[k] == esh0[k + 1]);
                    assert(entries.deep_view()[k] == edeep0[k + 1]);
                    assert(edeep0[k + 1] == all.skip(i as int)[k + 1]);
                    assert(all.skip(i as int)[k + 1] == all[i as int + 1 + k]);
                }
                assert(entries.deep_view() =~= all.skip(i as int + 1));
            }
            r.set_entry(key, value);
            proof {
                assert(all.take(i as int + 1).drop_last() =~= all.take(i as int));
                assert(all.take(i as int + 1).last() == all[i as int]);
            }
            i = i + 1;
        }
        proof {
            assert(all.take(n as int) =~= all);
        }
        r
    }

    /// Inserts or overwrites the entry for one colour id.
    fn set_entry(&mut self, key: String, value: ColorDefinition)
        requires
            old(self).wf(),
        ensures
            final(self).wf(),
            final(self)@ == old(self)@.insert(key@, value@),
    {
        let n = self.entries.len();
        let mut i: usize = 0;
        while i < n
            invariant
                n == self.entries.len(),
                i <= n,
                *self == *old(self),
                self.wf(),
                forall|k: int| 0 <= k < i ==> (#[trigger] self.entries@[k]).0@ != key@,
            decreases n - i,
        {
            if *&self.entries[i].0 == key {
                let ghost orep = self.rep();
                self.entries[i].1 = value;
                proof {
                    assert(self.rep() =~~= orep.update(i as int, (orep[i as int].0, value@)));
                    assert(orep[i as int].0 == key@);
                    lemma_assoc_map_update(orep, i as int, value@);
                }
                return;
            }
            i = i + 1;
        }
        let ghost orep = self.rep();
        self.entries.push((key, value));
        proof {
            assert(self.rep() =~~= orep.push((key@, value@)));
            lemma_assoc_map_push(orep, key@, value@);
            assert forall|x: int, y: int|
                0 <= x < y < self.rep().len() implies (#[trigger] self.rep()[x]).0 != (#[trigger] self.rep()[y]).0 by {
                if y == self.rep().len() - 1 {
                    assert(orep[x].0 == self.entries@[x].0@);
                }
            }
        }
    }

    /// Looks up the definition stored for a colour id.
    pub fn get(&self, color_id: &String) -> (r: Option<&ColorDefinition>)
        requires
            self.wf(),
        ensures
            match r {
                Some(d) => self@.contains_key(color_id@) && self@[color_id@] == d@,
                None => !self@.contains_key(color_id@),
            },
    {
        let n = self.entries.len();
        let mut i: usize = 0;
        while i < n
            invariant
                self.wf(),
                n == self.entries.len(),
                i <= n,
                forall|k: int| 0 <= k < i ==> (#[trigger] self.entries@[k]).0@ != color_id@,
            decreases n - i,
        {
            if *&self.entries[i].0 == *color_id {
                proof {
                    lemma_assoc_map_index(self.rep(), i as int);
                }
                return Some(&self.entries[i].1);
            }
            i = i + 1;
        }
        proof {
            lemma_assoc_map_contains(self.rep(), color_id@);
        }
        None
    }
}

impl View for ColorPalette {
    type V = Map<Seq<char>, ColorDefinitionModel>;

    open spec fn view(&self) -> Map<Seq<char>, ColorDefinitionModel> {
        assoc_map(self.rep())
    }
}

/// A [`Cache`] as it is laid out: its four parts as sequences, in storage
/// order. The persisted file is written from this; [`CacheModel`] is the
/// map reading of it.
#[verifier::ext_equal]
pub ghost struct CacheRep {
    pub tokens: Seq<(Seq<char>, Seq<char>)>,
    pub buckets: Seq<(Date, Seq<EventModel>)>,
    pub calendars: Seq<CalendarDescriptorModel>,
    pub colors: Seq<(Seq<char>, ColorDefinitionModel)>,
}

/// Well-formedness over a layout: distinct keys in all three maps, and
/// every event in the bucket of its own start date.
pub open spec fn rep_wf(r: CacheRep) -> bool {
    &&& distinct_keys(r.tokens)
    &&& distinct_keys(r.buckets)
    &&& distinct_keys(r.colors)
    &&& forall|i: int, j: int|
        0 <= i < r.buckets.len() && 0 <= j < r.buckets[i].1.len()
            ==> spec_bucket_date(#[trigger] r.buckets[i].1[j]) == Some(r.buckets[i].0)
}

/// What a [`Cache`] means: its four parts read as maps and sequences of
/// plain values.
#[verifier::ext_equal]
pub ghost struct CacheModel {
    pub sync_tokens: Map<Seq<char>, Seq<char>>,
    pub events: Map<Date, Seq<EventModel>>,
    pub calendars: Seq<CalendarDescriptorModel>,
    pub colors: Map<Seq<char>, ColorDefinitionModel>,
}

/// The bucket a model holds for a date, empty when the date is absent.
pub open spec fn spec_bucket(m: CacheModel, d: Date) -> Seq<EventModel> {
    if m.events.contains_key(d) {
        m.events[d]
    } else {
        Seq::empty()
    }
}

/// What an upsert does to the model: the event is appended to the bucket of
/// its start date, which is created when absent; nothing else changes.
pub open spec fn spec_upsert(m: CacheModel, e: EventModel) -> CacheModel {
    let d = spec_bucket_date(e).unwrap();
    CacheModel { events: m.events.insert(d, spec_bucket(m, d).push(e)), ..m }
}

/// The id an event can be targeted for removal by: its id when present and
/// non-empty, nothing otherwise.
pub open spec fn spec_usable_id(e: EventModel) -> Option<Seq<char>> {
    match e.id {
        Some(s) => if s.len() > 0 {
            Some(s)
        } else {
            None
        },
        None => None,
    }
}

/// How a removal reports itself.
#[derive(Clone, Copy, Debug, PartialEq, Eq, Structural)]
pub enum RemoveOutcome {
    /// The event's bucket exists; every entry carrying the event's id was
    /// removed (there may have been none).
    Removed,
    /// The event determines no date, or its bucket is absent: the cache is
    /// unchanged. Reported, not an error — the event was already missing.
    NoBucket,
    /// The event has no usable id and cannot be targeted: a reported skip.
    NoId,
}

/// Which outcome a removal reports, given the model it runs against.
pub open spec fn spec_remove_outcome(m: CacheModel, e: EventModel) -> RemoveOutcome {
    if spec_usable_id(e) is None {
        RemoveOutcome::NoId
    } else if spec_bucket_date(e) is None {
        RemoveOutcome::NoBucket
    } else if !m.events.contains_key(spec_bucket_date(e).unwrap()) {
        RemoveOutcome::NoBucket
    } else {
        RemoveOutcome::Removed
    }
}

/// A bucket with every entry carrying `id` removed; entries with another
/// id, or with none, stay, in their order.
pub open spec fn spec_without_id(bucket: Seq<EventModel>, id: Seq<char>) -> Seq<EventModel> {
    bucket.filter(|x: EventModel| x.id != Some(id))
}

/// What a removal does to the model: in the `Removed` case exactly the
/// entries of the event's bucket whose id equals the event's id disappear;
/// in every other case the model is unchanged.
pub open spec fn spec_remove(m: CacheModel, e: EventModel) -> CacheModel {
    if spec_remove_outcome(m, e) is Removed {
        let d = spec_bucket_date(e).unwrap();
        let id = spec_usable_id(e).unwrap();
        CacheModel { events: m.events.insert(d, spec_without_id(m.events[d], id)), ..m }
    } else {
        m
    }
}

/// The cache: date buckets of events, calendar descriptors, colours, and
/// one sync token per calendar id.
#[derive(Debug, PartialEq, Eq)]
pub struct Cache {
    pub sync_tokens: Vec<(String, String)>,
    pub events: Vec<(Date, Vec<Event>)>,
    pub calendars: Vec<CalendarDescriptor>,
    pub colors: ColorPalette,
}

impl View for Cache {
    type V = CacheModel;

    open spec fn view(&self) -> CacheModel {
        CacheModel {
            sync_tokens: assoc_map(self.tokens_rep()),
            events: assoc_map(self.events_rep()),
            calendars: self.calendars.deep_view(),
            colors: self.colors@,
        }
    }
}

impl Cache {
    /// The token store as a sequence of key/value pairs.
    pub open spec fn tokens_rep(&self) -> Seq<(Seq<char>, Seq<char>)> {
        self.sync_tokens.deep_view()
    }

    /// The bucket store as a sequence of key/value pairs.
    pub open spec fn events_rep(&self) -> Seq<(Date, Seq<EventModel>)> {
        self.events.deep_view()
    }

    /// The cache's layout, the thing persistence writes and reads.
    pub open spec fn rep(&self) -> CacheRep {
        CacheRep {
            tokens: self.tokens_rep(),
            buckets: self.events_rep(),
            calendars: self.calendars.deep_view(),
            colors: self.colors.rep(),
        }
    }

    /// Well-formedness: all three maps carry distinct keys, and every event
    /// sits in the bucket of its own start date.
    pub open spec fn wf(&self) -> bool {
        rep_wf(self.rep())
    }

    /// The empty model.
    pub open spec fn spec_empty() -> CacheModel {
        CacheModel {
            sync_tokens: Map::empty(),
            events: Map::empty(),
            calendars: Seq::empty(),
            colors: Map::empty(),
        }
    }

    /// An empty cache.
    pub fn new() -> (r: Cache)
        ensures
            r.wf(),
            r@ == Self::spec_empty(),
    {
        let r = Cache {
            sync_tokens: Vec::new(),
            events: Vec::new(),
            calendars: Vec::new(),
            colors: ColorPalette::new(),
        };
        proof {
            assert(r.tokens_rep() =~= Seq::<(Seq<char>, Seq<char>)>::empty());
            assert(r.events_rep() =~= Seq::<(Date, Seq<EventModel>)>::empty());
            assert(r.calendars.deep_view() =~= Seq::<CalendarDescriptorModel>::empty());
            assert(r@ =~= Self::spec_empty());
        }
        r
    }

    /// The index of the bucket for a date, if one exists.
    fn find_bucket(&self, date: Date) -> (r: Option<usize>)
        ensures
            match r {
                Some(i) => i < self.events@.len() && self.events@[i as int].0 == date,
                None => forall|k: int|
                    0 <= k < self.events@.len() ==> (#[trigger] self.events@[k]).0 != date,
            },
    {
        let n = self.events.len();
        let mut i: usize = 0;
        while i < n
            invariant
                n == self.events.len(),
                i <= n,
                forall|k: int| 0 <= k < i ==> (#[trigger] self.events@[k]).0 != date,
            decreases n - i,
        {
            if self.events[i].0 == date {
                return Some(i);
            }
            i = i + 1;
        }
        None
    }

    /// Appends `event` to the bucket of its start date, creating the bucket
    /// when absent. No entry is deduplicated and no order is imposed beyond
    /// insertion order.
    pub fn upsert(&mut self, event: Event)
        requires
            old(self).wf(),
            spec_bucket_date(event@) is Some,
        ensures
            final(self).wf(),
            final(self)@ == spec_upsert(old(self)@, event@),
    {
        let date = event.bucket_date().unwrap();
        let ghost orep = self.events_rep();
        match self.find_bucket(date) {
            Some(i) => {
                proof {
                    lemma_assoc_map_index(orep, i as int);
                    assert(orep[i as int].0 == date);
                }
                self.events[i].1.push(event);
                proof {
                    assert(self.events_rep() =~~= orep.update(
                        i as int,
                        (date, orep[i as int].1.push(event@)),
                    ));
                    lemma_assoc_map_update(orep, i as int, orep[i as int].1.push(event@));
                    assert(self@ =~= spec_upsert(old(self)@, event@));
                }
            },
            None => {
                proof {
                    lemma_assoc_map_contains(orep, date);
                    assert(!old(self)@.events.contains_key(date)) by {
                        if exists|k: int| 0 <= k < orep.len() && (#[trigger] orep[k]).0 == date {
                            let k = choose|k: int| 0 <= k < orep.len() && (#[trigger] orep[k]).0 == date;
                            assert(self.events@[k].0 == date);
                        }
                    }
                }
                let mut bucket: Vec<Event> = Vec::new();
                bucket.push(event);
                self.events.push((date, bucket));
                proof {
                    assert(self.events_rep() =~~= orep.push((date, seq![event@])));
                    lemma_assoc_map_push(orep, date, seq![event@]);
                    assert(spec_bucket(old(self)@, date).push(event@) =~= seq![event@]);
                    assert forall|x: int, y: int|
                        0 <= x < y < self.events_rep().len()
                        implies (#[trigger] self.events_rep()[x]).0 != (#[trigger] self.events_rep()[y]).0 by {
                        if y == self.events_rep().len() - 1 {
                            assert(orep[x].0 == self.events@[x].0);
                        }
                    }
                    assert(self@ =~= spec_upsert(old(self)@, event@));
                }
            },
        }
    }

    /// Removes from the bucket the event would occupy every entry whose id
    /// equals the event's id, and reports what happened. An event with no
    /// usable id, or whose bucket is absent, leaves the cache unchanged.
    pub fn remove(&mut self, event: &Event) -> (r: RemoveOutcome)
        requires
            old(self).wf(),
        ensures
            final(self).wf(),
            r == spec_remove_outcome(old(self)@, event@),
            final(self)@ == spec_remove(old(self)@, event@),
    {
        let id: &String = match &event.id {
            None => {
                return RemoveOutcome::NoId;
            },
            Some(s) => {
                if s.as_str().is_empty() {
                    return RemoveOutcome::NoId;
                }
                s
            },
        };
        let date = match event.bucket_date() {
            None => {
                return RemoveOutcome::NoBucket;
            },
            Some(d) => d,
        };
        let ghost orep = self.events_rep();
        let i = match self.find_bucket(date) {
            None => {
                proof {
                    lemma_assoc_map_contains(orep, date);
                    if exists|k: int| 0 <= k < orep.len() && (#[trigger] orep[k]).0 == date {
                        let k = choose|k: int| 0 <= k < orep.len() && (#[trigger] orep[k]).0 == date;
                        assert(self.events@[k].0 == date);
                    }
                }
                return RemoveOutcome::NoBucket;
            },
            Some(i) => i,
        };
        proof {
            lemma_assoc_map_index(orep, i as int);
        }
        let ghost orig = orep[i as int].1;
        let pair = self.events.remove(i);
        let bucket_date = pair.0;
        let mut rest = pair.1;
        let mut kept: Vec<Event> = Vec::new();
        proof {
            reveal(Seq::filter);
            assert(rest.deep_view() =~= orig.skip(0));
            assert(orig.take(0) =~= Seq::<EventModel>::empty());
            assert(kept.deep_view() =~= spec_without_id(orig.take(0), id@));
        }
        let total = rest.len();
        proof {
            assert(orig.len() == total as int);
        }
        let mut consumed: usize = 0;
        while rest.len() > 0
            invariant
                consumed <= total,
                orig.len() == total as int,
                rest.deep_view() =~= orig.skip(consumed as int),
                rest.len() == total - consumed,
                kept.deep_view() =~= spec_without_id(orig.take(consumed as int), id@),
                forall|k: int|
                    0 <= k < kept.deep_view().len()
                        ==> (#[trigger] kept.deep_view()[k]).id != Some(id@),
                forall|k: int|
                    0 <= k < kept.deep_view().len()
                        ==> spec_bucket_date(#[trigger] kept.deep_view()[k]) == Some(date),
                forall|k: int|
                    0 <= k < orig.len() ==> spec_bucket_date(#[trigger] orig[k]) == Some(date),
            decreases rest.len(),
        {
            let ghost rest0 = rest.deep_view();
            let ghost rsh0 = rest@;
            let e = rest.remove(0);
            proof {
                assert(e@ == rest0[0]);
                assert(e@ == orig[consumed as int]);
                assert forall|k: int| 0 <= k < rest.deep_view().len()
                    implies rest.deep_view()[k] == orig.skip(consumed as int + 1)[k] by {
                    assert(rest@[k] == rsh0[k + 1]);
                    assert(rest.deep_view()[k] == rest0[k + 1]);
                    assert(rest0[k + 1] == orig.skip(consumed as int)[k + 1]);
                    assert(orig.skip(consumed as int)[k + 1] == orig[consumed as int + 1 + k]);
                }
                assert(rest.deep_view() =~= orig.skip(consumed as int + 1));
            }
            let keep = match &e.id {
                None => true,
                Some(s) => !(*s == *id),
            };
            proof {
                reveal(Seq::filter);
                let t = orig.take(consumed as int + 1);
                assert(t.drop_last() =~= orig.take(consumed as int));
                assert(t.last() == orig[consumed as int]);
                assert(keep == ((|x: EventModel| x.id != Some(id@))(e@)));
                if keep {
                    assert(spec_without_id(t, id@) == spec_without_id(
                        orig.take(consumed as int),
                        id@,
                    ).push(e@));
                } else {
                    assert(spec_without_id(t, id@) == spec_without_id(
                        orig.take(consumed as int),
                        id@,
                    ));
                }
            }
            let ghost kept0 = kept.deep_view();
            if keep {
                kept.push(e);
                proof {
                    assert(kept.deep_view() =~= kept0.push(e@));
                }
            }
            consumed = consumed + 1;
        }
        proof {
            assert(orig.take(total as int) =~= orig);
        }
        self.events.insert(i, (bucket_date, kept));
        proof {
            assert(self.events_rep() =~~= orep.update(i as int, (date, spec_without_id(orig, id@))));
            lemma_assoc_map_update(orep, i as int, spec_without_id(orig, id@));
            assert(spec_usable_id(event@) == Some(id@));
            assert(self@ =~= spec_remove(old(self)@, event@));
        }
        RemoveOutcome::Removed
    }

    /// The events of one date bucket, in insertion order; `None` when the
    /// date has no bucket, which differs from an empty bucket.
    pub fn events_on(&self, date: Date) -> (r: Option<&Vec<Event>>)
        requires
            self.wf(),
        ensures
            match r {
                Some(v) => self@.events.contains_key(date) && v.deep_view() == self@.events[date],
                None => !self@.events.contains_key(date),
            },
    {
        match self.find_bucket(date) {
            Some(i) => {
                proof {
                    lemma_assoc_map_index(self.events_rep(), i as int);
                }
                Some(&self.events[i].1)
            },
            None => {
                proof {
                    lemma_assoc_map_contains(self.events_rep(), date);
                    if exists|k: int|
                        0 <= k < self.events_rep().len() && (#[trigger] self.events_rep()[k]).0 == date {
                        let k = choose|k: int|
                            0 <= k < self.events_rep().len() && (#[trigger] self.events_rep()[k]).0 == date;
                        assert(self.events@[k].0 == date);
                    }
                }
                None
            },
        }
    }

    /// The sync token stored for a calendar id, if any. Absence means the
    /// next sync of that calendar must be a full sync.
    pub fn sync_token(&self, calendar_id: &String) -> (r: Option<&String>)
        requires
            self.wf(),
        ensures
            match r {
                Some(t) => self@.sync_tokens.contains_key(calendar_id@)
                    && t@ == self@.sync_tokens[calendar_id@],
                None => !self@.sync_tokens.contains_key(calendar_id@),
            },
    {
        let n = self.sync_tokens.len();
        let mut i: usize = 0;
        while i < n
            invariant
                self.wf(),
                n == self.sync_tokens.len(),
                i <= n,
                forall|k: int| 0 <= k < i ==> (#[trigger] self.sync_tokens@[k]).0@ != calendar_id@,
            decreases n - i,
        {
            if *&self.sync_tokens[i].0 == *calendar_id {
                proof {
                    lemma_assoc_map_index(self.tokens_rep(), i as int);
                }
                return Some(&self.sync_tokens[i].1);
            }
            i = i + 1;
        }
        proof {
            lemma_assoc_map_contains(self.tokens_rep(), calendar_id@);
        }
        None
    }

    /// Stores `token` for `calendar_id`, replacing any previous token.
    pub fn set_sync_token(&mut self, calendar_id: String, token: String)
        requires
            old(self).wf(),
        ensures
            final(self).wf(),
            final(self)@ == (CacheModel {
                sync_tokens: old(self)@.sync_tokens.insert(calendar_id@, token@),
                ..old(self)@
            }),
    {
        let n = self.sync_tokens.len();
        let mut i: usize = 0;
        while i < n
            invariant
                n == self.sync_tokens.len(),
                i <= n,
                *self == *old(self),
                self.wf(),
                forall|k: int| 0 <= k < i ==> (#[trigger] self.sync_tokens@[k]).0@ != calendar_id@,
            decreases n - i,
        {
            if *&self.sync_tokens[i].0 == calendar_id {
                let ghost orep = self.tokens_rep();
                self.sync_tokens[i].1 = token;
                proof {
                    assert(self.tokens_rep() =~~= orep.update(i as int, (orep[i as int].0, token@)));
                    assert(orep[i as int].0 == calendar_id@);
                    lemma_assoc_map_update(orep, i as int, token@);
                    assert(self@ =~= (CacheModel {
                        sync_tokens: old(self)@.sync_tokens.insert(calendar_id@, token@),
                        ..old(self)@
                    }));
                }
                return;
            }
            i = i + 1;
        }
        let ghost orep = self.tokens_rep();
        self.sync_tokens.push((calendar_id, token));
        proof {
            assert(self.tokens_rep() =~~= orep.push((calendar_id@, token@)));
            lemma_assoc_map_push(orep, calendar_id@, token@);
            assert forall|x: int, y: int|
                0 <= x < y < self.tokens_rep().len()
                implies (#[trigger] self.tokens_rep()[x]).0 != (#[trigger] self.tokens_rep()[y]).0 by {
                if y == self.tokens_rep().len() - 1 {
                    assert(orep[x].0 == self.sync_tokens@[x].0@);
                }
            }
            assert(self@ =~= (CacheModel {
                sync_tokens: old(self)@.sync_tokens.insert(calendar_id@, token@),
                ..old(self)@
            }));
        }
    }

    /// The calendar list as of the last completed fetch.
    pub fn get_calendars(&self) -> (r: &Vec<CalendarDescriptor>)
        ensures
            r.deep_view() == self@.calendars,
    {
        &self.calendars
    }

    /// Overwrites the calendar list, replacing the previous one entirely.
    pub fn set_calendars(&mut self, calendars: Vec<CalendarDescriptor>)
        requires
            old(self).wf(),
        ensures
            final(self).wf(),
            final(self)@ == (CacheModel { calendars: calendars.deep_view(), ..old(self)@ }),
    {
        self.calendars = calendars;
        proof {
            assert(self@ =~= (CacheModel { calendars: self.calendars.deep_view(), ..old(self)@ }));
        }
    }

    /// Overwrites the colour palette, replacing the previous one entirely.
    pub fn set_colors(&mut self, colors: ColorPalette)
        requires
            old(self).wf(),
            colors.wf(),
        ensures
            final(self).wf(),
            final(self)@ == (CacheModel { colors: colors@, ..old(self)@ }),
    {
        self.colors = colors;
        proof {
            assert(self@ =~= (CacheModel { colors: self.colors@, ..old(self)@ }));
        }
    }
}

/// The model after a sequence of upserts, in order.
pub open spec fn spec_upsert_all(m: CacheModel, es: Seq<EventModel>) -> CacheModel
    decreases es.len(),
{
    if es.len() == 0 {
        m
    } else {
        spec_upsert(spec_upsert_all(m, es.drop_last()), es.last())
    }
}

/// Law: when events that all determine the same date `d` are upserted in
/// order — in particular events with distinct ids — `d`'s bucket afterwards
/// holds exactly what it held before followed by exactly those events, in
/// insertion order, and no other part of the cache changes.
pub proof fn lemma_upserts_fill_bucket(m: CacheModel, es: Seq<EventModel>, d: Date)
    requires
        es.len() > 0,
        forall|i: int| 0 <= i < es.len() ==> spec_bucket_date(#[trigger] es[i]) == Some(d),
        forall|i: int, j: int| 0 <= i < j < es.len() ==> (#[trigger] es[i]).id != (#[trigger] es[j]).id,
    ensures
        spec_upsert_all(m, es).events.contains_key(d),
        spec_upsert_all(m, es).events[d] == spec_bucket(m, d) + es,
        forall|d2: Date| d2 != d ==> spec_upsert_all(m, es).events.contains_key(d2)
            == m.events.contains_key(d2),
        forall|d2: Date| d2 != d && m.events.contains_key(d2)
            ==> spec_upsert_all(m, es).events[d2] == m.events[d2],
        spec_upsert_all(m, es).sync_tokens == m.sync_tokens,
        spec_upsert_all(m, es).calendars == m.calendars,
        spec_upsert_all(m, es).colors == m.colors,
    decreases es.len(),
{
    if es.len() == 1 {
        assert(spec_upsert_all(m, es) == spec_upsert(spec_upsert_all(m, es.drop_last()), es.last()));
        assert(es.drop_last().len() == 0);
        assert(spec_upsert_all(m, es.drop_last()) == m);
        assert(spec_bucket(m, d).push(es[0]) =~= spec_bucket(m, d) + es);
    } else {
        lemma_upserts_fill_bucket(m, es.drop_last(), d);
        let prev = spec_upsert_all(m, es.drop_last());
        assert(spec_bucket(prev, d) == spec_bucket(m, d) + es.drop_last());
        assert(spec_bucket(prev, d).push(es.last()) =~= spec_bucket(m, d) + es);
    }
}

} // verus!
