//! Definitions for most stored module data.

use vstd::prelude::*;

verus! {

use crate::pitch::Note;
use core::ops::Neg;
use crate::timespan::{Timespan, lemma_le_trans, add_ok, add_view, less_value, same_value, neg_view, round_half_away};

pub const GLOBAL_COLUMN: u8 = 0;
pub const NOTE_COLUMN: u8 = 0;
pub const VEL_COLUMN: u8 = 1;
pub const MOD_COLUMN: u8 = 2;

/// Maximum value in a digit column.
pub const DIGIT_MAX: u8 = 0xf;

/// Binary or'ed with "spatial column" value.
pub const INTERP_COL_FLAG: u8 = 0x80;

/// Kit mapping.
#[derive(Clone, Copy, PartialEq, Eq, Debug, Structural)]
pub struct KitEntry {
    pub input_note: Note,
    pub patch_index: usize,
    pub patch_note: Note,
}

impl Default for KitEntry {
    fn default() -> (r: KitEntry)
        ensures
            r.input_note == (Note { arrows: 0, nominal: crate::pitch::Nominal::C, sharps: 0, equave: 4 }),
            r.patch_index == 0,
            r.patch_note == (Note { arrows: 0, nominal: crate::pitch::Nominal::C, sharps: 0, equave: 4 }),
    {
        KitEntry { input_note: Note::default(), patch_index: 0, patch_note: Note::default() }
    }
}

/// Track "output" mapping.
#[derive(Clone, Copy, PartialEq, Eq, Debug, Structural)]
pub enum TrackTarget {
    /// Not mapped to anything.
    Unassigned,
    Global,
    Kit,
    Patch(usize),
}

/// Types of pattern event data. Real-valued data (tempos and interpolated
/// values) is held as the bit pattern of its `f32` value.
#[derive(Clone, Copy, PartialEq, Eq, Debug, Structural)]
pub enum EventData {
    Pitch(Note),
    NoteOff,
    Pressure(u8),
    Modulation(u8),
    Tempo(u32),
    RationalTempo(u8, u8),
    End,
    Loop,
    InterpolatedPitch(u32),
    InterpolatedPressure(u32),
    InterpolatedModulation(u32),
    StartGlide(u8),
    EndGlide(u8),
    TickGlide(u8),
    /// MIDI-style pitch bend. Data is cent offset from starting note.
    Bend(i16),
    /// Section marker. No effect on playback.
    Section,
}

/// The logical column of event data: interpolation markers carry their
/// column with the flag bit set.
pub open spec fn logical_column_spec(d: EventData) -> u8 {
    match d {
        EventData::Pressure(_) => VEL_COLUMN,
        EventData::Modulation(_) => MOD_COLUMN,
        EventData::StartGlide(col) => col | INTERP_COL_FLAG,
        EventData::EndGlide(col) => col | INTERP_COL_FLAG,
        EventData::TickGlide(col) => col | INTERP_COL_FLAG,
        _ => NOTE_COLUMN,
    }
}

/// The column where event data is drawn.
pub open spec fn spatial_column_spec(d: EventData) -> u8 {
    logical_column_spec(d) & !INTERP_COL_FLAG
}

/// Whether event data belongs in the track with the given index.
pub open spec fn goes_in_track_spec(d: EventData, track: usize) -> bool {
    match d {
        EventData::Bend(_) | EventData::Pressure(_) | EventData::Modulation(_)
        | EventData::NoteOff | EventData::Pitch(_) => track != 0,
        EventData::Tempo(_) | EventData::RationalTempo(_, _) | EventData::End
        | EventData::Loop | EventData::Section => track == 0,
        EventData::StartGlide(col) | EventData::EndGlide(col) | EventData::TickGlide(col) =>
            track != 0 || col == GLOBAL_COLUMN,
        EventData::InterpolatedModulation(_) | EventData::InterpolatedPitch(_)
        | EventData::InterpolatedPressure(_) => false,
    }
}

impl EventData {
    /// Convert a 7-bit MIDI value to a digit value: the nearest integer to
    /// `midi_value * 15 / 127`.
    pub fn digit_from_midi(midi_value: u8) -> (r: u8)
        ensures
            r == round_half_away(midi_value * DIGIT_MAX, 127),
    {
        ((midi_value as u16 * 30 + 127) / 254) as u8
    }

    /// Returns the column where the event should be drawn.
    pub fn spatial_column(&self) -> (r: u8)
        ensures
            r == spatial_column_spec(*self),
    {
        self.logical_column() & !INTERP_COL_FLAG
    }

    /// Returns a logical column value. Used to distinguish
    /// interpolation from "normal" events.
    pub fn logical_column(&self) -> (r: u8)
        ensures
            r == logical_column_spec(*self),
    {
        match *self {
            Self::Pressure(_) => VEL_COLUMN,
            Self::Modulation(_) => MOD_COLUMN,
            Self::StartGlide(col) | Self::EndGlide(col) | Self::TickGlide(col) => col
                | INTERP_COL_FLAG,
            _ => NOTE_COLUMN,
        }
    }

    /// Returns true if the data belongs in the given track index.
    pub fn goes_in_track(&self, track: usize) -> (r: bool)
        ensures
            r == goes_in_track_spec(*self, track),
    {
        match self {
            Self::Bend(_) | Self::Pressure(_) | Self::Modulation(_) | Self::NoteOff
            | Self::Pitch(_) => track != 0,
            Self::Tempo(_) | Self::RationalTempo(_, _) | Self::End | Self::Loop
            | Self::Section => track == 0,
            Self::StartGlide(col) | Self::EndGlide(col) | Self::TickGlide(col) => track != 0
                || *col == GLOBAL_COLUMN,
            Self::InterpolatedModulation(_) | Self::InterpolatedPitch(_)
            | Self::InterpolatedPressure(_) => false,
        }
    }
}

/// Channel event.
#[derive(Clone, Copy, Debug, PartialEq, Eq, Structural)]
pub struct Event {
    pub tick: Timespan,
    pub data: EventData,
}

/// Pattern position.
#[derive(Clone, Copy, Debug, PartialEq, Eq, Structural)]
pub struct Position {
    pub tick: Timespan,
    pub track: usize,
    pub channel: usize,
    /// Logical column, not spatial column.
    pub column: u8,
}

impl Position {
    pub fn new(tick: Timespan, track: usize, channel: usize, column: u8) -> (r: Self)
        ensures
            r == (Position { tick, track, channel, column }),
    {
        Self { tick, track, channel, column }
    }

    /// Returns a tuple of horizontal indices for comparison.
    pub fn x_tuple(&self) -> (r: (usize, usize, u8))
        ensures
            r == (self.track, self.channel, self.column),
    {
        (self.track, self.channel, self.column)
    }
}

/// Event with global location data, for the undo stack.
#[derive(Clone, Copy, Debug, PartialEq, Eq, Structural)]
pub struct LocatedEvent {
    pub track: usize,
    pub channel: usize,
    pub event: Event,
}

/// The position of a located event.
pub open spec fn located_position(e: LocatedEvent) -> Position {
    Position {
        tick: e.event.tick,
        track: e.track,
        channel: e.channel,
        column: logical_column_spec(e.event.data),
    }
}

impl LocatedEvent {
    /// The event `data` at `pos`.
    pub fn from_position(pos: Position, data: EventData) -> (r: Self)
        ensures
            r == (LocatedEvent {
                track: pos.track,
                channel: pos.channel,
                event: Event { tick: pos.tick, data },
            }),
    {
        Self { track: pos.track, channel: pos.channel, event: Event { tick: pos.tick, data } }
    }

    /// Returns the position of the event.
    pub fn position(&self) -> (r: Position)
        ensures
            r == located_position(*self),
    {
        Position {
            tick: self.event.tick,
            track: self.track,
            channel: self.channel,
            column: self.event.data.logical_column(),
        }
    }
}

/// Events are ordered by tick and then by spatial column.
pub open spec fn event_key_le(a: Event, b: Event) -> bool {
    ||| less_value(a.tick@, b.tick@)
    ||| (same_value(a.tick@, b.tick@) && spatial_column_spec(a.data) <= spatial_column_spec(b.data))
}

/// `e` inserted into `s` after every element whose key is not greater.
pub open spec fn insert_sorted(s: Seq<Event>, e: Event) -> Seq<Event>
    decreases s.len(),
{
    if s.len() == 0 {
        seq![e]
    } else if event_key_le(s.last(), e) {
        s.push(e)
    } else {
        insert_sorted(s.drop_last(), e).push(s.last())
    }
}

/// The stable sort of `s` by key: equal keys keep their relative order.
pub open spec fn sort_events_spec(s: Seq<Event>) -> Seq<Event>
    decreases s.len(),
{
    if s.len() == 0 {
        s
    } else {
        insert_sorted(sort_events_spec(s.drop_last()), s.last())
    }
}

/// Key comparison of two events.
fn event_key_le_exec(a: &Event, b: &Event) -> (r: bool)
    ensures
        r == event_key_le(*a, *b),
{
    if a.tick < b.tick {
        true
    } else if a.tick <= b.tick {
        a.data.spatial_column() <= b.data.spatial_column()
    } else {
        false
    }
}

pub(crate) proof fn lemma_insert_sorted_at(s: Seq<Event>, e: Event, k: int)
    requires
        0 <= k <= s.len(),
        forall|m: int| k <= m < s.len() ==> !event_key_le(#[trigger] s[m], e),
        k == 0 || event_key_le(s[k - 1], e),
    ensures
        insert_sorted(s, e) == s.take(k).push(e) + s.skip(k),
    decreases s.len(),
{
    if s.len() == 0 {
        assert(s.take(k).push(e) + s.skip(k) =~= seq![e]);
    } else if k == s.len() {
        assert(s.take(k) =~= s);
        assert(s.take(k).push(e) + s.skip(k) =~= s.push(e));
    } else {
        assert(!event_key_le(s.last(), e));
        let t = s.drop_last();
        assert forall|m: int| k <= m < t.len() implies !event_key_le(#[trigger] t[m], e) by {
            assert(t[m] == s[m]);
        }
        if k > 0 {
            assert(t[k - 1] == s[k - 1]);
        }
        lemma_insert_sorted_at(t, e, k);
        assert(t.take(k) =~= s.take(k));
        assert(t.take(k).push(e) + t.skip(k) + seq![s.last()] =~= s.take(k).push(e) + s.skip(k));
    }
}

/// Inserts `e` at its sorted place in `v`.
fn insert_event_sorted(v: &mut Vec<Event>, e: Event)
    ensures
        final(v)@ == insert_sorted(old(v)@, e),
{
    let mut j = v.len();
    while j > 0 && !event_key_le_exec(&v[j - 1], &e)
        invariant
            j <= v.len(),
            forall|m: int| j <= m < v.len() ==> !event_key_le(#[trigger] v@[m], e),
        decreases j,
    {
        j = j - 1;
    }
    proof {
        lemma_insert_sorted_at(v@, e, j as int);
    }
    v.insert(j, e);
    assert(v@ =~= old(v)@.take(j as int).push(e) + old(v)@.skip(j as int));
}

/// Contains an event sequence. Is a struct for legacy reasons.
#[derive(Clone, Debug)]
pub struct Channel {
    pub events: Vec<Event>,
}

impl Default for Channel {
    fn default() -> (r: Channel)
        ensures
            r.events@.len() == 0,
    {
        Channel { events: Vec::new() }
    }
}

impl Channel {
    /// Sort events in the channel by their position. Some functions expect
    /// channel data to be sorted.
    pub fn sort_events(&mut self)
        ensures
            final(self).events@ == sort_events_spec(old(self).events@),
    {
        let mut sorted: Vec<Event> = Vec::new();
        let mut i: usize = 0;
        while i < self.events.len()
            invariant
                i <= self.events.len(),
                self.events@ == old(self).events@,
                sorted@ == sort_events_spec(self.events@.take(i as int)),
            decreases self.events.len() - i,
        {
            proof {
                assert(self.events@.take(i as int + 1).drop_last() =~= self.events@.take(i as int));
            }
            let e = self.events[i];
            insert_event_sorted(&mut sorted, e);
            i = i + 1;
        }
        assert(self.events@.take(i as int) =~= self.events@);
        self.events = sorted;
    }
}

/// The zero fraction.
pub open spec fn zero_view() -> (int, int) {
    (0, 1)
}

/// Whether `e` stays when events are shifted by `distance` from `start`:
/// a backward shift deletes the events it moves onto, those in
/// `[start, start - distance)`.
pub open spec fn kept_on_shift(e: Event, start: Timespan, distance: Timespan) -> bool {
    ||| !less_value(distance@, zero_view())
    ||| less_value(e.tick@, start@)
    ||| !less_value(e.tick@, add_view(start@, neg_view(distance@)))
}

/// A tick after shifting: ticks from `start` on move by `distance`, but not
/// before zero.
pub open spec fn shifted_tick(t: (int, int), start: Timespan, distance: Timespan) -> (int, int) {
    if less_value(t, start@) {
        t
    } else if less_value(add_view(t, distance@), zero_view()) {
        zero_view()
    } else {
        add_view(t, distance@)
    }
}

/// An event after shifting.
pub open spec fn shifted_event(e: Event, start: Timespan, distance: Timespan) -> Event {
    Event { tick: Timespan::from_view(shifted_tick(e.tick@, start, distance)), data: e.data }
}

/// The events that stay, in order.
pub open spec fn shift_kept(s: Seq<Event>, start: Timespan, distance: Timespan) -> Seq<Event>
    decreases s.len(),
{
    if s.len() == 0 {
        s
    } else {
        let p = shift_kept(s.drop_last(), start, distance);
        if kept_on_shift(s.last(), start, distance) { p.push(s.last()) } else { p }
    }
}

/// The events that are deleted, in order.
pub open spec fn shift_deleted(s: Seq<Event>, start: Timespan, distance: Timespan) -> Seq<Event>
    decreases s.len(),
{
    if s.len() == 0 {
        s
    } else {
        let p = shift_deleted(s.drop_last(), start, distance);
        if kept_on_shift(s.last(), start, distance) { p } else { p.push(s.last()) }
    }
}

/// Shifting does not overflow: the deletion bound is computable and every
/// moved tick can be added to.
pub open spec fn shift_ok(s: Seq<Event>, start: Timespan, distance: Timespan) -> bool {
    &&& less_value(distance@, zero_view()) ==> distance@.0 != i32::MIN && add_ok(start@, neg_view(distance@))
    &&& forall|i: int| 0 <= i < s.len() && kept_on_shift(#[trigger] s[i], start, distance)
        && !less_value(s[i].tick@, start@) ==> add_ok(s[i].tick@, distance@)
}

proof fn lemma_shift_kept_step(s: Seq<Event>, start: Timespan, distance: Timespan, i: int)
    requires
        0 <= i < s.len(),
    ensures
        shift_kept(s.take(i + 1), start, distance) == if kept_on_shift(s[i], start, distance) {
            shift_kept(s.take(i), start, distance).push(s[i])
        } else {
            shift_kept(s.take(i), start, distance)
        },
        shift_deleted(s.take(i + 1), start, distance) == if kept_on_shift(s[i], start, distance) {
            shift_deleted(s.take(i), start, distance)
        } else {
            shift_deleted(s.take(i), start, distance).push(s[i])
        },
{
    assert(s.take(i + 1).drop_last() =~= s.take(i));
}

pub(crate) proof fn lemma_shift_kept_elements(s: Seq<Event>, start: Timespan, distance: Timespan)
    ensures
        forall|j: int| 0 <= j < shift_kept(s, start, distance).len() ==> {
            &&& kept_on_shift(#[trigger] shift_kept(s, start, distance)[j], start, distance)
            &&& s.contains(shift_kept(s, start, distance)[j])
        },
    decreases s.len(),
{
    if s.len() > 0 {
        lemma_shift_kept_elements(s.drop_last(), start, distance);
        let p = shift_kept(s.drop_last(), start, distance);
        assert forall|j: int| 0 <= j < shift_kept(s, start, distance).len() implies {
            &&& kept_on_shift(#[trigger] shift_kept(s, start, distance)[j], start, distance)
            &&& s.contains(shift_kept(s, start, distance)[j])
        } by {
            if j < p.len() {
                let x = p[j];
                assert(s.drop_last().contains(x));
                let k = choose|k: int| 0 <= k < s.drop_last().len() && s.drop_last()[k] == x;
                assert(s[k] == x);
            } else {
                assert(s[s.len() - 1] == s.last());
            }
        }
    }
}

impl Channel {
    /// Shifts events after `start` by `distance` ticks, returning deleted events.
    pub fn shift_events(&mut self, start: Timespan, distance: Timespan) -> (deleted: Vec<Event>)
        requires
            shift_ok(old(self).events@, start, distance),
        ensures
            deleted@ == shift_deleted(old(self).events@, start, distance),
            final(self).events@ == shift_kept(old(self).events@, start, distance).map_values(
                |e: Event| shifted_event(e, start, distance),
            ),
    {
        let zero = Timespan::zero();
        let ghost old_events = self.events@;
        let deleted = if distance < zero {
            let end = start - distance;
            let mut keep: Vec<Event> = Vec::new();
            let mut pass: Vec<Event> = Vec::new();
            let mut i: usize = 0;
            while i < self.events.len()
                invariant
                    i <= self.events.len(),
                    self.events@ == old_events,
                    end@ == add_view(start@, neg_view(distance@)),
                    less_value(distance@, zero_view()),
                    keep@ == shift_kept(old_events.take(i as int), start, distance),
                    pass@ == shift_deleted(old_events.take(i as int), start, distance),
                decreases self.events.len() - i,
            {
                proof {
                    lemma_shift_kept_step(old_events, start, distance, i as int);
                }
                let e = self.events[i];
                if e.tick < start || !(e.tick < end) {
                    keep.push(e);
                } else {
                    pass.push(e);
                }
                i = i + 1;
            }
            assert(old_events.take(i as int) =~= old_events);
            self.events = keep;
            pass
        } else {
            proof {
                lemma_shift_all_kept(old_events, start, distance);
            }
            Vec::new()
        };
        let ghost kept = self.events@;
        proof {
            lemma_shift_kept_elements(old_events, start, distance);
        }
        let mut i: usize = 0;
        while i < self.events.len()
            invariant
                i <= self.events.len(),
                self.events@.len() == kept.len(),
                forall|j: int| 0 <= j < i ==> self.events@[j] == shifted_event(#[trigger] kept[j], start, distance),
                forall|j: int| i <= j < kept.len() ==> self.events@[j] == #[trigger] kept[j],
                kept == shift_kept(old_events, start, distance),
                shift_ok(old_events, start, distance),
                forall|j: int| 0 <= j < kept.len() ==> {
                    &&& kept_on_shift(#[trigger] kept[j], start, distance)
                    &&& old_events.contains(kept[j])
                },
                zero@ == zero_view(),
            decreases self.events.len() - i,
        {
            let e = self.events[i];
            proof {
                assert(kept[i as int] == e);
                let k = choose|k: int| 0 <= k < old_events.len() && old_events[k] == e;
                assert(old_events[k] == e);
            }
            if !(e.tick < start) {
                let s = e.tick + distance;
                let t = if s < zero { zero } else { s };
                proof {
                    Timespan::lemma_from_view_of(t);
                }
                self.events.set(i, Event { tick: t, data: e.data });
            } else {
                proof {
                    Timespan::lemma_from_view_of(e.tick);
                }
            }
            i = i + 1;
        }
        assert(self.events@ =~= kept.map_values(|e: Event| shifted_event(e, start, distance)));
        deleted
    }
}

proof fn lemma_shift_all_kept(s: Seq<Event>, start: Timespan, distance: Timespan)
    requires
        !less_value(distance@, zero_view()),
    ensures
        shift_kept(s, start, distance) == s,
        shift_deleted(s, start, distance) == Seq::<Event>::empty(),
    decreases s.len(),
{
    if s.len() > 0 {
        lemma_shift_all_kept(s.drop_last(), start, distance);
        assert(s.drop_last().push(s.last()) =~= s);
    }
}

/// The event is an interpolation marker of spatial column `col`.
pub open spec fn is_glide_in(e: Event, col: u8) -> bool {
    match e.data {
        EventData::StartGlide(i) | EventData::EndGlide(i) | EventData::TickGlide(i) => i == col,
        _ => false,
    }
}

/// The interpolation markers of column `col`, in order.
pub open spec fn glides_in(s: Seq<Event>, col: u8) -> Seq<Event>
    decreases s.len(),
{
    if s.len() == 0 {
        s
    } else {
        let p = glides_in(s.drop_last(), col);
        if is_glide_in(s.last(), col) { p.push(s.last()) } else { p }
    }
}

/// Whether the interpolation markers `g`, read in order up to the first
/// one after `tick`, leave the column interpolated at `tick`, starting from
/// state `glide`: a glide that starts before `tick` turns interpolation on,
/// one that ends before `tick` turns it off, and a single-tick glide at
/// `tick` makes it interpolated.
pub open spec fn glide_state(g: Seq<Event>, tick: Timespan, glide: bool) -> bool
    decreases g.len(),
{
    if g.len() == 0 {
        glide
    } else {
        let e = g[0];
        let rest = g.skip(1);
        if less_value(tick@, e.tick@) {
            glide
        } else {
            match e.data {
                EventData::StartGlide(_) => glide_state(rest, tick, if less_value(e.tick@, tick@) { true } else { glide }),
                EventData::EndGlide(_) => glide_state(rest, tick, if less_value(e.tick@, tick@) { false } else { glide }),
                _ => if same_value(e.tick@, tick@) { true } else { glide_state(rest, tick, glide) },
            }
        }
    }
}

/// The last event before `tick` in logical column `column`, as an index.
pub open spec fn is_prev_event_index(s: Seq<Event>, column: u8, tick: Timespan, i: int) -> bool {
    &&& 0 <= i < s.len()
    &&& less_value(s[i].tick@, tick@)
    &&& logical_column_spec(s[i].data) == column
    &&& forall|j: int| i < j < s.len() ==> !(less_value(#[trigger] s[j].tick@, tick@) && logical_column_spec(s[j].data) == column)
}

impl Channel {
    /// Return interpolation events in a (spatial) column.
    pub fn interp_by_col(&self, col: u8) -> (r: Vec<Event>)
        ensures
            r@ == glides_in(self.events@, col),
    {
        let mut r: Vec<Event> = Vec::new();
        let mut i: usize = 0;
        while i < self.events.len()
            invariant
                i <= self.events.len(),
                r@ == glides_in(self.events@.take(i as int), col),
            decreases self.events.len() - i,
        {
            proof {
                assert(self.events@.take(i as int + 1).drop_last() =~= self.events@.take(i as int));
            }
            let e = self.events[i];
            let glide = match e.data {
                EventData::StartGlide(c) | EventData::EndGlide(c) | EventData::TickGlide(c) => c == col,
                _ => false,
            };
            if glide {
                r.push(e);
            }
            i = i + 1;
        }
        assert(self.events@.take(i as int) =~= self.events@);
        r
    }

    /// Returns true if the (spatial) column is interpolated at `tick`.
    pub fn is_interpolated(&self, col: u8, tick: Timespan) -> (r: bool)
        ensures
            r == glide_state(glides_in(self.events@, col), tick, false),
    {
        let g = self.interp_by_col(col);
        let mut glide = false;
        let mut i: usize = 0;
        proof {
            lemma_glides_in_all(self.events@, col);
            assert(g@.skip(0) =~= g@);
        }
        while i < g.len()
            invariant
                i <= g.len(),
                g@ == glides_in(self.events@, col),
                glide_state(g@, tick, false) == glide_state(g@.skip(i as int), tick, glide),
                forall|j: int| 0 <= j < g.len() ==> is_glide_in(#[trigger] g@[j], col),
            decreases g.len() - i,
        {
            let e = g[i];
            proof {
                assert(g@.skip(i as int)[0] == e);
                assert(g@.skip(i as int).skip(1) =~= g@.skip(i as int + 1));
            }
            if tick < e.tick {
                return glide;
            }
            match e.data {
                EventData::StartGlide(_) => {
                    if e.tick < tick {
                        glide = true;
                    }
                },
                EventData::EndGlide(_) => {
                    if e.tick < tick {
                        glide = false;
                    }
                },
                _ => {
                    if !(e.tick < tick) && !(tick < e.tick) {
                        return true;
                    }
                },
            }
            i = i + 1;
        }
        assert(g@.skip(i as int).len() == 0);
        glide
    }

    /// Returns the last event before `tick` in `column`.
    pub fn prev_event(&self, column: u8, tick: Timespan) -> (r: Option<&Event>)
        ensures
            match r {
                Some(e) => exists|i: int| is_prev_event_index(self.events@, column, tick, i) && self.events@[i] == *e,
                None => forall|i: int| !is_prev_event_index(self.events@, column, tick, i),
            },
    {
        let mut i = self.events.len();
        while i > 0
            invariant
                i <= self.events.len(),
                forall|j: int| i <= j < self.events.len() ==> !(less_value(#[trigger] self.events@[j].tick@, tick@)
                    && logical_column_spec(self.events@[j].data) == column),
            decreases i,
        {
            let e = &self.events[i - 1];
            if e.tick < tick && e.data.logical_column() == column {
                assert(is_prev_event_index(self.events@, column, tick, i - 1));
                return Some(e);
            }
            i = i - 1;
        }
        assert forall|k: int| !is_prev_event_index(self.events@, column, tick, k) by {
            if 0 <= k < self.events.len() {
                assert(!(less_value(self.events@[k].tick@, tick@) && logical_column_spec(self.events@[k].data) == column));
            }
        }
        None
    }
}

proof fn lemma_glides_in_all(s: Seq<Event>, col: u8)
    ensures
        forall|j: int| 0 <= j < glides_in(s, col).len() ==> is_glide_in(#[trigger] glides_in(s, col)[j], col),
    decreases s.len(),
{
    if s.len() > 0 {
        lemma_glides_in_all(s.drop_last(), col);
        let p = glides_in(s.drop_last(), col);
        assert forall|j: int| 0 <= j < glides_in(s, col).len() implies is_glide_in(#[trigger] glides_in(s, col)[j], col) by {
            if j < p.len() {
                assert(glides_in(s, col)[j] == p[j]);
            }
        }
    }
}

#[derive(Clone)]
pub struct Track {
    pub target: TrackTarget,
    pub channels: Vec<Channel>,
}

/// The contents of a track: its target and the events of each channel.
#[verifier::ext_equal]
pub struct TrackView {
    pub target: TrackTarget,
    pub channels: Seq<Seq<Event>>,
}

/// The events of each channel.
pub open spec fn channels_view(cs: Seq<Channel>) -> Seq<Seq<Event>> {
    cs.map_values(|c: Channel| c.events@)
}

/// The contents of a track.
pub open spec fn track_view(t: Track) -> TrackView {
    TrackView { target: t.target, channels: channels_view(t.channels@) }
}

/// The contents of each track.
pub open spec fn tracks_view(ts: Seq<Track>) -> Seq<TrackView> {
    ts.map_values(|t: Track| track_view(t))
}

impl Track {
    pub fn new(target: TrackTarget) -> (r: Self)
        ensures
            track_view(r) == (TrackView { target, channels: seq![Seq::<Event>::empty()] }),
    {
        let mut channels: Vec<Channel> = Vec::new();
        let c = Channel::default();
        assert(c.events@ =~= Seq::<Event>::empty());
        channels.push(c);
        let r = Self { target, channels };
        assert(channels_view(r.channels@) =~= seq![Seq::<Event>::empty()]);
        r
    }
}

/// Position of a channel.
#[derive(Clone, Copy, Debug)]
pub struct ChannelCoords {
    track: u8,
    channel: u8,
}

impl View for ChannelCoords {
    type V = (int, int);

    /// Track and channel index.
    closed spec fn view(&self) -> (int, int) {
        (self.track as int, self.channel as int)
    }
}

impl ChannelCoords {
    /// The coordinates of a channel of a track.
    pub fn new(track: u8, channel: u8) -> (r: Self)
        ensures
            r@ == (track as int, channel as int),
    {
        ChannelCoords { track, channel }
    }

    /// The track index.
    pub fn track(&self) -> (r: u8)
        ensures
            r == self@.0,
    {
        self.track
    }

    /// The channel index.
    pub fn channel(&self) -> (r: u8)
        ensures
            r == self@.1,
    {
        self.channel
    }
}

/// Used to track added/removed Tracks for synchronizing Player with Module.
#[derive(Clone, Copy, Debug, PartialEq, Eq, Structural)]
pub enum TrackEdit {
    Insert(usize),
    Remove(usize),
}

/// `(t, c)` names a channel of `ts`.
pub open spec fn valid_channel(ts: Seq<TrackView>, t: int, c: int) -> bool {
    &&& 0 <= t < ts.len()
    &&& 0 <= c < ts[t].channels.len()
}

/// `ts` with the events of channel `(t, c)` replaced.
pub open spec fn set_channel(ts: Seq<TrackView>, t: int, c: int, evs: Seq<Event>) -> Seq<TrackView> {
    ts.update(t, TrackView { target: ts[t].target, channels: ts[t].channels.update(c, evs) })
}

/// The event sits at `tick` in logical column `column`.
pub open spec fn event_is_at(e: Event, tick: Timespan, column: u8) -> bool {
    e.tick == tick && logical_column_spec(e.data) == column
}

/// The index of the first event at `tick` in `column`, or -1.
pub open spec fn first_event_at(evs: Seq<Event>, tick: Timespan, column: u8) -> int
    decreases evs.len(),
{
    if evs.len() == 0 {
        -1
    } else if event_is_at(evs[0], tick, column) {
        0
    } else {
        let r = first_event_at(evs.skip(1), tick, column);
        if r < 0 { -1 } else { r + 1 }
    }
}

/// Deleting the first event at `p`: the new tracks and the deleted event.
pub open spec fn delete_at(ts: Seq<TrackView>, p: Position) -> (Seq<TrackView>, Option<Event>) {
    let evs = ts[p.track as int].channels[p.channel as int];
    let i = first_event_at(evs, p.tick, p.column);
    if i < 0 {
        (ts, None)
    } else {
        (set_channel(ts, p.track as int, p.channel as int, evs.remove(i)), Some(evs[i]))
    }
}

/// Deleting the first event at each position in turn: the new tracks and
/// the deleted events, located where they were.
pub open spec fn delete_all(ts: Seq<TrackView>, ps: Seq<Position>) -> (Seq<TrackView>, Seq<LocatedEvent>)
    decreases ps.len(),
{
    if ps.len() == 0 {
        (ts, Seq::empty())
    } else {
        let (ts1, acc) = delete_all(ts, ps.drop_last());
        let p = ps.last();
        let (ts2, o) = delete_at(ts1, p);
        match o {
            Some(e) => (ts2, acc.push(LocatedEvent { track: p.track, channel: p.channel, event: e })),
            None => (ts2, acc),
        }
    }
}

/// Appending each event to the end of its channel.
pub open spec fn push_all(ts: Seq<TrackView>, adds: Seq<LocatedEvent>) -> Seq<TrackView>
    decreases adds.len(),
{
    if adds.len() == 0 {
        ts
    } else {
        let ts1 = push_all(ts, adds.drop_last());
        let e = adds.last();
        set_channel(ts1, e.track as int, e.channel as int,
            ts1[e.track as int].channels[e.channel as int].push(e.event))
    }
}

/// Some event of `adds` goes into channel `(t, c)`.
pub open spec fn touches(adds: Seq<LocatedEvent>, t: int, c: int) -> bool {
    exists|k: int| 0 <= k < adds.len() && adds[k].track == t && adds[k].channel == c
}

/// `ts` with every channel that an event of `adds` went into sorted.
pub open spec fn sort_touched(ts: Seq<TrackView>, adds: Seq<LocatedEvent>) -> Seq<TrackView> {
    Seq::new(ts.len(), |t: int| TrackView {
        target: ts[t].target,
        channels: Seq::new(ts[t].channels.len(), |c: int|
            if touches(adds, t, c) { sort_events_spec(ts[t].channels[c]) } else { ts[t].channels[c] }),
    })
}

/// Every position names a channel.
pub open spec fn positions_valid(ts: Seq<TrackView>, ps: Seq<Position>) -> bool {
    forall|i: int| 0 <= i < ps.len() ==> valid_channel(ts, #[trigger] ps[i].track as int, ps[i].channel as int)
}

/// Every located event names a channel.
pub open spec fn located_valid(ts: Seq<TrackView>, es: Seq<LocatedEvent>) -> bool {
    forall|i: int| 0 <= i < es.len() ==> valid_channel(ts, #[trigger] es[i].track as int, es[i].channel as int)
}

/// The number of channels in each track.
pub open spec fn shape(ts: Seq<TrackView>) -> Seq<int> {
    ts.map_values(|t: TrackView| t.channels.len() as int)
}

proof fn lemma_set_channel_shape(ts: Seq<TrackView>, t: int, c: int, evs: Seq<Event>)
    requires
        valid_channel(ts, t, c),
    ensures
        shape(set_channel(ts, t, c, evs)) == shape(ts),
        forall|x: int, y: int| valid_channel(set_channel(ts, t, c, evs), x, y) <==> valid_channel(ts, x, y),
{
    assert(shape(set_channel(ts, t, c, evs)) =~= shape(ts));
}

pub(crate) proof fn lemma_delete_all_shape(ts: Seq<TrackView>, ps: Seq<Position>)
    requires
        positions_valid(ts, ps),
    ensures
        shape(delete_all(ts, ps).0) == shape(ts),
        forall|x: int, y: int| valid_channel(delete_all(ts, ps).0, x, y) <==> valid_channel(ts, x, y),
    decreases ps.len(),
{
    if ps.len() > 0 {
        let q = ps.drop_last();
        assert(positions_valid(ts, q)) by {
            assert forall|i: int| 0 <= i < q.len() implies valid_channel(ts, #[trigger] q[i].track as int, q[i].channel as int) by {
                assert(q[i] == ps[i]);
            }
        }
        lemma_delete_all_shape(ts, q);
        let ts1 = delete_all(ts, q).0;
        let p = ps.last();
        assert(valid_channel(ts, p.track as int, p.channel as int)) by {
            assert(ps[ps.len() - 1] == p);
        }
        let evs = ts1[p.track as int].channels[p.channel as int];
        if first_event_at(evs, p.tick, p.column) >= 0 {
            lemma_set_channel_shape(ts1, p.track as int, p.channel as int, evs.remove(first_event_at(evs, p.tick, p.column)));
        }
    }
}

pub(crate) proof fn lemma_push_all_shape(ts: Seq<TrackView>, adds: Seq<LocatedEvent>)
    requires
        located_valid(ts, adds),
    ensures
        shape(push_all(ts, adds)) == shape(ts),
        forall|x: int, y: int| valid_channel(push_all(ts, adds), x, y) <==> valid_channel(ts, x, y),
    decreases adds.len(),
{
    if adds.len() > 0 {
        let q = adds.drop_last();
        assert(located_valid(ts, q)) by {
            assert forall|i: int| 0 <= i < q.len() implies valid_channel(ts, #[trigger] q[i].track as int, q[i].channel as int) by {
                assert(q[i] == adds[i]);
            }
        }
        lemma_push_all_shape(ts, q);
        let ts1 = push_all(ts, q);
        let e = adds.last();
        assert(valid_channel(ts, e.track as int, e.channel as int)) by {
            assert(adds[adds.len() - 1] == e);
        }
        lemma_set_channel_shape(ts1, e.track as int, e.channel as int,
            ts1[e.track as int].channels[e.channel as int].push(e.event));
    }
}

pub(crate) proof fn lemma_first_event_at(evs: Seq<Event>, tick: Timespan, column: u8, i: int)
    requires
        0 <= i <= evs.len(),
        forall|j: int| 0 <= j < i ==> !event_is_at(#[trigger] evs[j], tick, column),
        i < evs.len() ==> event_is_at(evs[i], tick, column),
    ensures
        first_event_at(evs, tick, column) == if i == evs.len() { -1 } else { i },
    decreases evs.len(),
{
    if evs.len() > 0 && i > 0 {
        let rest = evs.skip(1);
        assert forall|j: int| 0 <= j < i - 1 implies !event_is_at(#[trigger] rest[j], tick, column) by {
            assert(rest[j] == evs[j + 1]);
        }
        if i < evs.len() {
            assert(rest[i - 1] == evs[i]);
        }
        lemma_first_event_at(rest, tick, column, i - 1);
        assert(!event_is_at(evs[0], tick, column));
    }
}

proof fn lemma_tracks_view_set(ts: Seq<Track>, t: int, c: int, tr: Track, ch: Channel)
    requires
        0 <= t < ts.len(),
        0 <= c < ts[t].channels.len(),
        tr.target == ts[t].target,
        tr.channels@ == ts[t].channels@.update(c, ch),
    ensures
        tracks_view(ts.update(t, tr)) == set_channel(tracks_view(ts), t, c, ch.events@),
{
    assert(channels_view(tr.channels@) =~= channels_view(ts[t].channels@).update(c, ch.events@));
    assert(tracks_view(ts.update(t, tr)) =~= set_channel(tracks_view(ts), t, c, ch.events@));
}

/// Deletes the first event at `pos`, returning it.
fn delete_event_in(ts: &mut Vec<Track>, pos: Position) -> (r: Option<Event>)
    requires
        valid_channel(tracks_view(old(ts)@), pos.track as int, pos.channel as int),
    ensures
        (tracks_view(final(ts)@), r) == delete_at(tracks_view(old(ts)@), pos),
{
    let t = pos.track;
    let c = pos.channel;
    let ghost evs = ts@[t as int].channels@[c as int].events@;
    assert(tracks_view(ts@)[t as int].channels[c as int] == evs);
    let mut i: usize = 0;
    let n = ts[t].channels[c].events.len();
    while i < n && !(ts[t].channels[c].events[i].tick == pos.tick
        && ts[t].channels[c].events[i].data.logical_column() == pos.column)
        invariant
            n == evs.len(),
            i <= n,
            ts@ == old(ts)@,
            evs == ts@[t as int].channels@[c as int].events@,
            t < ts@.len(),
            c < ts@[t as int].channels@.len(),
            forall|j: int| 0 <= j < i ==> !event_is_at(#[trigger] evs[j], pos.tick, pos.column),
        decreases n - i,
    {
        i = i + 1;
    }
    proof {
        lemma_first_event_at(evs, pos.tick, pos.column, i as int);
    }
    if i < n {
        let ghost old_ts = ts@;
        let e = ts[t].channels[c].events.remove(i);
        proof {
            lemma_tracks_view_set(old_ts, t as int, c as int, ts@[t as int], ts@[t as int].channels@[c as int]);
        }
        Some(e)
    } else {
        None
    }
}

/// Appends a located event to the end of its channel.
fn push_located_in(ts: &mut Vec<Track>, e: LocatedEvent)
    requires
        valid_channel(tracks_view(old(ts)@), e.track as int, e.channel as int),
    ensures
        tracks_view(final(ts)@) == set_channel(tracks_view(old(ts)@), e.track as int, e.channel as int,
            tracks_view(old(ts)@)[e.track as int].channels[e.channel as int].push(e.event)),
{
    let ghost old_ts = ts@;
    ts[e.track].channels[e.channel].events.push(e.event);
    proof {
        lemma_tracks_view_set(old_ts, e.track as int, e.channel as int, ts@[e.track as int],
            ts@[e.track as int].channels@[e.channel as int]);
    }
}

/// Sorts the events of channel `(t, c)`.
fn sort_channel_in(ts: &mut Vec<Track>, t: usize, c: usize)
    requires
        valid_channel(tracks_view(old(ts)@), t as int, c as int),
    ensures
        tracks_view(final(ts)@) == set_channel(tracks_view(old(ts)@), t as int, c as int,
            sort_events_spec(tracks_view(old(ts)@)[t as int].channels[c as int])),
{
    let ghost old_ts = ts@;
    ts[t].channels[c].sort_events();
    proof {
        lemma_tracks_view_set(old_ts, t as int, c as int, ts@[t as int], ts@[t as int].channels@[c as int]);
    }
}

pub(crate) proof fn lemma_sort_touched_empty(ts: Seq<TrackView>)
    ensures
        sort_touched(ts, Seq::empty()) == ts,
{
    assert forall|t: int| 0 <= t < ts.len() implies #[trigger] sort_touched(ts, Seq::empty())[t] == ts[t] by {
        assert(sort_touched(ts, Seq::empty())[t].channels =~= ts[t].channels);
    }
    assert(sort_touched(ts, Seq::empty()) =~= ts);
}

proof fn lemma_sort_touched_step(ts: Seq<TrackView>, adds: Seq<LocatedEvent>, k: int)
    requires
        0 <= k < adds.len(),
        valid_channel(ts, adds[k].track as int, adds[k].channel as int),
    ensures
        sort_touched(ts, adds.take(k + 1)) == if touches(adds.take(k), adds[k].track as int, adds[k].channel as int) {
            sort_touched(ts, adds.take(k))
        } else {
            set_channel(sort_touched(ts, adds.take(k)), adds[k].track as int, adds[k].channel as int,
                sort_events_spec(ts[adds[k].track as int].channels[adds[k].channel as int]))
        },
{
    let a = adds.take(k);
    let b = adds.take(k + 1);
    let t0 = adds[k].track as int;
    let c0 = adds[k].channel as int;
    assert(b[k] == adds[k]);
    assert forall|t: int, c: int| touches(b, t, c) <==> (touches(a, t, c) || (t == t0 && c == c0)) by {
        if touches(b, t, c) {
            let j = choose|j: int| 0 <= j < b.len() && b[j].track == t && b[j].channel == c;
            if j < k {
                assert(a[j] == b[j]);
            }
        }
        if touches(a, t, c) {
            let j = choose|j: int| 0 <= j < a.len() && a[j].track == t && a[j].channel == c;
            assert(b[j] == a[j]);
        }
    }
    if touches(a, t0, c0) {
        assert forall|t: int| 0 <= t < ts.len() implies #[trigger] sort_touched(ts, b)[t] == sort_touched(ts, a)[t] by {
            assert(sort_touched(ts, b)[t].channels =~= sort_touched(ts, a)[t].channels);
        }
        assert(sort_touched(ts, b) =~= sort_touched(ts, a));
    } else {
        let rhs = set_channel(sort_touched(ts, a), t0, c0, sort_events_spec(ts[t0].channels[c0]));
        assert forall|t: int| 0 <= t < ts.len() implies #[trigger] sort_touched(ts, b)[t] == rhs[t] by {
            assert(sort_touched(ts, b)[t].channels =~= rhs[t].channels);
        }
        assert(sort_touched(ts, b) =~= rhs);
    }
}

/// Deletes the first event at each of `remove`, appends each of `add` to
/// its channel, and sorts the channels added to. Returns the positions of
/// the added events and the deleted events.
fn apply_pattern_data(ts: &mut Vec<Track>, remove: &Vec<Position>, add: &Vec<LocatedEvent>)
    -> (r: (Vec<Position>, Vec<LocatedEvent>))
    requires
        positions_valid(tracks_view(old(ts)@), remove@),
        located_valid(tracks_view(old(ts)@), add@),
    ensures
        tracks_view(final(ts)@) == sort_touched(
            push_all(delete_all(tracks_view(old(ts)@), remove@).0, add@),
            add@,
        ),
        r.0@ == add@.map_values(|e: LocatedEvent| located_position(e)),
        r.1@ == delete_all(tracks_view(old(ts)@), remove@).1,
        shape(tracks_view(final(ts)@)) == shape(tracks_view(old(ts)@)),
{
    let ghost tv0 = tracks_view(ts@);
    let mut flip_add: Vec<LocatedEvent> = Vec::new();
    let mut k: usize = 0;
    while k < remove.len()
        invariant
            k <= remove.len(),
            positions_valid(tv0, remove@),
            (tracks_view(ts@), flip_add@) == delete_all(tv0, remove@.take(k as int)),
        decreases remove.len() - k,
    {
        proof {
            assert(remove@.take(k as int + 1).drop_last() =~= remove@.take(k as int));
            assert(positions_valid(tv0, remove@.take(k as int))) by {
                assert forall|i: int| 0 <= i < k implies valid_channel(tv0, #[trigger] remove@.take(k as int)[i].track as int, remove@.take(k as int)[i].channel as int) by {
                    assert(remove@.take(k as int)[i] == remove@[i]);
                }
            }
            lemma_delete_all_shape(tv0, remove@.take(k as int));
            assert(valid_channel(tv0, remove@[k as int].track as int, remove@[k as int].channel as int));
        }
        let p = remove[k];
        let o = delete_event_in(ts, p);
        match o {
            Some(e) => flip_add.push(LocatedEvent { track: p.track, channel: p.channel, event: e }),
            None => {},
        }
        k = k + 1;
    }
    proof {
        assert(remove@.take(k as int) =~= remove@);
        lemma_delete_all_shape(tv0, remove@);
    }
    let ghost tv1 = tracks_view(ts@);
    let mut flip_remove: Vec<Position> = Vec::new();
    k = 0;
    while k < add.len()
        invariant
            k <= add.len(),
            located_valid(tv0, add@),
            forall|x: int, y: int| valid_channel(tv1, x, y) <==> valid_channel(tv0, x, y),
            shape(tv1) == shape(tv0),
            tracks_view(ts@) == push_all(tv1, add@.take(k as int)),
            flip_remove@ == add@.take(k as int).map_values(|e: LocatedEvent| located_position(e)),
        decreases add.len() - k,
    {
        proof {
            assert(add@.take(k as int + 1).drop_last() =~= add@.take(k as int));
            assert(located_valid(tv1, add@.take(k as int))) by {
                assert forall|i: int| 0 <= i < k implies valid_channel(tv1, #[trigger] add@.take(k as int)[i].track as int, add@.take(k as int)[i].channel as int) by {
                    assert(add@.take(k as int)[i] == add@[i]);
                }
            }
            lemma_push_all_shape(tv1, add@.take(k as int));
            assert(valid_channel(tv0, add@[k as int].track as int, add@[k as int].channel as int));
        }
        let e = add[k];
        flip_remove.push(e.position());
        push_located_in(ts, e);
        proof {
            assert(flip_remove@ =~= add@.take(k as int + 1).map_values(|e: LocatedEvent| located_position(e)));
        }
        k = k + 1;
    }
    proof {
        assert(add@.take(k as int) =~= add@);
        assert(located_valid(tv1, add@));
        lemma_push_all_shape(tv1, add@);
    }
    let ghost tv2 = tracks_view(ts@);
    proof {
        lemma_sort_touched_empty(tv2);
        assert(add@.take(0) =~= Seq::<LocatedEvent>::empty());
    }
    k = 0;
    while k < add.len()
        invariant
            k <= add.len(),
            located_valid(tv0, add@),
            forall|x: int, y: int| valid_channel(tv2, x, y) <==> valid_channel(tv0, x, y),
            shape(tv2) == shape(tv0),
            tracks_view(ts@) == sort_touched(tv2, add@.take(k as int)),
        decreases add.len() - k,
    {
        let e = add[k];
        let mut j: usize = 0;
        let mut seen = false;
        while j < k
            invariant
                j <= k,
                k < add.len(),
                seen <==> exists|m: int| 0 <= m < j && add@[m].track == e.track && add@[m].channel == e.channel,
            decreases k - j,
        {
            if add[j].track == e.track && add[j].channel == e.channel {
                seen = true;
            }
            j = j + 1;
        }
        proof {
            assert(valid_channel(tv0, e.track as int, e.channel as int));
            lemma_sort_touched_step(tv2, add@, k as int);
            assert(seen <==> touches(add@.take(k as int), e.track as int, e.channel as int)) by {
                if seen {
                    let m = choose|m: int| 0 <= m < k && add@[m].track == e.track && add@[m].channel == e.channel;
                    assert(add@.take(k as int)[m] == add@[m]);
                }
                if touches(add@.take(k as int), e.track as int, e.channel as int) {
                    let m = choose|m: int| 0 <= m < k && add@.take(k as int)[m].track == e.track && add@.take(k as int)[m].channel == e.channel;
                    assert(add@.take(k as int)[m] == add@[m]);
                }
            }
        }
        if !seen {
            proof {
                assert(sort_touched(tv2, add@.take(k as int))[e.track as int].channels[e.channel as int]
                    == tv2[e.track as int].channels[e.channel as int]);
            }
            sort_channel_in(ts, e.track, e.channel);
        }
        k = k + 1;
    }
    proof {
        assert(add@.take(k as int) =~= add@);
        assert(shape(tracks_view(ts@)) =~= shape(tv0));
    }
    (flip_remove, flip_add)
}

/// Shifting the events of each channel in `coords` in turn: the new tracks
/// and the deleted events, located where they were.
pub open spec fn shift_all(ts: Seq<TrackView>, coords: Seq<(int, int)>, start: Timespan, distance: Timespan)
    -> (Seq<TrackView>, Seq<LocatedEvent>)
    decreases coords.len(),
{
    if coords.len() == 0 {
        (ts, Seq::empty())
    } else {
        let (ts1, del) = shift_all(ts, coords.drop_last(), start, distance);
        let (t, c) = coords.last();
        let evs = ts1[t].channels[c];
        let moved = shift_kept(evs, start, distance).map_values(|e: Event| shifted_event(e, start, distance));
        let gone = shift_deleted(evs, start, distance).map_values(
            |e: Event| LocatedEvent { track: t as usize, channel: c as usize, event: e });
        (set_channel(ts1, t, c, moved), del + gone)
    }
}

/// Each channel in `coords` exists, and shifting it does not overflow.
pub open spec fn shift_all_ok(ts: Seq<TrackView>, coords: Seq<(int, int)>, start: Timespan, distance: Timespan) -> bool
    decreases coords.len(),
{
    if coords.len() == 0 {
        true
    } else {
        let ts1 = shift_all(ts, coords.drop_last(), start, distance).0;
        let (t, c) = coords.last();
        &&& shift_all_ok(ts, coords.drop_last(), start, distance)
        &&& valid_channel(ts1, t, c)
        &&& shift_ok(ts1[t].channels[c], start, distance)
    }
}

proof fn lemma_shift_all_shape(ts: Seq<TrackView>, coords: Seq<(int, int)>, start: Timespan, distance: Timespan)
    requires
        shift_all_ok(ts, coords, start, distance),
    ensures
        shape(shift_all(ts, coords, start, distance).0) == shape(ts),
        forall|x: int, y: int| valid_channel(shift_all(ts, coords, start, distance).0, x, y) <==> valid_channel(ts, x, y),
    decreases coords.len(),
{
    if coords.len() > 0 {
        lemma_shift_all_shape(ts, coords.drop_last(), start, distance);
        let ts1 = shift_all(ts, coords.drop_last(), start, distance).0;
        let (t, c) = coords.last();
        let evs = ts1[t].channels[c];
        lemma_set_channel_shape(ts1, t, c,
            shift_kept(evs, start, distance).map_values(|e: Event| shifted_event(e, start, distance)));
    }
}

/// Replacing the data of the first event at the position of `new_evt`: the
/// new tracks and the event as it was (or `new_evt` itself when no event is
/// there).
pub open spec fn replace_at(ts: Seq<TrackView>, new_evt: LocatedEvent) -> (Seq<TrackView>, LocatedEvent) {
    let pos = located_position(new_evt);
    if valid_channel(ts, pos.track as int, pos.channel as int) {
        let evs = ts[pos.track as int].channels[pos.channel as int];
        let i = first_event_at(evs, pos.tick, pos.column);
        if i >= 0 {
            let old = evs[i];
            (
                set_channel(ts, pos.track as int, pos.channel as int,
                    evs.update(i, Event { tick: old.tick, data: new_evt.event.data })),
                LocatedEvent { track: new_evt.track, channel: new_evt.channel, event: old },
            )
        } else {
            (ts, new_evt)
        }
    } else {
        (ts, new_evt)
    }
}

/// Replacing each event in turn.
pub open spec fn replace_all(ts: Seq<TrackView>, es: Seq<LocatedEvent>) -> (Seq<TrackView>, Seq<LocatedEvent>)
    decreases es.len(),
{
    if es.len() == 0 {
        (ts, Seq::empty())
    } else {
        let (ts1, acc) = replace_all(ts, es.drop_last());
        let (ts2, old) = replace_at(ts1, es.last());
        (ts2, acc.push(old))
    }
}

/// The target of a track after removing patch `index`: a track of that
/// patch loses its target, later patches move down by one.
pub open spec fn target_after_patch_removal(t: TrackTarget, index: usize) -> TrackTarget {
    match t {
        TrackTarget::Patch(i) => if i == index {
            TrackTarget::Unassigned
        } else if i > index {
            TrackTarget::Patch((i - 1) as usize)
        } else {
            t
        },
        _ => t,
    }
}

/// The kit after removing patch `index`: its entries are dropped and later
/// patch indices move down by one.
pub open spec fn kit_after_patch_removal(kit: Seq<KitEntry>, index: usize) -> Seq<KitEntry>
    decreases kit.len(),
{
    if kit.len() == 0 {
        kit
    } else {
        let p = kit_after_patch_removal(kit.drop_last(), index);
        let e = kit.last();
        if e.patch_index == index {
            p
        } else if e.patch_index > index {
            p.push(KitEntry { patch_index: (e.patch_index - 1) as usize, ..e })
        } else {
            p.push(e)
        }
    }
}

/// `usize` addition of a signed offset, clamped to the range of `usize`.
pub open spec fn saturating_add_signed(i: usize, off: isize) -> usize {
    if i + off < 0 {
        0
    } else if i + off > usize::MAX {
        usize::MAX
    } else {
        (i + off) as usize
    }
}

/// Whether every position names a channel of `ts`.
fn positions_fit(ts: &Vec<Track>, ps: &Vec<Position>) -> (r: bool)
    ensures
        r == positions_valid(tracks_view(ts@), ps@),
{
    let ghost tv = tracks_view(ts@);
    let mut i: usize = 0;
    while i < ps.len()
        invariant
            i <= ps.len(),
            tv == tracks_view(ts@),
            forall|j: int| 0 <= j < i ==> valid_channel(tv, #[trigger] ps@[j].track as int, ps@[j].channel as int),
        decreases ps.len() - i,
    {
        let p = ps[i];
        if p.track >= ts.len() || p.channel >= ts[p.track].channels.len() {
            assert(!valid_channel(tv, ps@[i as int].track as int, ps@[i as int].channel as int));
            return false;
        }
        i = i + 1;
    }
    true
}

/// Whether every located event names a channel of `ts`.
fn located_fit(ts: &Vec<Track>, es: &Vec<LocatedEvent>) -> (r: bool)
    ensures
        r == located_valid(tracks_view(ts@), es@),
{
    let ghost tv = tracks_view(ts@);
    let mut i: usize = 0;
    while i < es.len()
        invariant
            i <= es.len(),
            tv == tracks_view(ts@),
            forall|j: int| 0 <= j < i ==> valid_channel(tv, #[trigger] es@[j].track as int, es@[j].channel as int),
        decreases es.len() - i,
    {
        let e = es[i];
        if e.track >= ts.len() || e.channel >= ts[e.track].channels.len() {
            assert(!valid_channel(tv, es@[i as int].track as int, es@[i as int].channel as int));
            return false;
        }
        i = i + 1;
    }
    true
}

/// The coordinates named by `coords`.
pub open spec fn coords_view(coords: Seq<ChannelCoords>) -> Seq<(int, int)> {
    coords.map_values(|c: ChannelCoords| c@)
}

/// Shifts the events of each channel in `coords` in turn, returning the
/// deleted events.
fn shift_channels_in(ts: &mut Vec<Track>, coords: &Vec<ChannelCoords>, start: Timespan, distance: Timespan)
    -> (r: Vec<LocatedEvent>)
    requires
        shift_all_ok(tracks_view(old(ts)@), coords_view(coords@), start, distance),
    ensures
        (tracks_view(final(ts)@), r@) == shift_all(tracks_view(old(ts)@), coords_view(coords@), start, distance),
{
    let ghost tv0 = tracks_view(ts@);
    let ghost cv = coords_view(coords@);
    let mut deleted: Vec<LocatedEvent> = Vec::new();
    let mut k: usize = 0;
    while k < coords.len()
        invariant
            k <= coords.len(),
            cv == coords_view(coords@),
            shift_all_ok(tv0, cv, start, distance),
            (tracks_view(ts@), deleted@) == shift_all(tv0, cv.take(k as int), start, distance),
        decreases coords.len() - k,
    {
        proof {
            assert(cv.take(k as int + 1).drop_last() =~= cv.take(k as int));
            lemma_shift_all_ok_prefix(tv0, cv, start, distance, k as int + 1);
            assert(cv.take(k as int + 1).last() == cv[k as int]);
        }
        let t = coords[k].track() as usize;
        let c = coords[k].channel() as usize;
        let ghost old_ts = ts@;
        let gone = ts[t].channels[c].shift_events(start, distance);
        proof {
            lemma_tracks_view_set(old_ts, t as int, c as int, ts@[t as int], ts@[t as int].channels@[c as int]);
        }
        let ghost del0 = deleted@;
        let mut j: usize = 0;
        while j < gone.len()
            invariant
                j <= gone.len(),
                deleted@ == del0 + gone@.take(j as int).map_values(
                    |e: Event| LocatedEvent { track: t, channel: c, event: e }),
            decreases gone.len() - j,
        {
            deleted.push(LocatedEvent { track: t, channel: c, event: gone[j] });
            proof {
                assert(gone@.take(j as int + 1).map_values(|e: Event| LocatedEvent { track: t, channel: c, event: e })
                    =~= gone@.take(j as int).map_values(|e: Event| LocatedEvent { track: t, channel: c, event: e })
                        .push(LocatedEvent { track: t, channel: c, event: gone@[j as int] }));
                assert(deleted@ =~= del0 + gone@.take(j as int + 1).map_values(
                    |e: Event| LocatedEvent { track: t, channel: c, event: e }));
            }
            j = j + 1;
        }
        proof {
            assert(gone@.take(j as int) =~= gone@);
        }
        k = k + 1;
    }
    proof {
        assert(cv.take(k as int) =~= cv);
    }
    deleted
}

/// Whether shifting `evs` by `distance` from `start` stays within range
/// (see `shift_ok`).
fn shift_fits(evs: &Vec<Event>, start: Timespan, distance: Timespan) -> (r: bool)
    ensures
        r == shift_ok(evs@, start, distance),
{
    let zero = Timespan::zero();
    let backward = distance < zero;
    let mut end = start;
    if backward {
        if distance.num() == i32::MIN {
            return false;
        }
        let nd = distance.neg();
        if !start.add_fits(&nd) {
            return false;
        }
        end = start + nd;
    }
    let mut i: usize = 0;
    while i < evs.len()
        invariant
            i <= evs.len(),
            backward == less_value(distance@, zero_view()),
            backward ==> end@ == add_view(start@, neg_view(distance@)),
            forall|j: int| 0 <= j < i && kept_on_shift(#[trigger] evs@[j], start, distance)
                && !less_value(evs@[j].tick@, start@) ==> add_ok(evs@[j].tick@, distance@),
        decreases evs.len() - i,
    {
        let e = evs[i];
        let kept = !backward || e.tick < start || !(e.tick < end);
        if kept && !(e.tick < start) && !e.tick.add_fits(&distance) {
            return false;
        }
        i = i + 1;
    }
    true
}

/// Whether shifting the channels `coords` in turn stays within range (see
/// `shift_all_ok`).
fn shift_all_fits(ts: &Vec<Track>, coords: &Vec<ChannelCoords>, start: Timespan, distance: Timespan) -> (r: bool)
    ensures
        r == shift_all_ok(tracks_view(ts@), coords_view(coords@), start, distance),
{
    let ghost tv0 = tracks_view(ts@);
    let ghost cv = coords_view(coords@);
    let mut copy: Vec<Track> = Vec::new();
    let mut i: usize = 0;
    while i < ts.len()
        invariant
            i <= ts.len(),
            tracks_view(copy@) == tracks_view(ts@.take(i as int)),
        decreases ts.len() - i,
    {
        let t = copy_track(&ts[i]);
        proof {
            assert(ts@.take(i as int + 1) =~= ts@.take(i as int).push(ts@[i as int]));
            assert(tracks_view(copy@.push(t)) =~= tracks_view(copy@).push(track_view(t)));
            assert(tracks_view(ts@.take(i as int).push(ts@[i as int]))
                =~= tracks_view(ts@.take(i as int)).push(track_view(ts@[i as int])));
        }
        copy.push(t);
        i = i + 1;
    }
    proof {
        assert(ts@.take(i as int) =~= ts@);
        assert(cv.take(0) =~= Seq::<(int, int)>::empty());
    }
    let mut k: usize = 0;
    while k < coords.len()
        invariant
            k <= coords.len(),
            cv == coords_view(coords@),
            tv0 == tracks_view(ts@),
            shift_all_ok(tv0, cv.take(k as int), start, distance),
            tracks_view(copy@) == shift_all(tv0, cv.take(k as int), start, distance).0,
        decreases coords.len() - k,
    {
        proof {
            assert(cv.take(k as int + 1).drop_last() =~= cv.take(k as int));
            assert(cv.take(k as int + 1).last() == cv[k as int]);
        }
        let t = coords[k].track() as usize;
        let c = coords[k].channel() as usize;
        proof {
            assert(coords@[k as int]@ == cv[k as int]);
        }
        if t >= copy.len() || c >= copy[t].channels.len() {
            proof {
                if shift_all_ok(tv0, cv, start, distance) {
                    lemma_shift_all_ok_prefix(tv0, cv, start, distance, k as int + 1);
                }
            }
            return false;
        }
        proof {
            assert(tracks_view(copy@)[t as int].channels[c as int] == copy@[t as int].channels@[c as int].events@);
        }
        if !shift_fits(&copy[t].channels[c].events, start, distance) {
            proof {
                if shift_all_ok(tv0, cv, start, distance) {
                    lemma_shift_all_ok_prefix(tv0, cv, start, distance, k as int + 1);
                }
            }
            return false;
        }
        let ghost old_copy = copy@;
        let _ = copy[t].channels[c].shift_events(start, distance);
        proof {
            lemma_tracks_view_set(old_copy, t as int, c as int, copy@[t as int], copy@[t as int].channels@[c as int]);
        }
        k = k + 1;
    }
    proof {
        assert(cv.take(k as int) =~= cv);
    }
    true
}

proof fn lemma_shift_all_ok_prefix(ts: Seq<TrackView>, coords: Seq<(int, int)>, start: Timespan, distance: Timespan, k: int)
    requires
        0 <= k <= coords.len(),
        shift_all_ok(ts, coords, start, distance),
    ensures
        shift_all_ok(ts, coords.take(k), start, distance),
    decreases coords.len() - k,
{
    if k < coords.len() {
        assert(coords.drop_last() == coords.take(coords.len() - 1));
        lemma_shift_all_ok_prefix(ts, coords.drop_last(), start, distance, k);
        assert(coords.drop_last().take(k) =~= coords.take(k));
    } else {
        assert(coords.take(k) =~= coords);
    }
}

/// Replaces the data of the first event at the position of `new_evt`,
/// returning the event as it was (or `new_evt` when none is there).
fn replace_event_in(ts: &mut Vec<Track>, new_evt: LocatedEvent) -> (r: LocatedEvent)
    ensures
        (tracks_view(final(ts)@), r) == replace_at(tracks_view(old(ts)@), new_evt),
{
    let pos = new_evt.position();
    if pos.track < ts.len() && pos.channel < ts[pos.track].channels.len() {
        let t = pos.track;
        let c = pos.channel;
        let ghost evs = ts@[t as int].channels@[c as int].events@;
        assert(tracks_view(ts@)[t as int].channels[c as int] == evs);
        let n = ts[t].channels[c].events.len();
        let mut i: usize = 0;
        while i < n && !(ts[t].channels[c].events[i].tick == pos.tick
            && ts[t].channels[c].events[i].data.logical_column() == pos.column)
            invariant
                n == evs.len(),
                i <= n,
                ts@ == old(ts)@,
                evs == ts@[t as int].channels@[c as int].events@,
                t < ts@.len(),
                c < ts@[t as int].channels@.len(),
                forall|j: int| 0 <= j < i ==> !event_is_at(#[trigger] evs[j], pos.tick, pos.column),
            decreases n - i,
        {
            i = i + 1;
        }
        proof {
            lemma_first_event_at(evs, pos.tick, pos.column, i as int);
        }
        if i < n {
            let old_evt = ts[t].channels[c].events[i];
            let ghost old_ts = ts@;
            ts[t].channels[c].events.set(i, Event { tick: old_evt.tick, data: new_evt.event.data });
            proof {
                lemma_tracks_view_set(old_ts, t as int, c as int, ts@[t as int], ts@[t as int].channels@[c as int]);
            }
            LocatedEvent { track: new_evt.track, channel: new_evt.channel, event: old_evt }
        } else {
            new_evt
        }
    } else {
        new_evt
    }
}

/// An operation that changes `Module` data. Used for undo/redo.
#[derive(Clone)]
pub enum Edit<P> {
    InsertTrack(usize, Track),
    RemoveTrack(usize),
    ShiftTrack(usize, isize),
    RemapTrack(usize, TrackTarget),
    AddChannel(usize, Channel),
    RemoveChannel(usize),
    PatternData { remove: Vec<Position>, add: Vec<LocatedEvent> },
    InsertPatch(usize, P),
    RemovePatch(usize),
    /// Puts back a removed patch, together with the kit and the track
    /// targets as they were before its removal.
    RestorePatch { index: usize, patch: P, kit: Vec<KitEntry>, targets: Vec<TrackTarget> },
    ShiftEvents {
        channels: Vec<ChannelCoords>,
        start: Timespan,
        distance: Timespan,
        insert: Vec<LocatedEvent>,
    },
    ReplaceEvents(Vec<LocatedEvent>),
}

/// The contents of an edit.
pub enum EditView<P> {
    InsertTrack(usize, TrackView),
    RemoveTrack(usize),
    ShiftTrack(usize, isize),
    RemapTrack(usize, TrackTarget),
    AddChannel(usize, Seq<Event>),
    RemoveChannel(usize),
    PatternData { remove: Seq<Position>, add: Seq<LocatedEvent> },
    InsertPatch(usize, P),
    RemovePatch(usize),
    RestorePatch { index: usize, patch: P, kit: Seq<KitEntry>, targets: Seq<TrackTarget> },
    ShiftEvents { channels: Seq<(int, int)>, start: Timespan, distance: Timespan, insert: Seq<LocatedEvent> },
    ReplaceEvents(Seq<LocatedEvent>),
}

/// The contents of an edit.
pub open spec fn edit_view<P>(e: Edit<P>) -> EditView<P> {
    match e {
        Edit::InsertTrack(i, t) => EditView::InsertTrack(i, track_view(t)),
        Edit::RemoveTrack(i) => EditView::RemoveTrack(i),
        Edit::ShiftTrack(i, o) => EditView::ShiftTrack(i, o),
        Edit::RemapTrack(i, t) => EditView::RemapTrack(i, t),
        Edit::AddChannel(i, c) => EditView::AddChannel(i, c.events@),
        Edit::RemoveChannel(i) => EditView::RemoveChannel(i),
        Edit::PatternData { remove, add } => EditView::PatternData { remove: remove@, add: add@ },
        Edit::InsertPatch(i, p) => EditView::InsertPatch(i, p),
        Edit::RemovePatch(i) => EditView::RemovePatch(i),
        Edit::RestorePatch { index, patch, kit, targets } => EditView::RestorePatch {
            index,
            patch,
            kit: kit@,
            targets: targets@,
        },
        Edit::ShiftEvents { channels, start, distance, insert } => EditView::ShiftEvents {
            channels: coords_view(channels@),
            start,
            distance,
            insert: insert@,
        },
        Edit::ReplaceEvents(es) => EditView::ReplaceEvents(es@),
    }
}

/// `r` records the edit `e`: equal to it, but that a patch it carries is a
/// clone of the patch of `e`.
pub open spec fn recorded_as<P: Clone>(r: EditView<P>, e: EditView<P>) -> bool {
    match (r, e) {
        (EditView::InsertPatch(i, p), EditView::InsertPatch(j, q)) => i == j && cloned(q, p),
        (
            EditView::RestorePatch { index, patch, kit, targets },
            EditView::RestorePatch { index: j, patch: q, kit: k, targets: t },
        ) => index == j && cloned(q, patch) && kit == k && targets == t,
        _ => r == e,
    }
}

/// The edits recorded for synchronization go from `before` to `after` when
/// `e` is applied: a record of `e` is appended if `syncing`, and nothing
/// changes otherwise.
pub open spec fn sync_recorded<P: Clone>(
    before: Seq<EditView<P>>,
    after: Seq<EditView<P>>,
    syncing: bool,
    e: EditView<P>,
) -> bool {
    if syncing {
        &&& after.len() == before.len() + 1
        &&& after.drop_last() == before
        &&& recorded_as(after.last(), e)
    } else {
        after == before
    }
}

/// A copy of the vector.
fn copy_vec<T: Copy>(v: &Vec<T>) -> (r: Vec<T>)
    ensures
        r@ == v@,
{
    let mut r: Vec<T> = Vec::new();
    let mut i: usize = 0;
    while i < v.len()
        invariant
            i <= v.len(),
            r@ == v@.take(i as int),
        decreases v.len() - i,
    {
        proof {
            assert(v@.take(i as int + 1) =~= v@.take(i as int).push(v@[i as int]));
        }
        r.push(v[i]);
        i = i + 1;
    }
    proof {
        assert(v@.take(i as int) =~= v@);
    }
    r
}

/// A copy of the track.
fn copy_track(t: &Track) -> (r: Track)
    ensures
        track_view(r) == track_view(*t),
{
    let mut channels: Vec<Channel> = Vec::new();
    let mut i: usize = 0;
    while i < t.channels.len()
        invariant
            i <= t.channels.len(),
            channels_view(channels@) == channels_view(t.channels@.take(i as int)),
        decreases t.channels.len() - i,
    {
        let c = Channel { events: copy_vec(&t.channels[i].events) };
        proof {
            assert(c.events@ == t.channels@[i as int].events@);
            assert(t.channels@.take(i as int + 1) =~= t.channels@.take(i as int).push(t.channels@[i as int]));
            assert(channels_view(channels@.push(c)) =~= channels_view(channels@).push(c.events@));
            assert(channels_view(t.channels@.take(i as int).push(t.channels@[i as int]))
                =~= channels_view(t.channels@.take(i as int)).push(t.channels@[i as int].events@));
        }
        channels.push(c);
        i = i + 1;
    }
    proof {
        assert(t.channels@.take(i as int) =~= t.channels@);
    }
    let r = Track { target: t.target, channels };
    proof {
        assert(track_view(r).channels =~= track_view(*t).channels);
    }
    r
}

impl<P: Clone> Edit<P> {
    /// A copy of the edit, with a clone of the patch it carries.
    fn duplicate(&self) -> (r: Edit<P>)
        ensures
            recorded_as(edit_view(r), edit_view(*self)),
    {
        match self {
            Edit::InsertTrack(i, t) => Edit::InsertTrack(*i, copy_track(t)),
            Edit::RemoveTrack(i) => Edit::RemoveTrack(*i),
            Edit::ShiftTrack(i, o) => Edit::ShiftTrack(*i, *o),
            Edit::RemapTrack(i, t) => Edit::RemapTrack(*i, *t),
            Edit::AddChannel(i, c) => Edit::AddChannel(*i, Channel { events: copy_vec(&c.events) }),
            Edit::RemoveChannel(i) => Edit::RemoveChannel(*i),
            Edit::PatternData { remove, add } => Edit::PatternData { remove: copy_vec(remove), add: copy_vec(add) },
            Edit::InsertPatch(i, p) => Edit::InsertPatch(*i, p.clone()),
            Edit::RemovePatch(i) => Edit::RemovePatch(*i),
            Edit::RestorePatch { index, patch, kit, targets } => Edit::RestorePatch {
                index: *index,
                patch: patch.clone(),
                kit: copy_vec(kit),
                targets: copy_vec(targets),
            },
            Edit::ShiftEvents { channels, start, distance, insert } => Edit::ShiftEvents {
                channels: copy_vec(channels),
                start: *start,
                distance: *distance,
                insert: copy_vec(insert),
            },
            Edit::ReplaceEvents(es) => Edit::ReplaceEvents(copy_vec(es)),
        }
    }
}

/// The edited contents of a module: kit, patches and tracks.
#[verifier::ext_equal]
pub struct ModuleState<P> {
    pub kit: Seq<KitEntry>,
    pub patches: Seq<P>,
    pub tracks: Seq<TrackView>,
}

/// Whether applying `e` to `st` is defined: every index it names exists
/// (an inserted track or patch may go at the end), a removed channel
/// exists, a shifted track's new place exists and its offset can be
/// negated, and shifting events neither overflows nor has a distance that
/// cannot be negated; a restored patch comes with a target for each track.
pub open spec fn edit_ok<P>(st: ModuleState<P>, e: EditView<P>) -> bool {
    let n = st.tracks.len();
    match e {
        EditView::InsertTrack(i, _) => i <= n,
        EditView::RemoveTrack(i) => i < n,
        EditView::ShiftTrack(i, o) => i < n && saturating_add_signed(i, o) < n && o != isize::MIN,
        EditView::RemapTrack(i, _) => i < n,
        EditView::AddChannel(i, _) => i < n,
        EditView::RemoveChannel(i) => i < n && st.tracks[i as int].channels.len() > 0,
        EditView::PatternData { remove, add } => positions_valid(st.tracks, remove) && located_valid(st.tracks, add),
        EditView::InsertPatch(i, _) => i <= st.patches.len(),
        EditView::RemovePatch(i) => i < st.patches.len(),
        EditView::RestorePatch { index, targets, .. } => index <= st.patches.len() && targets.len() == n,
        EditView::ShiftEvents { channels, start, distance, insert } => {
            &&& shift_all_ok(st.tracks, channels, start, distance)
            &&& distance@.0 != i32::MIN
            &&& located_valid(st.tracks, insert)
        },
        EditView::ReplaceEvents(_) => true,
    }
}

/// `st` with other tracks.
pub open spec fn with_tracks<P>(st: ModuleState<P>, tracks: Seq<TrackView>) -> ModuleState<P> {
    ModuleState { kit: st.kit, patches: st.patches, tracks }
}

/// The result of applying `e` to `st`, and the edit that reverts it.
pub open spec fn apply_edit<P>(st: ModuleState<P>, e: EditView<P>) -> (ModuleState<P>, EditView<P>) {
    let ts = st.tracks;
    match e {
        EditView::InsertTrack(i, t) => (with_tracks(st, ts.insert(i as int, t)), EditView::RemoveTrack(i)),
        EditView::RemoveTrack(i) => (with_tracks(st, ts.remove(i as int)), EditView::InsertTrack(i, ts[i as int])),
        EditView::ShiftTrack(i, o) => {
            let dst = saturating_add_signed(i, o);
            (with_tracks(st, ts.remove(i as int).insert(dst as int, ts[i as int])), EditView::ShiftTrack(dst, (-o) as isize))
        },
        EditView::RemapTrack(i, target) => (
            with_tracks(st, ts.update(i as int, TrackView { target, channels: ts[i as int].channels })),
            EditView::RemapTrack(i, ts[i as int].target),
        ),
        EditView::AddChannel(i, c) => (
            with_tracks(st, ts.update(i as int, TrackView { target: ts[i as int].target, channels: ts[i as int].channels.push(c) })),
            EditView::RemoveChannel(i),
        ),
        EditView::RemoveChannel(i) => (
            with_tracks(st, ts.update(i as int, TrackView { target: ts[i as int].target, channels: ts[i as int].channels.drop_last() })),
            EditView::AddChannel(i, ts[i as int].channels.last()),
        ),
        EditView::PatternData { remove, add } => {
            let (ts1, deleted) = delete_all(ts, remove);
            (
                with_tracks(st, sort_touched(push_all(ts1, add), add)),
                EditView::PatternData { remove: add.map_values(|e: LocatedEvent| located_position(e)), add: deleted },
            )
        },
        EditView::InsertPatch(i, p) => (
            ModuleState { kit: st.kit, patches: st.patches.insert(i as int, p), tracks: ts },
            EditView::RemovePatch(i),
        ),
        EditView::RemovePatch(i) => (
            ModuleState {
                kit: kit_after_patch_removal(st.kit, i),
                patches: st.patches.remove(i as int),
                tracks: ts.map_values(|t: TrackView| TrackView {
                    target: target_after_patch_removal(t.target, i),
                    channels: t.channels,
                }),
            },
            EditView::RestorePatch {
                index: i,
                patch: st.patches[i as int],
                kit: st.kit,
                targets: ts.map_values(|t: TrackView| t.target),
            },
        ),
        EditView::RestorePatch { index, patch, kit, targets } => (
            ModuleState {
                kit,
                patches: st.patches.insert(index as int, patch),
                tracks: Seq::new(ts.len(), |j: int| TrackView { target: targets[j], channels: ts[j].channels }),
            },
            EditView::RemovePatch(index),
        ),
        EditView::ShiftEvents { channels, start, distance, insert } => {
            let (ts1, deleted) = shift_all(ts, channels, start, distance);
            (
                with_tracks(st, sort_touched(push_all(ts1, insert), insert)),
                EditView::ShiftEvents {
                    channels,
                    start,
                    distance: Timespan::from_view(neg_view(distance@)),
                    insert: deleted,
                },
            )
        },
        EditView::ReplaceEvents(es) => {
            let (ts1, old) = replace_all(ts, es);
            (with_tracks(st, ts1), EditView::ReplaceEvents(old))
        },
    }
}

/// The track insertions and removals that applying `e` records.
pub open spec fn track_history_of<P>(e: EditView<P>) -> Seq<TrackEdit> {
    match e {
        EditView::InsertTrack(i, _) => seq![TrackEdit::Insert(i)],
        EditView::RemoveTrack(i) => seq![TrackEdit::Remove(i)],
        EditView::ShiftTrack(i, o) => seq![TrackEdit::Remove(i), TrackEdit::Insert(saturating_add_signed(i, o))],
        _ => Seq::empty(),
    }
}

/// Stores all saved song data and undo state. The patches are held as
/// values of `P`.
pub struct Module<P> {
    pub title: String,
    pub author: String,
    pub kit: Vec<KitEntry>,
    pub patches: Vec<P>,
    pub tracks: Vec<Track>,
    /// This field is just for save/load; the pattern editor keeps the
    /// working beat division.
    pub division: u8,
    undo_stack: Vec<Edit<P>>,
    redo_stack: Vec<Edit<P>>,
    track_history: Vec<TrackEdit>,
    pub has_unsaved_changes: bool,
    sync_stack: Vec<Edit<P>>,
    pub sync: bool,
}

/// Default beat division.
pub fn default_division() -> (r: u8)
    ensures
        r == 4,
{
    4
}

proof fn lemma_tracks_view_insert(ts: Seq<Track>, i: int, t: Track)
    requires
        0 <= i <= ts.len(),
    ensures
        tracks_view(ts.insert(i, t)) == tracks_view(ts).insert(i, track_view(t)),
{
    assert(tracks_view(ts.insert(i, t)) =~= tracks_view(ts).insert(i, track_view(t)));
}

proof fn lemma_tracks_view_remove(ts: Seq<Track>, i: int)
    requires
        0 <= i < ts.len(),
    ensures
        tracks_view(ts.remove(i)) == tracks_view(ts).remove(i),
{
    assert(tracks_view(ts.remove(i)) =~= tracks_view(ts).remove(i));
}

proof fn lemma_tracks_view_update(ts: Seq<Track>, i: int, t: Track)
    requires
        0 <= i < ts.len(),
    ensures
        tracks_view(ts.update(i, t)) == tracks_view(ts).update(i, track_view(t)),
{
    assert(tracks_view(ts.update(i, t)) =~= tracks_view(ts).update(i, track_view(t)));
}

impl<P> Module<P> {
    /// The edited contents.
    pub closed spec fn state(&self) -> ModuleState<P> {
        ModuleState { kit: self.kit@, patches: self.patches@, tracks: tracks_view(self.tracks@) }
    }

    /// The edits that undo reverts, the most recent last.
    pub closed spec fn undo_edits(&self) -> Seq<EditView<P>> {
        self.undo_stack@.map_values(|e: Edit<P>| edit_view(e))
    }

    /// The edits that redo reapplies, the most recent last.
    pub closed spec fn redo_edits(&self) -> Seq<EditView<P>> {
        self.redo_stack@.map_values(|e: Edit<P>| edit_view(e))
    }

    /// Track insertions and removals not yet drained.
    pub closed spec fn track_history(&self) -> Seq<TrackEdit> {
        self.track_history@
    }

    /// The edits recorded for synchronization, the earliest first.
    pub closed spec fn synced_edits(&self) -> Seq<EditView<P>> {
        self.sync_stack@.map_values(|e: Edit<P>| edit_view(e))
    }

    /// Whether there are changes not yet saved.
    pub closed spec fn unsaved(&self) -> bool {
        self.has_unsaved_changes
    }

    /// Whether edits are recorded for synchronization.
    pub closed spec fn syncing(&self) -> bool {
        self.sync
    }

    /// The saved beat division.
    pub closed spec fn saved_division(&self) -> u8 {
        self.division
    }

    /// The title and author.
    pub closed spec fn metadata(&self) -> (Seq<char>, Seq<char>) {
        (self.title@, self.author@)
    }

    /// The fields that edits leave alone are unchanged from `other`.
    pub closed spec fn same_settings(&self, other: &Self) -> bool {
        &&& self.title@ == other.title@
        &&& self.author@ == other.author@
        &&& self.division == other.division
        &&& self.sync == other.sync
    }

    /// The tracks, whose contents are those of the edited state.
    pub fn tracks(&self) -> (r: &Vec<Track>)
        ensures
            tracks_view(r@) == self.state().tracks,
    {
        &self.tracks
    }

    /// The patches of the edited state.
    pub fn patches(&self) -> (r: &Vec<P>)
        ensures
            r@ == self.state().patches,
    {
        &self.patches
    }

    /// The kit of the edited state.
    pub fn kit(&self) -> (r: &Vec<KitEntry>)
        ensures
            r@ == self.state().kit,
    {
        &self.kit
    }

    /// Whether the edit applies to the module (see `edit_ok`).
    pub fn edit_applies(&self, edit: &Edit<P>) -> (r: bool)
        ensures
            r == edit_ok(self.state(), edit_view(*edit)),
    {
        let n = self.tracks.len();
        match edit {
            Edit::InsertTrack(i, _) => *i <= n,
            Edit::RemoveTrack(i) => *i < n,
            Edit::ShiftTrack(i, o) => {
                let dst = match i.checked_add_signed(*o) {
                    Some(d) => d,
                    None => if *o < 0 { 0 } else { usize::MAX },
                };
                *i < n && dst < n && *o != isize::MIN
            },
            Edit::RemapTrack(i, _) => *i < n,
            Edit::AddChannel(i, _) => *i < n,
            Edit::RemoveChannel(i) => *i < n && self.tracks[*i].channels.len() > 0,
            Edit::PatternData { remove, add } => positions_fit(&self.tracks, remove) && located_fit(&self.tracks, add),
            Edit::InsertPatch(i, _) => *i <= self.patches.len(),
            Edit::RemovePatch(i) => *i < self.patches.len(),
            Edit::RestorePatch { index, targets, .. } => *index <= self.patches.len() && targets.len() == n,
            Edit::ShiftEvents { channels, start, distance, insert } => {
                shift_all_fits(&self.tracks, channels, *start, *distance)
                    && distance.num() != i32::MIN
                    && located_fit(&self.tracks, insert)
            },
            Edit::ReplaceEvents(_) => true,
        }
    }

    /// Whether there is an edit to undo and it applies.
    pub fn can_undo(&self) -> (r: bool)
        ensures
            r == (self.undo_edits().len() > 0 && edit_ok(self.state(), self.undo_edits().last())),
    {
        let n = self.undo_stack.len();
        if n == 0 {
            false
        } else {
            assert(self.undo_edits().last() == edit_view(self.undo_stack@[n - 1]));
            self.edit_applies(&self.undo_stack[n - 1])
        }
    }

    /// Whether there is an edit to redo and it applies.
    pub fn can_redo(&self) -> (r: bool)
        ensures
            r == (self.redo_edits().len() > 0 && edit_ok(self.state(), self.redo_edits().last())),
    {
        let n = self.redo_stack.len();
        if n == 0 {
            false
        } else {
            assert(self.redo_edits().last() == edit_view(self.redo_stack@[n - 1]));
            self.edit_applies(&self.redo_stack[n - 1])
        }
    }

    /// A module with the given initial patch: a global track, a kit track
    /// and a track of the patch, no history, and the default division.
    pub fn new(patch: P) -> (r: Self)
        ensures
            r.state().kit.len() == 0,
            r.state().patches == seq![patch],
            r.state().tracks == seq![
                TrackView { target: TrackTarget::Global, channels: seq![Seq::<Event>::empty()] },
                TrackView { target: TrackTarget::Kit, channels: seq![Seq::<Event>::empty()] },
                TrackView { target: TrackTarget::Patch(0), channels: seq![Seq::<Event>::empty()] },
            ],
            r.undo_edits().len() == 0,
            r.redo_edits().len() == 0,
            r.track_history().len() == 0,
            r.synced_edits().len() == 0,
            !r.unsaved(),
            !r.syncing(),
            r.saved_division() == 4,
            r.metadata().0.len() == 0,
            r.metadata().1.len() == 0,
    {
        let mut patches = Vec::new();
        patches.push(patch);
        let mut tracks = Vec::new();
        tracks.push(Track::new(TrackTarget::Global));
        tracks.push(Track::new(TrackTarget::Kit));
        tracks.push(Track::new(TrackTarget::Patch(0)));
        let r = Self {
            title: String::new(),
            author: String::new(),
            kit: Vec::new(),
            patches,
            tracks,
            undo_stack: Vec::new(),
            redo_stack: Vec::new(),
            track_history: Vec::new(),
            has_unsaved_changes: false,
            division: default_division(),
            sync_stack: Vec::new(),
            sync: false,
        };
        assert(r.state().patches =~= seq![patch]);
        assert(r.state().tracks =~= seq![
            TrackView { target: TrackTarget::Global, channels: seq![Seq::<Event>::empty()] },
            TrackView { target: TrackTarget::Kit, channels: seq![Seq::<Event>::empty()] },
            TrackView { target: TrackTarget::Patch(0), channels: seq![Seq::<Event>::empty()] },
        ]);
        assert(r.undo_edits() =~= Seq::empty());
        assert(r.redo_edits() =~= Seq::empty());
        r
    }

    /// Remove the patch at `index`, returning it with the kit and the track
    /// targets as they were.
    fn remove_patch(&mut self, index: usize) -> (r: (P, Vec<KitEntry>, Vec<TrackTarget>))
        requires
            index < old(self).patches.len(),
        ensures
            r.0 == old(self).state().patches[index as int],
            r.1@ == old(self).state().kit,
            r.2@ == old(self).state().tracks.map_values(|t: TrackView| t.target),
            final(self).state() == apply_edit(old(self).state(), EditView::<P>::RemovePatch(index)).0,
            final(self).same_settings(old(self)),
            final(self).undo_stack == old(self).undo_stack,
            final(self).redo_stack == old(self).redo_stack,
            final(self).track_history == old(self).track_history,
            final(self).sync_stack == old(self).sync_stack,
            final(self).has_unsaved_changes == old(self).has_unsaved_changes,
    {
        let targets = track_targets(&self.tracks);
        let mut kit = kit_without_patch(&self.kit, index);
        std::mem::swap(&mut self.kit, &mut kit);
        let patch = self.patches.remove(index);
        retarget_tracks(&mut self.tracks, index);
        (patch, kit, targets)
    }

    /// Insert `patch` at `index` and put back the kit and the track targets
    /// that were there before its removal.
    fn restore_patch(&mut self, index: usize, patch: P, kit: Vec<KitEntry>, targets: &Vec<TrackTarget>)
        requires
            index <= old(self).patches.len(),
            targets@.len() == old(self).tracks.len(),
        ensures
            final(self).state() == apply_edit(
                old(self).state(),
                EditView::RestorePatch { index, patch, kit: kit@, targets: targets@ },
            ).0,
            final(self).same_settings(old(self)),
            final(self).undo_stack == old(self).undo_stack,
            final(self).redo_stack == old(self).redo_stack,
            final(self).track_history == old(self).track_history,
            final(self).sync_stack == old(self).sync_stack,
            final(self).has_unsaved_changes == old(self).has_unsaved_changes,
    {
        self.patches.insert(index, patch);
        self.kit = kit;
        let ghost tv0 = tracks_view(self.tracks@);
        let mut t: usize = 0;
        while t < self.tracks.len()
            invariant
                t <= self.tracks.len(),
                self.tracks@.len() == tv0.len(),
                targets@.len() == tv0.len(),
                tv0 == tracks_view(old(self).tracks@),
                forall|j: int| 0 <= j < t ==> #[trigger] track_view(self.tracks@[j]) == (TrackView {
                    target: targets@[j],
                    channels: tv0[j].channels,
                }),
                forall|j: int| t <= j < tv0.len() ==> #[trigger] track_view(self.tracks@[j]) == tv0[j],
                self.patches@ == old(self).patches@.insert(index as int, patch),
                self.kit@ == kit@,
                self.same_settings(old(self)),
                self.undo_stack == old(self).undo_stack,
                self.redo_stack == old(self).redo_stack,
                self.track_history == old(self).track_history,
                self.sync_stack == old(self).sync_stack,
                self.has_unsaved_changes == old(self).has_unsaved_changes,
            decreases self.tracks.len() - t,
        {
            let ghost before = self.tracks@;
            assert(track_view(before[t as int]) == tv0[t as int]);
            self.tracks[t].target = targets[t];
            proof {
                assert(self.tracks@[t as int].channels == before[t as int].channels);
                assert forall|j: int| 0 <= j < self.tracks@.len() && j != t implies self.tracks@[j] == before[j] by {}
            }
            t = t + 1;
        }
        proof {
            assert(tracks_view(self.tracks@) =~= Seq::new(tv0.len(), |j: int| TrackView {
                target: targets@[j],
                channels: tv0[j].channels,
            }));
        }
    }
}

/// The target of each track.
fn track_targets(ts: &Vec<Track>) -> (r: Vec<TrackTarget>)
    ensures
        r@ == tracks_view(ts@).map_values(|t: TrackView| t.target),
{
    let mut r: Vec<TrackTarget> = Vec::new();
    let mut i: usize = 0;
    while i < ts.len()
        invariant
            i <= ts.len(),
            r@ == tracks_view(ts@).take(i as int).map_values(|t: TrackView| t.target),
        decreases ts.len() - i,
    {
        proof {
            assert(tracks_view(ts@).take(i as int + 1).map_values(|t: TrackView| t.target)
                =~= r@.push(ts@[i as int].target));
        }
        r.push(ts[i].target);
        i = i + 1;
    }
    proof {
        assert(tracks_view(ts@).take(i as int) =~= tracks_view(ts@));
    }
    r
}

/// The kit after removing patch `index`.
fn kit_without_patch(kit: &Vec<KitEntry>, index: usize) -> (r: Vec<KitEntry>)
    ensures
        r@ == kit_after_patch_removal(kit@, index),
{
    let mut r: Vec<KitEntry> = Vec::new();
    let mut i: usize = 0;
    while i < kit.len()
        invariant
            i <= kit.len(),
            r@ == kit_after_patch_removal(kit@.take(i as int), index),
        decreases kit.len() - i,
    {
        proof {
            assert(kit@.take(i as int + 1).drop_last() =~= kit@.take(i as int));
        }
        let e = kit[i];
        if e.patch_index != index {
            if e.patch_index > index {
                r.push(KitEntry { patch_index: e.patch_index - 1, ..e });
            } else {
                r.push(e);
            }
        }
        i = i + 1;
    }
    proof {
        assert(kit@.take(i as int) =~= kit@);
    }
    r
}

/// Updates the track targets for the removal of patch `index`.
fn retarget_tracks(ts: &mut Vec<Track>, index: usize)
    ensures
        tracks_view(final(ts)@) == tracks_view(old(ts)@).map_values(|t: TrackView| TrackView {
            target: target_after_patch_removal(t.target, index),
            channels: t.channels,
        }),
{
    let ghost tv0 = tracks_view(ts@);
    let mut t: usize = 0;
    while t < ts.len()
        invariant
            t <= ts.len(),
            ts@.len() == tv0.len(),
            tv0 == tracks_view(old(ts)@),
            forall|j: int| 0 <= j < t ==> #[trigger] track_view(ts@[j]) == (TrackView {
                target: target_after_patch_removal(tv0[j].target, index),
                channels: tv0[j].channels,
            }),
            forall|j: int| t <= j < tv0.len() ==> #[trigger] track_view(ts@[j]) == tv0[j],
        decreases ts.len() - t,
    {
        let ghost before = ts@;
        assert(track_view(before[t as int]) == tv0[t as int]);
        let target = ts[t].target;
        match target {
            TrackTarget::Patch(i) => {
                if i == index {
                    ts[t].target = TrackTarget::Unassigned;
                } else if i > index {
                    ts[t].target = TrackTarget::Patch(i - 1);
                }
            },
            _ => {},
        }
        proof {
            assert(ts@[t as int].channels == before[t as int].channels);
            assert forall|j: int| 0 <= j < ts@.len() && j != t implies ts@[j] == before[j] by {}
        }
        t = t + 1;
    }
    proof {
        assert(tracks_view(ts@) =~= tv0.map_values(|t: TrackView| TrackView {
            target: target_after_patch_removal(t.target, index),
            channels: t.channels,
        }));
    }
}

impl<P: Clone> Module<P> {
    /// Performs an edit operation and returns its inverse.
    fn flip_edit(&mut self, edit: Edit<P>) -> (r: Edit<P>)
        requires
            edit_ok(old(self).state(), edit_view(edit)),
        ensures
            final(self).state() == apply_edit(old(self).state(), edit_view(edit)).0,
            edit_view(r) == apply_edit(old(self).state(), edit_view(edit)).1,
            final(self).track_history() == old(self).track_history() + track_history_of(edit_view(edit)),
            final(self).undo_edits() == old(self).undo_edits(),
            final(self).redo_edits() == old(self).redo_edits(),
            sync_recorded(old(self).synced_edits(), final(self).synced_edits(), old(self).syncing(), edit_view(edit)),
            final(self).unsaved(),
            final(self).same_settings(old(self)),
    {
        if self.sync {
            let copy = edit.duplicate();
            self.sync_stack.push(copy);
            proof {
                assert(self.synced_edits() =~= old(self).synced_edits().push(edit_view(copy)));
                assert(self.synced_edits().drop_last() =~= old(self).synced_edits());
            }
        }
        let ghost sync1 = self.sync_stack@;
        self.has_unsaved_changes = true;
        let ghost st0 = self.state();
        let ghost h0 = self.track_history@;
        match edit {
            Edit::InsertTrack(index, track) => {
                proof {
                    lemma_tracks_view_insert(self.tracks@, index as int, track);
                }
                self.tracks.insert(index, track);
                self.track_history.push(TrackEdit::Insert(index));
                proof {
                    assert(self.track_history@ =~= h0 + track_history_of(edit_view(edit)));
                }
                Edit::RemoveTrack(index)
            },
            Edit::RemoveTrack(index) => {
                proof {
                    lemma_tracks_view_remove(self.tracks@, index as int);
                }
                let track = self.tracks.remove(index);
                self.track_history.push(TrackEdit::Remove(index));
                proof {
                    assert(self.track_history@ =~= h0 + track_history_of(edit_view(edit)));
                }
                Edit::InsertTrack(index, track)
            },
            Edit::ShiftTrack(index, offset) => {
                // this could be implemented with insert + remove, but that
                // means multiple undo items and more memory usage
                let dst = match index.checked_add_signed(offset) {
                    Some(d) => d,
                    None => if offset < 0 { 0 } else { usize::MAX },
                };
                proof {
                    lemma_tracks_view_remove(self.tracks@, index as int);
                }
                let track = self.tracks.remove(index);
                proof {
                    lemma_tracks_view_insert(self.tracks@, dst as int, track);
                }
                self.tracks.insert(dst, track);
                self.track_history.push(TrackEdit::Remove(index));
                self.track_history.push(TrackEdit::Insert(dst));
                proof {
                    assert(self.track_history@ =~= h0 + track_history_of(edit_view(edit)));
                }
                Edit::ShiftTrack(dst, -offset)
            },
            Edit::RemapTrack(index, target) => {
                let ghost before = self.tracks@;
                let old_target = self.tracks[index].target;
                self.tracks[index].target = target;
                proof {
                    lemma_tracks_view_update(before, index as int, self.tracks@[index as int]);
                    assert(self.track_history@ =~= h0 + track_history_of(edit_view(edit)));
                }
                Edit::RemapTrack(index, old_target)
            },
            Edit::AddChannel(index, channel) => {
                let ghost before = self.tracks@;
                self.tracks[index].channels.push(channel);
                proof {
                    lemma_tracks_view_update(before, index as int, self.tracks@[index as int]);
                    assert(channels_view(self.tracks@[index as int].channels@)
                        =~= channels_view(before[index as int].channels@).push(channel.events@));
                    assert(self.track_history@ =~= h0 + track_history_of(edit_view(edit)));
                }
                Edit::RemoveChannel(index)
            },
            Edit::RemoveChannel(index) => {
                let ghost before = self.tracks@;
                let channel = match self.tracks[index].channels.pop() {
                    Some(c) => c,
                    None => Channel::default(),
                };
                proof {
                    lemma_tracks_view_update(before, index as int, self.tracks@[index as int]);
                    assert(channels_view(self.tracks@[index as int].channels@)
                        =~= channels_view(before[index as int].channels@).drop_last());
                    assert(self.track_history@ =~= h0 + track_history_of(edit_view(edit)));
                }
                Edit::AddChannel(index, channel)
            },
            Edit::PatternData { remove, add } => {
                let (flip_remove, flip_add) = apply_pattern_data(&mut self.tracks, &remove, &add);
                proof {
                    assert(self.track_history@ =~= h0 + track_history_of(edit_view(edit)));
                }
                Edit::PatternData { remove: flip_remove, add: flip_add }
            },
            Edit::InsertPatch(index, patch) => {
                self.patches.insert(index, patch);
                proof {
                    assert(self.track_history@ =~= h0 + track_history_of(edit_view(edit)));
                }
                Edit::RemovePatch(index)
            },
            Edit::RemovePatch(index) => {
                let (patch, kit, targets) = self.remove_patch(index);
                proof {
                    assert(self.track_history@ =~= h0 + track_history_of(edit_view(edit)));
                }
                Edit::RestorePatch { index, patch, kit, targets }
            },
            Edit::RestorePatch { index, patch, kit, targets } => {
                self.restore_patch(index, patch, kit, &targets);
                proof {
                    assert(self.track_history@ =~= h0 + track_history_of(edit_view(edit)));
                }
                Edit::RemovePatch(index)
            },
            Edit::ShiftEvents { channels, start, distance, insert } => {
                // shift/delete events starting at selection
                let deleted = shift_channels_in(&mut self.tracks, &channels, start, distance);
                proof {
                    lemma_shift_all_shape(st0.tracks, coords_view(channels@), start, distance);
                    assert(located_valid(tracks_view(self.tracks@), insert@));
                    assert(positions_valid(tracks_view(self.tracks@), Seq::<Position>::empty()));
                }
                // re-insert previously deleted events
                let none: Vec<Position> = Vec::new();
                let _ = apply_pattern_data(&mut self.tracks, &none, &insert);
                proof {
                    assert(none@ =~= Seq::<Position>::empty());
                    assert(self.track_history@ =~= h0 + track_history_of(edit_view(edit)));
                }
                Edit::ShiftEvents { channels, start, distance: distance.neg(), insert: deleted }
            },
            Edit::ReplaceEvents(events) => {
                let mut olds: Vec<LocatedEvent> = Vec::new();
                let mut k: usize = 0;
                while k < events.len()
                    invariant
                        k <= events.len(),
                        (tracks_view(self.tracks@), olds@) == replace_all(st0.tracks, events@.take(k as int)),
                        self.kit@ == st0.kit,
                        self.patches@ == st0.patches,
                        self.track_history@ == h0,
                        self.undo_stack == old(self).undo_stack,
                        self.redo_stack == old(self).redo_stack,
                        self.sync_stack@ == sync1,
                        self.has_unsaved_changes,
                        self.same_settings(old(self)),
                    decreases events.len() - k,
                {
                    proof {
                        assert(events@.take(k as int + 1).drop_last() =~= events@.take(k as int));
                    }
                    let old_evt = replace_event_in(&mut self.tracks, events[k]);
                    olds.push(old_evt);
                    k = k + 1;
                }
                proof {
                    assert(events@.take(k as int) =~= events@);
                    assert(self.track_history@ =~= h0 + track_history_of(edit_view(edit)));
                }
                Edit::ReplaceEvents(olds)
            },
        }
    }
}

impl<P: Clone> Module<P> {
    /// Performs an edit operation and updates undo/redo stacks.
    pub fn push_edit(&mut self, edit: Edit<P>)
        requires
            edit_ok(old(self).state(), edit_view(edit)),
        ensures
            final(self).state() == apply_edit(old(self).state(), edit_view(edit)).0,
            final(self).undo_edits() == old(self).undo_edits().push(apply_edit(old(self).state(), edit_view(edit)).1),
            final(self).redo_edits().len() == 0,
            final(self).track_history() == old(self).track_history() + track_history_of(edit_view(edit)),
            sync_recorded(old(self).synced_edits(), final(self).synced_edits(), old(self).syncing(), edit_view(edit)),
            final(self).unsaved(),
            final(self).same_settings(old(self)),
    {
        let edit = self.flip_edit(edit);
        self.undo_stack.push(edit);
        self.redo_stack.clear();
        proof {
            assert(self.undo_edits() =~= old(self).undo_edits().push(edit_view(edit)));
            assert(self.redo_edits() =~= Seq::<EditView<P>>::empty());
        }
    }

    /// Reverts the most recent edit, if any. Returns true if there was
    /// something to undo.
    pub fn undo(&mut self) -> (r: bool)
        requires
            old(self).undo_edits().len() > 0 ==> edit_ok(old(self).state(), old(self).undo_edits().last()),
        ensures
            r == (old(self).undo_edits().len() > 0),
            !r ==> final(self).state() == old(self).state() && final(self).undo_edits() == old(self).undo_edits()
                && final(self).redo_edits() == old(self).redo_edits()
                && final(self).track_history() == old(self).track_history()
                && final(self).synced_edits() == old(self).synced_edits()
                && final(self).unsaved() == old(self).unsaved(),
            r ==> {
                let (st, inv) = apply_edit(old(self).state(), old(self).undo_edits().last());
                &&& final(self).state() == st
                &&& final(self).undo_edits() == old(self).undo_edits().drop_last()
                &&& final(self).redo_edits() == old(self).redo_edits().push(inv)
                &&& final(self).track_history() == old(self).track_history() + track_history_of(old(self).undo_edits().last())
                &&& sync_recorded(old(self).synced_edits(), final(self).synced_edits(), old(self).syncing(), old(self).undo_edits().last())
                &&& final(self).unsaved()
            },
            final(self).same_settings(old(self)),
    {
        match self.undo_stack.pop() {
            Some(edit) => {
                proof {
                    assert(old(self).undo_edits().last() == edit_view(edit));
                }
                let edit = self.flip_edit(edit);
                self.redo_stack.push(edit);
                proof {
                    assert(self.undo_edits() =~= old(self).undo_edits().drop_last());
                    assert(self.redo_edits() =~= old(self).redo_edits().push(edit_view(edit)));
                }
                true
            },
            None => false,
        }
    }

    /// Reapplies the most recently undone edit, if any. Returns true if
    /// there was something to redo.
    pub fn redo(&mut self) -> (r: bool)
        requires
            old(self).redo_edits().len() > 0 ==> edit_ok(old(self).state(), old(self).redo_edits().last()),
        ensures
            r == (old(self).redo_edits().len() > 0),
            !r ==> final(self).state() == old(self).state() && final(self).undo_edits() == old(self).undo_edits()
                && final(self).redo_edits() == old(self).redo_edits()
                && final(self).track_history() == old(self).track_history()
                && final(self).synced_edits() == old(self).synced_edits()
                && final(self).unsaved() == old(self).unsaved(),
            r ==> {
                let (st, inv) = apply_edit(old(self).state(), old(self).redo_edits().last());
                &&& final(self).state() == st
                &&& final(self).redo_edits() == old(self).redo_edits().drop_last()
                &&& final(self).undo_edits() == old(self).undo_edits().push(inv)
                &&& final(self).track_history() == old(self).track_history() + track_history_of(old(self).redo_edits().last())
                &&& sync_recorded(old(self).synced_edits(), final(self).synced_edits(), old(self).syncing(), old(self).redo_edits().last())
                &&& final(self).unsaved()
            },
            final(self).same_settings(old(self)),
    {
        match self.redo_stack.pop() {
            Some(edit) => {
                proof {
                    assert(old(self).redo_edits().last() == edit_view(edit));
                }
                let edit = self.flip_edit(edit);
                self.undo_stack.push(edit);
                proof {
                    assert(self.redo_edits() =~= old(self).redo_edits().drop_last());
                    assert(self.undo_edits() =~= old(self).undo_edits().push(edit_view(edit)));
                }
                true
            },
            None => false,
        }
    }
}

/// Lexicographic order on (track, channel, column) triples.
pub open spec fn triple_le(a: (usize, usize, u8), b: (usize, usize, u8)) -> bool {
    ||| a.0 < b.0
    ||| (a.0 == b.0 && a.1 < b.1)
    ||| (a.0 == b.0 && a.1 == b.1 && a.2 <= b.2)
}

fn triple_le_exec(a: (usize, usize, u8), b: (usize, usize, u8)) -> (r: bool)
    ensures
        r == triple_le(a, b),
{
    a.0 < b.0 || (a.0 == b.0 && a.1 < b.1) || (a.0 == b.0 && a.1 == b.1 && a.2 <= b.2)
}

/// The event of channel `(t, c)` lies in the selection from `start` to
/// `end`: its tick is in `[start.tick, end.tick)` or equals `start.tick`,
/// and its (track, channel, spatial column) lies between the corners.
pub open spec fn in_selection(e: Event, t: usize, c: usize, start: Position, end: Position) -> bool {
    &&& ((!less_value(e.tick@, start.tick@) && less_value(e.tick@, end.tick@)) || e.tick == start.tick)
    &&& triple_le((start.track, start.channel, start.column), (t, c, spatial_column_spec(e.data)))
    &&& triple_le((t, c, spatial_column_spec(e.data)), (end.track, end.channel, end.column))
}

/// The selected events of one channel, located, in order.
pub open spec fn scan_channel(evs: Seq<Event>, t: usize, c: usize, start: Position, end: Position) -> Seq<LocatedEvent>
    decreases evs.len(),
{
    if evs.len() == 0 {
        Seq::empty()
    } else {
        let p = scan_channel(evs.drop_last(), t, c, start, end);
        if in_selection(evs.last(), t, c, start, end) {
            p.push(LocatedEvent { track: t, channel: c, event: evs.last() })
        } else {
            p
        }
    }
}

/// The selected events of the first `k` channels of track `t`.
pub open spec fn scan_track(chs: Seq<Seq<Event>>, t: usize, k: int, start: Position, end: Position) -> Seq<LocatedEvent>
    decreases k,
{
    if k <= 0 {
        Seq::empty()
    } else {
        scan_track(chs, t, k - 1, start, end) + scan_channel(chs[k - 1], t, (k - 1) as usize, start, end)
    }
}

/// The selected events of the first `k` tracks.
pub open spec fn scan_tracks(ts: Seq<TrackView>, k: int, start: Position, end: Position) -> Seq<LocatedEvent>
    decreases k,
{
    if k <= 0 {
        Seq::empty()
    } else {
        scan_tracks(ts, k - 1, start, end) + scan_track(ts[k - 1].channels, (k - 1) as usize, ts[k - 1].channels.len() as int, start, end)
    }
}

/// The first kit entry for `note`, as (patch index, patch note).
pub open spec fn kit_patch(kit: Seq<KitEntry>, note: Note) -> Option<(usize, Note)>
    decreases kit.len(),
{
    if kit.len() == 0 {
        None
    } else if kit[0].input_note == note {
        Some((kit[0].patch_index, kit[0].patch_note))
    } else {
        kit_patch(kit.skip(1), note)
    }
}

proof fn lemma_kit_patch_step(kit: Seq<KitEntry>, note: Note, i: int)
    requires
        0 <= i < kit.len(),
        forall|j: int| 0 <= j < i ==> (#[trigger] kit[j]).input_note != note,
    ensures
        kit_patch(kit, note) == kit_patch(kit.skip(i), note),
    decreases i,
{
    if i > 0 {
        assert forall|j: int| 0 <= j < i - 1 implies (#[trigger] kit.skip(1)[j]).input_note != note by {
            assert(kit.skip(1)[j] == kit[j + 1]);
        }
        lemma_kit_patch_step(kit.skip(1), note, i - 1);
        assert(kit[0].input_note != note);
        assert(kit.skip(1).skip(i - 1) =~= kit.skip(i));
    } else {
        assert(kit.skip(0) =~= kit);
    }
}

proof fn lemma_kit_patch_none(kit: Seq<KitEntry>, note: Note)
    requires
        forall|j: int| 0 <= j < kit.len() ==> (#[trigger] kit[j]).input_note != note,
    ensures
        kit_patch(kit, note) == None::<(usize, Note)>,
    decreases kit.len(),
{
    if kit.len() > 0 {
        assert forall|j: int| 0 <= j < kit.len() - 1 implies (#[trigger] kit.skip(1)[j]).input_note != note by {
            assert(kit.skip(1)[j] == kit[j + 1]);
        }
        lemma_kit_patch_none(kit.skip(1), note);
        assert(kit[0].input_note != note);
    }
}

impl<P> Module<P> {
    /// Returns the kit patch that `note` maps to, if any.
    fn get_kit_patch(&self, note: Note) -> (r: Option<(usize, Note)>)
        ensures
            r == kit_patch(self.state().kit, note),
    {
        let mut i: usize = 0;
        while i < self.kit.len()
            invariant
                i <= self.kit.len(),
                forall|j: int| 0 <= j < i ==> (#[trigger] self.kit@[j]).input_note != note,
            decreases self.kit.len() - i,
        {
            if self.kit[i].input_note == note {
                proof {
                    lemma_kit_patch_step(self.kit@, note, i as int);
                }
                return Some((self.kit[i].patch_index, self.kit[i].patch_note));
            }
            i = i + 1;
        }
        proof {
            lemma_kit_patch_none(self.kit@, note);
        }
        None
    }

    /// Map a patch index and note to a patch and note, accounting for kit
    /// mappings.
    pub fn map_input(&self, patch_index: Option<usize>, note: Note) -> (r: Option<(usize, Note)>)
        ensures
            r == match patch_index {
                Some(index) => Some((index, note)),
                None => kit_patch(self.state().kit, note),
            },
    {
        if let Some(index) = patch_index {
            Some((index, note))
        } else {
            self.get_kit_patch(note)
        }
    }

    /// Maps a note based on track index.
    pub fn map_note(&self, note: Note, track: usize) -> (r: Option<(usize, Note)>)
        ensures
            r == if track < self.state().tracks.len() {
                match self.state().tracks[track as int].target {
                    TrackTarget::Unassigned | TrackTarget::Global => None,
                    TrackTarget::Kit => kit_patch(self.state().kit, note),
                    TrackTarget::Patch(i) => Some((i, note)),
                }
            } else {
                None
            },
    {
        if track < self.tracks.len() {
            match self.tracks[track].target {
                TrackTarget::Unassigned | TrackTarget::Global => None,
                TrackTarget::Kit => self.get_kit_patch(note),
                TrackTarget::Patch(i) => Some((i, note)),
            }
        } else {
            None
        }
    }

    /// Return copies of pattern events between two positions.
    /// The end tick is exclusive unless start and end ticks are equal.
    pub fn scan_events(&self, start: Position, end: Position) -> (r: Vec<LocatedEvent>)
        ensures
            r@ == scan_tracks(self.state().tracks, self.state().tracks.len() as int, start, end),
    {
        let ghost ts = self.state().tracks;
        let start_tuple = start.x_tuple();
        let end_tuple = end.x_tuple();
        let mut events: Vec<LocatedEvent> = Vec::new();
        let mut t: usize = 0;
        while t < self.tracks.len()
            invariant
                t <= self.tracks.len(),
                ts == self.state().tracks,
                start_tuple == (start.track, start.channel, start.column),
                end_tuple == (end.track, end.channel, end.column),
                events@ == scan_tracks(ts, t as int, start, end),
            decreases self.tracks.len() - t,
        {
            let chs = &self.tracks[t].channels;
            let ghost chv = ts[t as int].channels;
            assert(chv == channels_view(chs@));
            let ghost before = events@;
            let mut c: usize = 0;
            while c < chs.len()
                invariant
                    c <= chs.len(),
                    chv == channels_view(chs@),
                    start_tuple == (start.track, start.channel, start.column),
                    end_tuple == (end.track, end.channel, end.column),
                    events@ == before + scan_track(chv, t, c as int, start, end),
                decreases chs.len() - c,
            {
                let evs = &chs[c].events;
                assert(chv[c as int] == evs@);
                let ghost before_c = events@;
                let mut i: usize = 0;
                while i < evs.len()
                    invariant
                        i <= evs.len(),
                        start_tuple == (start.track, start.channel, start.column),
                        end_tuple == (end.track, end.channel, end.column),
                        events@ == before_c + scan_channel(evs@.take(i as int), t, c, start, end),
                    decreases evs.len() - i,
                {
                    proof {
                        assert(evs@.take(i as int + 1).drop_last() =~= evs@.take(i as int));
                    }
                    let evt = evs[i];
                    let tuple = (t, c, evt.data.spatial_column());
                    let in_ticks = (!(evt.tick < start.tick) && evt.tick < end.tick) || evt.tick == start.tick;
                    if in_ticks && triple_le_exec(start_tuple, tuple) && triple_le_exec(tuple, end_tuple) {
                        events.push(LocatedEvent { track: t, channel: c, event: evt });
                    }
                    proof {
                        assert(events@ =~= before_c + scan_channel(evs@.take(i as int + 1), t, c, start, end));
                    }
                    i = i + 1;
                }
                proof {
                    assert(evs@.take(i as int) =~= evs@);
                    assert(events@ =~= before + scan_track(chv, t, c as int + 1, start, end));
                }
                c = c + 1;
            }
            proof {
                assert(events@ =~= scan_tracks(ts, t as int + 1, start, end));
            }
            t = t + 1;
        }
        events
    }
}

proof fn lemma_scan_channel_valid(evs: Seq<Event>, t: usize, c: usize, start: Position, end: Position)
    ensures
        forall|j: int| 0 <= j < scan_channel(evs, t, c, start, end).len() ==>
            (#[trigger] scan_channel(evs, t, c, start, end)[j]).track == t && scan_channel(evs, t, c, start, end)[j].channel == c,
    decreases evs.len(),
{
    if evs.len() > 0 {
        lemma_scan_channel_valid(evs.drop_last(), t, c, start, end);
    }
}

proof fn lemma_scan_track_valid(ts: Seq<TrackView>, t: usize, k: int, start: Position, end: Position)
    requires
        t < ts.len(),
        k <= ts[t as int].channels.len(),
    ensures
        located_valid(ts, scan_track(ts[t as int].channels, t, k, start, end)),
    decreases k,
{
    if k > 0 {
        lemma_scan_track_valid(ts, t, k - 1, start, end);
        lemma_scan_channel_valid(ts[t as int].channels[k - 1], t, (k - 1) as usize, start, end);
        let a = scan_track(ts[t as int].channels, t, k - 1, start, end);
        let b = scan_channel(ts[t as int].channels[k - 1], t, (k - 1) as usize, start, end);
        assert forall|j: int| 0 <= j < (a + b).len() implies valid_channel(ts, #[trigger] (a + b)[j].track as int, (a + b)[j].channel as int) by {
            if j < a.len() {
                assert((a + b)[j] == a[j]);
            } else {
                assert((a + b)[j] == b[j - a.len()]);
            }
        }
    }
}

proof fn lemma_scan_tracks_valid(ts: Seq<TrackView>, k: int, start: Position, end: Position)
    requires
        k <= ts.len(),
        ts.len() <= usize::MAX,
    ensures
        located_valid(ts, scan_tracks(ts, k, start, end)),
    decreases k,
{
    if k > 0 {
        lemma_scan_tracks_valid(ts, k - 1, start, end);
        lemma_scan_track_valid(ts, (k - 1) as usize, ts[k - 1].channels.len() as int, start, end);
        let a = scan_tracks(ts, k - 1, start, end);
        let b = scan_track(ts[k - 1].channels, (k - 1) as usize, ts[k - 1].channels.len() as int, start, end);
        assert forall|j: int| 0 <= j < (a + b).len() implies valid_channel(ts, #[trigger] (a + b)[j].track as int, (a + b)[j].channel as int) by {
            if j < a.len() {
                assert((a + b)[j] == a[j]);
            } else {
                assert((a + b)[j] == b[j - a.len()]);
            }
        }
    }
}

/// The positions of the selected events.
pub open spec fn selected_positions(ts: Seq<TrackView>, start: Position, end: Position) -> Seq<Position> {
    scan_tracks(ts, ts.len() as int, start, end).map_values(|e: LocatedEvent| located_position(e))
}

/// Channel `(t, c)` lies between the corners' (track, channel) pairs.
pub open spec fn coord_selected(t: int, c: int, start: Position, end: Position) -> bool {
    &&& (start.track < t || (start.track == t && start.channel <= c))
    &&& (t < end.track || (t == end.track && c <= end.channel))
}

/// The selected channels among the first `k` of track `t`, as `u8`
/// coordinates.
pub open spec fn track_coords(t: int, k: int, start: Position, end: Position) -> Seq<(int, int)>
    decreases k,
{
    if k <= 0 {
        Seq::empty()
    } else {
        let p = track_coords(t, k - 1, start, end);
        if coord_selected(t, k - 1, start, end) {
            p.push(((t as u8) as int, ((k - 1) as u8) as int))
        } else {
            p
        }
    }
}

/// The selected channels of the first `k` tracks, as `u8` coordinates.
pub open spec fn selected_coords(ts: Seq<TrackView>, k: int, start: Position, end: Position) -> Seq<(int, int)>
    decreases k,
{
    if k <= 0 {
        Seq::empty()
    } else {
        selected_coords(ts, k - 1, start, end) + track_coords(k - 1, ts[k - 1].channels.len() as int, start, end)
    }
}

/// The edit that shifts the events of the selected channels.
pub open spec fn shift_selection_edit<P>(ts: Seq<TrackView>, start: Position, end: Position, distance: Timespan) -> EditView<P> {
    EditView::ShiftEvents {
        channels: selected_coords(ts, ts.len() as int, start, end),
        start: start.tick,
        distance,
        insert: Seq::empty(),
    }
}

impl<P: Clone> Module<P> {
    /// Replace an event in-place, returning the old value.
    pub fn replace_event(&mut self, new_evt: LocatedEvent) -> (r: LocatedEvent)
        ensures
            (final(self).state().tracks, r) == replace_at(old(self).state().tracks, new_evt),
            final(self).state().kit == old(self).state().kit,
            final(self).state().patches == old(self).state().patches,
            final(self).undo_edits() == old(self).undo_edits(),
            final(self).redo_edits() == old(self).redo_edits(),
            final(self).track_history() == old(self).track_history(),
            final(self).synced_edits() == old(self).synced_edits(),
            final(self).unsaved() == old(self).unsaved(),
            final(self).same_settings(old(self)),
    {
        replace_event_in(&mut self.tracks, new_evt)
    }

    /// Push an edit that deletes pattern events between two positions.
    pub fn delete_events(&mut self, start: Position, end: Position)
        ensures
            selected_positions(old(self).state().tracks, start, end).len() == 0 ==> final(self).state() == old(self).state()
                && final(self).undo_edits() == old(self).undo_edits()
                && final(self).redo_edits() == old(self).redo_edits()
                && final(self).track_history() == old(self).track_history()
                && final(self).synced_edits() == old(self).synced_edits()
                && final(self).unsaved() == old(self).unsaved(),
            selected_positions(old(self).state().tracks, start, end).len() > 0 ==> {
                let e = EditView::<P>::PatternData {
                    remove: selected_positions(old(self).state().tracks, start, end),
                    add: Seq::empty(),
                };
                &&& final(self).state() == apply_edit(old(self).state(), e).0
                &&& final(self).undo_edits() == old(self).undo_edits().push(apply_edit(old(self).state(), e).1)
                &&& final(self).redo_edits().len() == 0
                &&& final(self).track_history() == old(self).track_history()
                &&& sync_recorded(old(self).synced_edits(), final(self).synced_edits(), old(self).syncing(), e)
                &&& final(self).unsaved()
            },
            final(self).same_settings(old(self)),
    {
        let located = self.scan_events(start, end);
        let mut remove: Vec<Position> = Vec::new();
        let mut i: usize = 0;
        while i < located.len()
            invariant
                i <= located.len(),
                remove@ == located@.take(i as int).map_values(|e: LocatedEvent| located_position(e)),
            decreases located.len() - i,
        {
            remove.push(located[i].position());
            proof {
                assert(remove@ =~= located@.take(i as int + 1).map_values(|e: LocatedEvent| located_position(e)));
            }
            i = i + 1;
        }
        proof {
            assert(located@.take(i as int) =~= located@);
            assert(self.state().tracks.len() == self.tracks.len());
            lemma_scan_tracks_valid(self.state().tracks, self.state().tracks.len() as int, start, end);
        }
        if remove.len() > 0 {
            let add: Vec<LocatedEvent> = Vec::new();
            proof {
                assert(add@ =~= Seq::<LocatedEvent>::empty());
                assert forall|j: int| 0 <= j < remove@.len() implies valid_channel(self.state().tracks,
                    #[trigger] remove@[j].track as int, remove@[j].channel as int) by {
                    assert(remove@[j] == located_position(located@[j]));
                }
            }
            self.push_edit(Edit::PatternData { remove, add });
        }
    }

    /// Push an edit appending a new track.
    pub fn add_track(&mut self)
        ensures
            final(self).state() == apply_edit(old(self).state(), EditView::<P>::InsertTrack(
                old(self).state().tracks.len() as usize,
                TrackView { target: TrackTarget::Patch(0), channels: seq![Seq::<Event>::empty()] },
            )).0,
            final(self).undo_edits() == old(self).undo_edits().push(EditView::<P>::RemoveTrack(old(self).state().tracks.len() as usize)),
            final(self).redo_edits().len() == 0,
            final(self).track_history() == old(self).track_history().push(TrackEdit::Insert(old(self).state().tracks.len() as usize)),
            sync_recorded(old(self).synced_edits(), final(self).synced_edits(), old(self).syncing(), EditView::<P>::InsertTrack(
                old(self).state().tracks.len() as usize,
                TrackView { target: TrackTarget::Patch(0), channels: seq![Seq::<Event>::empty()] },
            )),
            final(self).unsaved(),
            final(self).same_settings(old(self)),
    {
        let index = self.tracks.len();
        let track = Track::new(TrackTarget::Patch(0));
        self.push_edit(Edit::InsertTrack(index, track));
        proof {
            assert(track_history_of(EditView::<P>::InsertTrack(index, track_view(track))) =~= seq![TrackEdit::Insert(index)]);
        }
    }

    /// Push an edit inserting an event.
    pub fn insert_event(&mut self, track: usize, channel: usize, event: Event)
        requires
            valid_channel(old(self).state().tracks, track as int, channel as int),
        ensures
            ({
                let e = EditView::<P>::PatternData {
                    remove: seq![Position { track, channel, tick: event.tick, column: logical_column_spec(event.data) }],
                    add: seq![LocatedEvent { track, channel, event }],
                };
                &&& final(self).state() == apply_edit(old(self).state(), e).0
                &&& final(self).undo_edits() == old(self).undo_edits().push(apply_edit(old(self).state(), e).1)
                &&& final(self).redo_edits().len() == 0
                &&& final(self).track_history() == old(self).track_history()
                &&& sync_recorded(old(self).synced_edits(), final(self).synced_edits(), old(self).syncing(), e)
                &&& final(self).unsaved()
            }),
            final(self).same_settings(old(self)),
    {
        let mut remove: Vec<Position> = Vec::new();
        remove.push(Position { track, channel, tick: event.tick, column: event.data.logical_column() });
        let mut add: Vec<LocatedEvent> = Vec::new();
        add.push(LocatedEvent { track, channel, event });
        proof {
            assert(remove@ =~= seq![Position { track, channel, tick: event.tick, column: logical_column_spec(event.data) }]);
            assert(add@ =~= seq![LocatedEvent { track, channel, event }]);
        }
        self.push_edit(Edit::PatternData { remove, add });
    }

    /// Returns track insertions & removals made since the last call.
    pub fn drain_track_history(&mut self) -> (r: Vec<TrackEdit>)
        ensures
            r@ == old(self).track_history(),
            final(self).track_history().len() == 0,
            final(self).state() == old(self).state(),
            final(self).undo_edits() == old(self).undo_edits(),
            final(self).redo_edits() == old(self).redo_edits(),
            final(self).synced_edits() == old(self).synced_edits(),
            final(self).syncing() == old(self).syncing(),
            final(self).unsaved() == old(self).unsaved(),
            final(self).same_settings(old(self)),
    {
        let mut r: Vec<TrackEdit> = Vec::new();
        core::mem::swap(&mut r, &mut self.track_history);
        r
    }

    /// Returns edits that have been made since the last call.
    pub fn sync_edits(&mut self) -> (r: Vec<Edit<P>>)
        ensures
            r@.map_values(|e: Edit<P>| edit_view(e)) == old(self).synced_edits(),
            final(self).synced_edits().len() == 0,
            final(self).state() == old(self).state(),
            final(self).undo_edits() == old(self).undo_edits(),
            final(self).redo_edits() == old(self).redo_edits(),
            final(self).track_history() == old(self).track_history(),
            final(self).unsaved() == old(self).unsaved(),
            final(self).syncing() == old(self).syncing(),
            final(self).same_settings(old(self)),
    {
        let mut r: Vec<Edit<P>> = Vec::new();
        core::mem::swap(&mut r, &mut self.sync_stack);
        proof {
            assert(self.synced_edits() =~= Seq::<EditView<P>>::empty());
        }
        r
    }
}

impl<P: Clone> Module<P> {
    /// Push an edit shifting events forward or backward.
    pub fn shift_channel_events(&mut self, start: Position, end: Position, distance: Timespan)
        requires
            edit_ok(old(self).state(), shift_selection_edit::<P>(old(self).state().tracks, start, end, distance)),
        ensures
            ({
                let e = shift_selection_edit::<P>(old(self).state().tracks, start, end, distance);
                &&& final(self).state() == apply_edit(old(self).state(), e).0
                &&& final(self).undo_edits() == old(self).undo_edits().push(apply_edit(old(self).state(), e).1)
                &&& final(self).redo_edits().len() == 0
                &&& final(self).track_history() == old(self).track_history()
                &&& sync_recorded(old(self).synced_edits(), final(self).synced_edits(), old(self).syncing(), e)
                &&& final(self).unsaved()
            }),
            final(self).same_settings(old(self)),
    {
        let ghost ts = self.state().tracks;
        let mut channels: Vec<ChannelCoords> = Vec::new();
        let mut t: usize = 0;
        while t < self.tracks.len()
            invariant
                t <= self.tracks.len(),
                ts == self.state().tracks,
                coords_view(channels@) == selected_coords(ts, t as int, start, end),
            decreases self.tracks.len() - t,
        {
            let n = self.tracks[t].channels.len();
            assert(n == ts[t as int].channels.len());
            let ghost before = coords_view(channels@);
            let mut c: usize = 0;
            while c < n
                invariant
                    c <= n,
                    coords_view(channels@) == before + track_coords(t as int, c as int, start, end),
                decreases n - c,
            {
                let selected = (start.track < t || (start.track == t && start.channel <= c))
                    && (t < end.track || (t == end.track && c <= end.channel));
                let ghost prev = channels@;
                if selected {
                    let cc = ChannelCoords::new(t as u8, c as u8);
                    channels.push(cc);
                    proof {
                        assert(coords_view(channels@) =~= coords_view(prev).push(cc@));
                    }
                }
                proof {
                    assert(selected == coord_selected(t as int, c as int, start, end));
                    assert(coords_view(channels@) =~= before + track_coords(t as int, c as int + 1, start, end));
                }
                c = c + 1;
            }
            proof {
                assert(coords_view(channels@) =~= selected_coords(ts, t as int + 1, start, end));
            }
            t = t + 1;
        }
        let insert: Vec<LocatedEvent> = Vec::new();
        proof {
            assert(insert@ =~= Seq::<LocatedEvent>::empty());
        }
        self.push_edit(Edit::ShiftEvents { channels, start: start.tick, distance, insert });
    }
}

/// The events of the channels, in channel order.
pub open spec fn flatten_channels(chs: Seq<Seq<Event>>) -> Seq<Event>
    decreases chs.len(),
{
    if chs.len() == 0 {
        Seq::empty()
    } else {
        flatten_channels(chs.drop_last()) + chs.last()
    }
}

/// `e` inserted into `s` after every event whose tick is not later.
pub open spec fn insert_by_tick(s: Seq<Event>, e: Event) -> Seq<Event>
    decreases s.len(),
{
    if s.len() == 0 {
        seq![e]
    } else if !less_value(e.tick@, s.last().tick@) {
        s.push(e)
    } else {
        insert_by_tick(s.drop_last(), e).push(s.last())
    }
}

/// The stable sort of `s` by tick.
pub open spec fn sort_by_tick_spec(s: Seq<Event>) -> Seq<Event>
    decreases s.len(),
{
    if s.len() == 0 {
        s
    } else {
        insert_by_tick(sort_by_tick_spec(s.drop_last()), s.last())
    }
}

/// Whether the first End or Loop event of `evs` is a Loop.
pub open spec fn first_is_loop(evs: Seq<Event>) -> bool
    decreases evs.len(),
{
    if evs.len() == 0 {
        false
    } else if evs[0].data == EventData::End {
        false
    } else if evs[0].data == EventData::Loop {
        true
    } else {
        first_is_loop(evs.skip(1))
    }
}

proof fn lemma_insert_by_tick_at(s: Seq<Event>, e: Event, k: int)
    requires
        0 <= k <= s.len(),
        forall|m: int| k <= m < s.len() ==> less_value(e.tick@, (#[trigger] s[m]).tick@),
        k == 0 || !less_value(e.tick@, s[k - 1].tick@),
    ensures
        insert_by_tick(s, e) == s.take(k).push(e) + s.skip(k),
    decreases s.len(),
{
    if s.len() == 0 {
        assert(s.take(k).push(e) + s.skip(k) =~= seq![e]);
    } else if k == s.len() {
        assert(s.take(k) =~= s);
        assert(s.take(k).push(e) + s.skip(k) =~= s.push(e));
    } else {
        let t = s.drop_last();
        assert forall|m: int| k <= m < t.len() implies less_value(e.tick@, (#[trigger] t[m]).tick@) by {
            assert(t[m] == s[m]);
        }
        if k > 0 {
            assert(t[k - 1] == s[k - 1]);
        }
        lemma_insert_by_tick_at(t, e, k);
        assert(t.take(k) =~= s.take(k));
        assert(t.take(k).push(e) + t.skip(k) + seq![s.last()] =~= s.take(k).push(e) + s.skip(k));
    }
}

/// The channel `k` channels after channel `c` of track `t`, moving across
/// tracks, or `None` if that runs past the last track.
pub open spec fn advance_channels(counts: Seq<int>, t: int, c: int, k: nat) -> Option<(int, int)>
    decreases k,
{
    if k == 0 {
        Some((t, c))
    } else {
        let (t2, c2) = if c + 1 >= counts[t] { (t + 1, 0) } else { (t, c + 1) };
        if t2 >= counts.len() {
            None
        } else {
            advance_channels(counts, t2, c2, (k - 1) as nat)
        }
    }
}

impl Position {
    /// Recalculate the position, given an offset in channels.
    /// Returns None if the position is out of range.
    pub fn add_channels(&self, channels: usize, tracks: &[Track]) -> (r: Option<Self>)
        requires
            channels > 0 ==> self.track < tracks@.len() && self.channel < usize::MAX,
        ensures
            r == match advance_channels(shape(tracks_view(tracks@)), self.track as int, self.channel as int, channels as nat) {
                Some((t, c)) => Some(Position { track: t as usize, channel: c as usize, ..*self }),
                None => None,
            },
    {
        let ghost counts = shape(tracks_view(tracks@));
        let mut track = self.track;
        let mut channel = self.channel;
        let mut k: usize = 0;
        while k < channels
            invariant
                k <= channels,
                counts == shape(tracks_view(tracks@)),
                channels > 0 ==> track < tracks@.len(),
                k == 0 ==> track == self.track && channel == self.channel,
                channels > 0 ==> channel < usize::MAX,
                advance_channels(counts, self.track as int, self.channel as int, channels as nat)
                    == advance_channels(counts, track as int, channel as int, (channels - k) as nat),
            decreases channels - k,
        {
            assert(counts[track as int] == tracks@[track as int].channels@.len());
            channel = channel + 1;
            let len = tracks[track].channels.len();
            if channel >= len {
                track = track + 1;
                channel = 0;
            }
            if track >= tracks.len() {
                return None;
            }
            k = k + 1;
        }
        Some(Self { track, channel, ..*self })
    }
}

impl<P> Module<P> {
    /// Returns true if the module has an End event.
    pub fn ends(&self) -> (r: bool)
        requires
            self.state().tracks.len() > 0,
        ensures
            r == exists|c: int, i: int| 0 <= c < self.state().tracks[0].channels.len()
                && 0 <= i < self.state().tracks[0].channels[c].len()
                && (#[trigger] self.state().tracks[0].channels[c][i]).data == EventData::End,
    {
        let chs = &self.tracks[0].channels;
        let ghost chv = self.state().tracks[0].channels;
        assert(chv == channels_view(chs@));
        let mut c: usize = 0;
        while c < chs.len()
            invariant
                c <= chs.len(),
                chv == channels_view(chs@),
                chv == self.state().tracks[0].channels,
                forall|x: int, i: int| 0 <= x < c && 0 <= i < chv[x].len() ==> (#[trigger] chv[x][i]).data != EventData::End,
            decreases chs.len() - c,
        {
            let evs = &chs[c].events;
            assert(chv[c as int] == evs@);
            let mut i: usize = 0;
            while i < evs.len()
                invariant
                    i <= evs.len(),
                    c < chs.len(),
                    chv == channels_view(chs@),
                    chv == self.state().tracks[0].channels,
                    chv[c as int] == evs@,
                    forall|j: int| 0 <= j < i ==> (#[trigger] evs@[j]).data != EventData::End,
                decreases evs.len() - i,
            {
                if evs[i].data == EventData::End {
                    assert(self.state().tracks[0].channels[c as int][i as int].data == EventData::End);
                    return true;
                }
                i = i + 1;
            }
            c = c + 1;
        }
        false
    }

    /// Return all events in the global track, sorted by tick.
    pub fn ctrl_events(&self) -> (r: Vec<Event>)
        requires
            self.state().tracks.len() > 0,
        ensures
            r@ == sort_by_tick_spec(flatten_channels(self.state().tracks[0].channels)),
    {
        let chs = &self.tracks[0].channels;
        let ghost chv = self.state().tracks[0].channels;
        assert(chv == channels_view(chs@));
        let mut all: Vec<Event> = Vec::new();
        let mut c: usize = 0;
        while c < chs.len()
            invariant
                c <= chs.len(),
                chv == channels_view(chs@),
                all@ == flatten_channels(chv.take(c as int)),
            decreases chs.len() - c,
        {
            let evs = &chs[c].events;
            assert(chv[c as int] == evs@);
            let ghost before = all@;
            let mut i: usize = 0;
            while i < evs.len()
                invariant
                    i <= evs.len(),
                    all@ == before + evs@.take(i as int),
                decreases evs.len() - i,
            {
                all.push(evs[i]);
                proof {
                    assert(all@ =~= before + evs@.take(i as int + 1));
                }
                i = i + 1;
            }
            proof {
                assert(evs@.take(i as int) =~= evs@);
                assert(chv.take(c as int + 1).drop_last() =~= chv.take(c as int));
                assert(all@ =~= flatten_channels(chv.take(c as int + 1)));
            }
            c = c + 1;
        }
        proof {
            assert(chv.take(c as int) =~= chv);
        }
        let mut sorted: Vec<Event> = Vec::new();
        let mut i: usize = 0;
        while i < all.len()
            invariant
                i <= all.len(),
                sorted@ == sort_by_tick_spec(all@.take(i as int)),
            decreases all.len() - i,
        {
            proof {
                assert(all@.take(i as int + 1).drop_last() =~= all@.take(i as int));
            }
            let e = all[i];
            let mut j = sorted.len();
            while j > 0 && e.tick < sorted[j - 1].tick
                invariant
                    j <= sorted.len(),
                    forall|m: int| j <= m < sorted.len() ==> less_value(e.tick@, (#[trigger] sorted@[m]).tick@),
                decreases j,
            {
                j = j - 1;
            }
            proof {
                lemma_insert_by_tick_at(sorted@, e, j as int);
            }
            let ghost prev = sorted@;
            sorted.insert(j, e);
            assert(sorted@ =~= prev.take(j as int).push(e) + prev.skip(j as int));
            i = i + 1;
        }
        proof {
            assert(all@.take(i as int) =~= all@);
        }
        sorted
    }

    /// Returns true if the module loops: a Loop event comes before any End
    /// event.
    pub fn loops(&self) -> (r: bool)
        requires
            self.state().tracks.len() > 0,
        ensures
            r == first_is_loop(sort_by_tick_spec(flatten_channels(self.state().tracks[0].channels))),
            ({
                let evs = sort_by_tick_spec(flatten_channels(self.state().tracks[0].channels));
                r == exists|j: int| 0 <= j < evs.len() && (#[trigger] evs[j]).data == EventData::Loop
                    && forall|i: int| 0 <= i < j ==> (#[trigger] evs[i]).data != EventData::End
            }),
    {
        proof {
            lemma_first_is_loop(sort_by_tick_spec(flatten_channels(self.state().tracks[0].channels)));
        }
        let events = self.ctrl_events();
        let mut i: usize = 0;
        proof {
            assert(events@.skip(0) =~= events@);
        }
        while i < events.len()
            invariant
                i <= events.len(),
                events@ == sort_by_tick_spec(flatten_channels(self.state().tracks[0].channels)),
                first_is_loop(events@) == first_is_loop(events@.skip(i as int)),
            decreases events.len() - i,
        {
            proof {
                assert(events@.skip(i as int).len() > 0);
                assert(events@.skip(i as int)[0] == events@[i as int]);
                assert(events@.skip(i as int).skip(1) =~= events@.skip(i as int + 1));
                lemma_first_is_loop(events@);
            }
            if events[i].data == EventData::End {
                return false;
            }
            if events[i].data == EventData::Loop {
                return true;
            }
            i = i + 1;
        }
        false
    }

    /// Return the number of channels between two positions: the number
    /// of single-channel steps from `start` to `end`, where a step past a
    /// track's last channel moves to the first channel of the next track.
    pub fn channels_between(&self, start: Position, end: Position) -> (r: usize)
        requires
            (start.track < end.track || start.channel < end.channel) ==> {
                let counts = shape(self.state().tracks);
                &&& steps_defined(counts, start.track as int, start.channel as int, end.track as int, end.channel as int)
                &&& steps_to(counts, start.track as int, start.channel as int, end.track as int, end.channel as int) <= usize::MAX
            },
        ensures
            r == steps_to(shape(self.state().tracks), start.track as int, start.channel as int, end.track as int, end.channel as int),
    {
        let ghost counts = shape(self.state().tracks);
        let ghost et = end.track as int;
        let ghost ec = end.channel as int;
        let ghost total = steps_to(counts, start.track as int, start.channel as int, et, ec);
        proof {
            assert(counts.len() == self.tracks@.len());
            assert forall|x: int| 0 <= x < counts.len() implies counts[x] == self.tracks@[x].channels@.len() by {}
        }
        let mut n: usize = 0;
        let mut t = start.track;
        let mut c = start.channel;
        while t < end.track || c < end.channel
            invariant
                counts == shape(self.state().tracks),
                counts.len() == self.tracks@.len(),
                forall|x: int| 0 <= x < counts.len() ==> counts[x] == (#[trigger] self.tracks@[x]).channels@.len(),
                et == end.track,
                ec == end.channel,
                total == steps_to(counts, start.track as int, start.channel as int, et, ec),
                (t < end.track || c < end.channel) ==> steps_defined(counts, t as int, c as int, et, ec),
                (t < end.track || c < end.channel) ==> n + steps_to(counts, t as int, c as int, et, ec) == total,
                (t < end.track || c < end.channel) ==> total <= usize::MAX,
                !(t < end.track || c < end.channel) ==> n == total,
                forall|x: int| 0 <= x < counts.len() ==> counts[x] >= 0,
            decreases et - t, counts[t as int] - c,
        {
            let len = self.tracks[t].channels.len();
            proof {
                lemma_steps_step(counts, t as int, c as int, et, ec);
            }
            n = n + 1;
            if c >= len || len - c <= 1 {
                t = t + 1;
                c = 0;
            } else {
                c = c + 1;
            }
            proof {
                if !(t < end.track || c < end.channel) {
                    assert(steps_to(counts, t as int, c as int, et, ec) == 0);
                }
            }
        }
        n
    }

    /// Return the tick value of the last event in the pattern.
    pub fn last_event_tick(&self) -> (r: Option<Timespan>)
        ensures
            r.is_none() <==> forall|t: int, c: int| 0 <= t < self.state().tracks.len() && 0 <= c < self.state().tracks[t].channels.len()
                ==> (#[trigger] self.state().tracks[t].channels[c]).len() == 0,
            r matches Some(m) ==> {
                &&& exists|t: int, c: int, i: int| 0 <= t < self.state().tracks.len() && 0 <= c < self.state().tracks[t].channels.len()
                    && 0 <= i < self.state().tracks[t].channels[c].len() && (#[trigger] self.state().tracks[t].channels[c][i]).tick == m
                &&& forall|t: int, c: int, i: int| 0 <= t < self.state().tracks.len() && 0 <= c < self.state().tracks[t].channels.len()
                    && 0 <= i < self.state().tracks[t].channels[c].len()
                    ==> !less_value(m@, (#[trigger] self.state().tracks[t].channels[c][i]).tick@)
            },
    {
        let ghost ts = self.state().tracks;
        let mut best: Option<Timespan> = None;
        let mut t: usize = 0;
        while t < self.tracks.len()
            invariant
                t <= self.tracks.len(),
                ts == self.state().tracks,
                ts.len() == self.tracks.len(),
                best.is_none() <==> forall|x: int, c: int| 0 <= x < t && 0 <= c < ts[x].channels.len()
                    ==> (#[trigger] ts[x].channels[c]).len() == 0,
                best matches Some(m) ==> {
                    &&& exists|x: int, c: int, i: int| 0 <= x < t && 0 <= c < ts[x].channels.len()
                        && 0 <= i < ts[x].channels[c].len() && (#[trigger] ts[x].channels[c][i]).tick == m
                    &&& forall|x: int, c: int, i: int| 0 <= x < t && 0 <= c < ts[x].channels.len()
                        && 0 <= i < ts[x].channels[c].len() ==> !less_value(m@, (#[trigger] ts[x].channels[c][i]).tick@)
                },
            decreases self.tracks.len() - t,
        {
            let chs = &self.tracks[t].channels;
            assert(ts[t as int].channels == channels_view(chs@));
            let mut c: usize = 0;
            while c < chs.len()
                invariant
                    c <= chs.len(),
                    t < ts.len(),
                    ts[t as int].channels == channels_view(chs@),
                    best.is_none() <==> (forall|x: int, y: int| 0 <= x < t && 0 <= y < ts[x].channels.len()
                        ==> (#[trigger] ts[x].channels[y]).len() == 0) && (forall|y: int| 0 <= y < c ==> (#[trigger] ts[t as int].channels[y]).len() == 0),
                    best matches Some(m) ==> {
                        &&& (exists|x: int, y: int, i: int| 0 <= x < t && 0 <= y < ts[x].channels.len()
                            && 0 <= i < ts[x].channels[y].len() && (#[trigger] ts[x].channels[y][i]).tick == m)
                            || (exists|y: int, i: int| 0 <= y < c && 0 <= i < ts[t as int].channels[y].len() && (#[trigger] ts[t as int].channels[y][i]).tick == m)
                        &&& forall|x: int, y: int, i: int| 0 <= x < t && 0 <= y < ts[x].channels.len()
                            && 0 <= i < ts[x].channels[y].len() ==> !less_value(m@, (#[trigger] ts[x].channels[y][i]).tick@)
                        &&& forall|y: int, i: int| 0 <= y < c && 0 <= i < ts[t as int].channels[y].len()
                            ==> !less_value(m@, (#[trigger] ts[t as int].channels[y][i]).tick@)
                    },
                decreases chs.len() - c,
            {
                let evs = &chs[c].events;
                assert(ts[t as int].channels[c as int] == evs@);
                let mut i: usize = 0;
                while i < evs.len()
                    invariant
                        i <= evs.len(),
                        c < chs.len(),
                        t < ts.len(),
                        ts[t as int].channels == channels_view(chs@),
                        ts[t as int].channels[c as int] == evs@,
                        best.is_none() <==> (forall|x: int, y: int| 0 <= x < t && 0 <= y < ts[x].channels.len()
                            ==> (#[trigger] ts[x].channels[y]).len() == 0) && (forall|y: int| 0 <= y < c ==> (#[trigger] ts[t as int].channels[y]).len() == 0) && i == 0,
                        best matches Some(m) ==> {
                            &&& (exists|x: int, y: int, k: int| 0 <= x < t && 0 <= y < ts[x].channels.len()
                                && 0 <= k < ts[x].channels[y].len() && (#[trigger] ts[x].channels[y][k]).tick == m)
                                || (exists|y: int, k: int| 0 <= y < c && 0 <= k < ts[t as int].channels[y].len() && (#[trigger] ts[t as int].channels[y][k]).tick == m)
                                || (exists|k: int| 0 <= k < i && (#[trigger] evs@[k]).tick == m)
                            &&& forall|x: int, y: int, k: int| 0 <= x < t && 0 <= y < ts[x].channels.len()
                                && 0 <= k < ts[x].channels[y].len() ==> !less_value(m@, (#[trigger] ts[x].channels[y][k]).tick@)
                            &&& forall|y: int, k: int| 0 <= y < c && 0 <= k < ts[t as int].channels[y].len()
                                ==> !less_value(m@, (#[trigger] ts[t as int].channels[y][k]).tick@)
                            &&& forall|k: int| 0 <= k < i ==> !less_value(m@, (#[trigger] evs@[k]).tick@)
                        },
                    decreases evs.len() - i,
                {
                    let tick = evs[i].tick;
                    proof {
                        use_type_invariant(&tick);
                        Timespan::lemma_view_bounds();
                    }
                    let replace = match best {
                        None => true,
                        Some(m) => {
                            proof {
                                use_type_invariant(&m);
                                if !less_value(tick@, m@) {
                                    assert forall|x: Timespan| !less_value(m@, x@) implies !less_value(tick@, x@) by {
                                        lemma_le_trans(x@, m@, tick@);
                                    }
                                }
                            }
                            !(tick < m)
                        },
                    };
                    if replace {
                        best = Some(tick);
                    }
                    i = i + 1;
                }
                proof {
                    if let Some(m) = best {
                        if exists|k: int| 0 <= k < i && (#[trigger] evs@[k]).tick == m {
                            let k = choose|k: int| 0 <= k < i && (#[trigger] evs@[k]).tick == m;
                            assert(ts[t as int].channels[c as int][k].tick == m);
                        }
                    }
                }
                c = c + 1;
            }
            t = t + 1;
        }
        best
    }
}

/// Stepping from channel `(t, c)` toward `(et, ec)` stays inside the
/// tracks and ends there.
pub open spec fn steps_defined(counts: Seq<int>, t: int, c: int, et: int, ec: int) -> bool {
    &&& 0 <= t <= et < counts.len()
    &&& 0 <= c
    &&& 0 <= ec
    &&& (t == et ==> c <= ec)
    &&& c <= counts[t]
    &&& ec < counts[et]
}

/// The number of single-channel steps from `(t, c)` until neither the
/// track is before `et` nor the channel before `ec`.
pub open spec fn steps_to(counts: Seq<int>, t: int, c: int, et: int, ec: int) -> int
    decreases et - t, counts[t] - c when !(t < et || c < ec) || steps_defined(counts, t, c, et, ec)
{
    if !(t < et || c < ec) {
        0
    } else if c + 1 >= counts[t] {
        1 + steps_to(counts, t + 1, 0, et, ec)
    } else {
        1 + steps_to(counts, t, c + 1, et, ec)
    }
}

/// One step from `(t, c)` stays defined and counts one.
proof fn lemma_steps_step(counts: Seq<int>, t: int, c: int, et: int, ec: int)
    requires
        t < et || c < ec,
        steps_defined(counts, t, c, et, ec),
        forall|x: int| 0 <= x < counts.len() ==> counts[x] >= 0,
    ensures
        steps_to(counts, t, c, et, ec) >= 1,
        c + 1 >= counts[t] ==> {
            &&& t + 1 <= et
            &&& steps_defined(counts, t + 1, 0, et, ec)
            &&& steps_to(counts, t, c, et, ec) == 1 + steps_to(counts, t + 1, 0, et, ec)
        },
        c + 1 < counts[t] ==> {
            &&& steps_defined(counts, t, c + 1, et, ec)
            &&& steps_to(counts, t, c, et, ec) == 1 + steps_to(counts, t, c + 1, et, ec)
        },
{
    if c + 1 >= counts[t] {
        assert(t + 1 <= et);
        assert(counts[t + 1] >= 0);
        lemma_steps_nonneg(counts, t + 1, 0, et, ec);
    } else {
        lemma_steps_nonneg(counts, t, c + 1, et, ec);
    }
}

proof fn lemma_steps_nonneg(counts: Seq<int>, t: int, c: int, et: int, ec: int)
    requires
        steps_defined(counts, t, c, et, ec),
        forall|x: int| 0 <= x < counts.len() ==> counts[x] >= 0,
    ensures
        steps_to(counts, t, c, et, ec) >= 0,
    decreases et - t, counts[t] - c,
{
    if t < et || c < ec {
        if c + 1 >= counts[t] {
            assert(counts[t + 1] >= 0);
            lemma_steps_nonneg(counts, t + 1, 0, et, ec);
        } else {
            lemma_steps_nonneg(counts, t, c + 1, et, ec);
        }
    }
}

/// Stepping channel by channel from `(t, c)` as often as `steps_to` counts
/// reaches `(et, ec)`, where every track has a channel.
proof fn lemma_advance_steps(counts: Seq<int>, t: int, c: int, et: int, ec: int)
    requires
        steps_defined(counts, t, c, et, ec),
        c < counts[t],
        forall|x: int| 0 <= x < counts.len() ==> counts[x] >= 1,
    ensures
        steps_to(counts, t, c, et, ec) >= 0,
        advance_channels(counts, t, c, steps_to(counts, t, c, et, ec) as nat) == Some((et, ec)),
    decreases et - t, counts[t] - c,
{
    lemma_steps_nonneg(counts, t, c, et, ec);
    if t < et || c < ec {
        lemma_steps_step(counts, t, c, et, ec);
        let k = steps_to(counts, t, c, et, ec);
        if c + 1 >= counts[t] {
            assert(counts[t + 1] >= 1);
            lemma_advance_steps(counts, t + 1, 0, et, ec);
            assert(((k as nat) - 1) as nat == steps_to(counts, t + 1, 0, et, ec) as nat);
        } else {
            lemma_advance_steps(counts, t, c + 1, et, ec);
            assert(((k as nat) - 1) as nat == steps_to(counts, t, c + 1, et, ec) as nat);
        }
    }
}

/// Where every track has a channel, and `start` and `end` name channels
/// with `end` not before `start`, moving `start` by the number of channels
/// between the two (`channels_between`) reaches the channel of `end`
/// (`add_channels`).
pub proof fn lemma_channels_between_reaches(ts: Seq<TrackView>, start: Position, end: Position)
    requires
        forall|x: int| 0 <= x < ts.len() ==> (#[trigger] ts[x]).channels.len() >= 1,
        start.track < ts.len(),
        start.channel < ts[start.track as int].channels.len(),
        end.track < ts.len(),
        end.channel < ts[end.track as int].channels.len(),
        start.track < end.track || (start.track == end.track && start.channel <= end.channel),
    ensures
        steps_defined(shape(ts), start.track as int, start.channel as int, end.track as int, end.channel as int),
        steps_to(shape(ts), start.track as int, start.channel as int, end.track as int, end.channel as int) >= 0,
        advance_channels(
            shape(ts),
            start.track as int,
            start.channel as int,
            steps_to(shape(ts), start.track as int, start.channel as int, end.track as int, end.channel as int) as nat,
        ) == Some((end.track as int, end.channel as int)),
{
    let counts = shape(ts);
    assert forall|x: int| 0 <= x < counts.len() implies counts[x] >= 1 by {
        assert(counts[x] == ts[x].channels.len());
    }
    assert(counts[start.track as int] == ts[start.track as int].channels.len());
    assert(counts[end.track as int] == ts[end.track as int].channels.len());
    lemma_advance_steps(counts, start.track as int, start.channel as int, end.track as int, end.channel as int);
}

/// The song loops exactly when some Loop event comes with no End event
/// before it, in the order of the events.
pub proof fn lemma_first_is_loop(evs: Seq<Event>)
    ensures
        first_is_loop(evs) == exists|j: int| 0 <= j < evs.len() && (#[trigger] evs[j]).data == EventData::Loop
            && forall|i: int| 0 <= i < j ==> (#[trigger] evs[i]).data != EventData::End,
    decreases evs.len(),
{
    if evs.len() > 0 {
        let rest = evs.skip(1);
        lemma_first_is_loop(rest);
        assert forall|k: int| 0 <= k < rest.len() implies #[trigger] rest[k] == evs[k + 1] by {}
        if evs[0].data == EventData::End {
            if exists|j: int| 0 <= j < evs.len() && (#[trigger] evs[j]).data == EventData::Loop
                && forall|i: int| 0 <= i < j ==> (#[trigger] evs[i]).data != EventData::End {
                let j = choose|j: int| 0 <= j < evs.len() && (#[trigger] evs[j]).data == EventData::Loop
                    && forall|i: int| 0 <= i < j ==> (#[trigger] evs[i]).data != EventData::End;
                assert(j > 0);
                assert(evs[0].data != EventData::End);
            }
        } else if evs[0].data == EventData::Loop {
            assert(evs[0].data == EventData::Loop && forall|i: int| 0 <= i < 0 ==> (#[trigger] evs[i]).data != EventData::End);
        } else {
            if first_is_loop(rest) {
                let j = choose|j: int| 0 <= j < rest.len() && (#[trigger] rest[j]).data == EventData::Loop
                    && forall|i: int| 0 <= i < j ==> (#[trigger] rest[i]).data != EventData::End;
                assert(evs[j + 1].data == EventData::Loop);
                assert forall|i: int| 0 <= i < j + 1 implies (#[trigger] evs[i]).data != EventData::End by {
                    if i > 0 {
                        assert(evs[i] == rest[i - 1]);
                    }
                }
            }
            if exists|j: int| 0 <= j < evs.len() && (#[trigger] evs[j]).data == EventData::Loop
                && forall|i: int| 0 <= i < j ==> (#[trigger] evs[i]).data != EventData::End {
                let j = choose|j: int| 0 <= j < evs.len() && (#[trigger] evs[j]).data == EventData::Loop
                    && forall|i: int| 0 <= i < j ==> (#[trigger] evs[i]).data != EventData::End;
                assert(j > 0);
                assert(rest[j - 1].data == EventData::Loop);
                assert forall|i: int| 0 <= i < j - 1 implies (#[trigger] rest[i]).data != EventData::End by {
                    assert(rest[i] == evs[i + 1]);
                }
            }
        }
    }
}

/// A single-tick glide at `tick`.
pub open spec fn glides_at(e: Event, tick: Timespan) -> bool {
    e.data is TickGlide && same_value(e.tick@, tick@)
}

/// A glide that starts before `tick`.
pub open spec fn starts_before(e: Event, tick: Timespan) -> bool {
    e.data is StartGlide && less_value(e.tick@, tick@)
}

/// A glide that ends before `tick`.
pub open spec fn ends_before(e: Event, tick: Timespan) -> bool {
    e.data is EndGlide && less_value(e.tick@, tick@)
}

/// The markers `g[..p]` are those read up to `tick`: none of them lies
/// after it, and `g[p]`, if there is one, does.
pub open spec fn read_up_to(g: Seq<Event>, tick: Timespan, p: int) -> bool {
    &&& 0 <= p <= g.len()
    &&& forall|j: int| 0 <= j < p ==> !less_value(tick@, (#[trigger] g[j]).tick@)
    &&& p < g.len() ==> less_value(tick@, g[p].tick@)
}

/// The glide state after reading the markers up to `tick`, from `glide`:
/// on where a single-tick glide lies at `tick`, or a glide that starts
/// before `tick` is not followed by one that ends before it, or the state
/// was on and no glide ends before `tick`.
proof fn lemma_glide_state_read(g: Seq<Event>, tick: Timespan, glide: bool, col: u8, p: int)
    requires
        forall|j: int| 0 <= j < g.len() ==> is_glide_in(#[trigger] g[j], col),
        read_up_to(g, tick, p),
    ensures
        glide_state(g, tick, glide) == (
            (exists|j: int| 0 <= j < p && glides_at(#[trigger] g[j], tick))
            || (exists|i: int| 0 <= i < p && starts_before(#[trigger] g[i], tick)
                && forall|j: int| i < j < p ==> !ends_before(#[trigger] g[j], tick))
            || (glide && forall|j: int| 0 <= j < p ==> !ends_before(#[trigger] g[j], tick))),
    decreases g.len(),
{
    if g.len() > 0 && p > 0 {
        let e = g[0];
        let rest = g.skip(1);
        assert forall|k: int| 0 <= k < rest.len() implies #[trigger] rest[k] == g[k + 1] by {}
        assert forall|j: int| 0 <= j < rest.len() implies is_glide_in(#[trigger] rest[j], col) by {
            assert(is_glide_in(g[j + 1], col));
        }
        assert(read_up_to(rest, tick, p - 1)) by {
            assert forall|j: int| 0 <= j < p - 1 implies !less_value(tick@, (#[trigger] rest[j]).tick@) by {
                assert(!less_value(tick@, g[j + 1].tick@));
            }
        }
        assert(!less_value(tick@, e.tick@));
        assert(is_glide_in(e, col));
        let g2 = if starts_before(e, tick) { true } else if ends_before(e, tick) { false } else { glide };
        lemma_glide_state_read(rest, tick, g2, col, p - 1);
        lemma_glide_state_read(rest, tick, glide, col, p - 1);
        let ta = exists|j: int| 0 <= j < p && glides_at(#[trigger] g[j], tick);
        let tr = exists|j: int| 0 <= j < p - 1 && glides_at(#[trigger] rest[j], tick);
        let sa = exists|i: int| 0 <= i < p && starts_before(#[trigger] g[i], tick)
            && forall|j: int| i < j < p ==> !ends_before(#[trigger] g[j], tick);
        let sr = exists|i: int| 0 <= i < p - 1 && starts_before(#[trigger] rest[i], tick)
            && forall|j: int| i < j < p - 1 ==> !ends_before(#[trigger] rest[j], tick);
        let na = forall|j: int| 0 <= j < p ==> !ends_before(#[trigger] g[j], tick);
        let nr = forall|j: int| 0 <= j < p - 1 ==> !ends_before(#[trigger] rest[j], tick);
        // shifting the witnesses by one
        assert(tr ==> ta) by {
            if tr {
                let j = choose|j: int| 0 <= j < p - 1 && glides_at(#[trigger] rest[j], tick);
                assert(glides_at(g[j + 1], tick));
            }
        }
        assert(ta ==> tr || glides_at(e, tick)) by {
            if ta && !glides_at(e, tick) {
                let j = choose|j: int| 0 <= j < p && glides_at(#[trigger] g[j], tick);
                assert(j > 0);
                assert(glides_at(rest[j - 1], tick));
            }
        }
        assert(nr && !ends_before(e, tick) ==> na) by {
            if nr && !ends_before(e, tick) {
                assert forall|j: int| 0 <= j < p implies !ends_before(#[trigger] g[j], tick) by {
                    if j > 0 {
                        assert(g[j] == rest[j - 1]);
                    }
                }
            }
        }
        assert(na ==> nr) by {
            if na {
                assert forall|j: int| 0 <= j < p - 1 implies !ends_before(#[trigger] rest[j], tick) by {
                    assert(rest[j] == g[j + 1]);
                }
            }
        }
        assert(na ==> !ends_before(e, tick)) by {
            if na {
                assert(!ends_before(g[0], tick));
            }
        }
        assert(sr ==> sa) by {
            if sr {
                let i = choose|i: int| 0 <= i < p - 1 && starts_before(#[trigger] rest[i], tick)
                    && forall|j: int| i < j < p - 1 ==> !ends_before(#[trigger] rest[j], tick);
                assert(starts_before(g[i + 1], tick));
                assert forall|j: int| i + 1 < j < p implies !ends_before(#[trigger] g[j], tick) by {
                    assert(g[j] == rest[j - 1]);
                }
            }
        }
        assert(sa ==> sr || (starts_before(e, tick) && nr)) by {
            if sa {
                let i = choose|i: int| 0 <= i < p && starts_before(#[trigger] g[i], tick)
                    && forall|j: int| i < j < p ==> !ends_before(#[trigger] g[j], tick);
                if i > 0 {
                    assert(starts_before(rest[i - 1], tick));
                    assert forall|j: int| i - 1 < j < p - 1 implies !ends_before(#[trigger] rest[j], tick) by {
                        assert(rest[j] == g[j + 1]);
                    }
                } else {
                    assert forall|j: int| 0 <= j < p - 1 implies !ends_before(#[trigger] rest[j], tick) by {
                        assert(rest[j] == g[j + 1]);
                    }
                }
            }
        }
        assert(starts_before(e, tick) && nr ==> sa) by {
            if starts_before(e, tick) && nr {
                assert forall|j: int| 0 < j < p implies !ends_before(#[trigger] g[j], tick) by {
                    assert(g[j] == rest[j - 1]);
                }
                assert(starts_before(g[0], tick));
            }
        }
        assert(ends_before(e, tick) ==> !sa || sr) by {
            if ends_before(e, tick) && sa {
                let i = choose|i: int| 0 <= i < p && starts_before(#[trigger] g[i], tick)
                    && forall|j: int| i < j < p ==> !ends_before(#[trigger] g[j], tick);
                assert(i > 0);
            }
        }
    } else if g.len() > 0 {
        assert(less_value(tick@, g[0].tick@));
    }
}

/// Whether a column is interpolated at `tick`, read over its markers up
/// to the first one after `tick` (at `p`): exactly where a single-tick glide
/// lies at `tick`, or some glide starts before `tick` with none ending
/// before `tick` after it; so a column whose last glide before `tick`
/// ended, with no single-tick glide at `tick`, is not interpolated.
pub proof fn lemma_interpolated(evs: Seq<Event>, col: u8, tick: Timespan, p: int)
    requires
        read_up_to(glides_in(evs, col), tick, p),
    ensures
        ({
            let g = glides_in(evs, col);
            glide_state(g, tick, false) == (
                (exists|j: int| 0 <= j < p && glides_at(#[trigger] g[j], tick))
                || (exists|i: int| 0 <= i < p && starts_before(#[trigger] g[i], tick)
                    && forall|j: int| i < j < p ==> !ends_before(#[trigger] g[j], tick)))
        }),
{
    lemma_glides_in_all(evs, col);
    lemma_glide_state_read(glides_in(evs, col), tick, false, col, p);
}

/// The rank of a (track, channel, spatial column) triple in lexicographic
/// order, as one integer.
pub open spec fn selection_key(t: int, c: int, k: int) -> int {
    t * 4722366482869645213696 + (c * 256 + k)
}

/// Comparing `x * m + u` with `y * m + v` for `u` and `v` below `m`
/// compares `x` with `y` first, then `u` with `v`.
proof fn lemma_lex_rank(x: int, u: int, y: int, v: int, m: int)
    requires
        m > 0,
        0 <= u < m,
        0 <= v < m,
    ensures
        (x * m + u <= y * m + v) == (x < y || (x == y && u <= v)),
{
    if x < y {
        assert(x * m + u <= y * m + v) by (nonlinear_arith)
            requires
                x < y,
                m > 0,
                0 <= u < m,
                0 <= v,
        ;
    } else if x > y {
        assert(x * m + u > y * m + v) by (nonlinear_arith)
            requires
                x > y,
                m > 0,
                0 <= u,
                v < m,
        ;
    }
}

/// `triple_le` is lexicographic order on (track, channel, column).
pub proof fn lemma_triple_le_rank(a: (usize, usize, u8), b: (usize, usize, u8))
    ensures
        triple_le(a, b) == (selection_key(a.0 as int, a.1 as int, a.2 as int) <= selection_key(b.0 as int, b.1 as int, b.2 as int)),
{
    lemma_lex_rank(a.1 as int, a.2 as int, b.1 as int, b.2 as int, 256);
    lemma_lex_rank(a.0 as int, a.1 as int * 256 + a.2 as int, b.0 as int, b.1 as int * 256 + b.2 as int, 4722366482869645213696);
}

/// The tick of `e` lies in the selection's range: at or after the start and
/// before the end, or at the start.
pub open spec fn in_tick_range(e: Event, start: Position, end: Position) -> bool {
    (!less_value(e.tick@, start.tick@) && less_value(e.tick@, end.tick@)) || e.tick == start.tick
}

/// Event `e` of channel `(t, c)` lies within the corners, by tick and by
/// lexicographic rank of (track, channel, spatial column).
pub open spec fn within_corners(e: Event, t: int, c: int, start: Position, end: Position) -> bool {
    &&& in_tick_range(e, start, end)
    &&& selection_key(start.track as int, start.channel as int, start.column as int)
        <= selection_key(t, c, spatial_column_spec(e.data) as int)
    &&& selection_key(t, c, spatial_column_spec(e.data) as int)
        <= selection_key(end.track as int, end.channel as int, end.column as int)
}

proof fn lemma_in_selection_within(e: Event, t: usize, c: usize, start: Position, end: Position)
    ensures
        in_selection(e, t, c, start, end) == within_corners(e, t as int, c as int, start, end),
{
    lemma_triple_le_rank((start.track, start.channel, start.column), (t, c, spatial_column_spec(e.data)));
    lemma_triple_le_rank((t, c, spatial_column_spec(e.data)), (end.track, end.channel, end.column));
}

proof fn lemma_scan_channel_members(evs: Seq<Event>, t: usize, c: usize, start: Position, end: Position)
    ensures
        forall|m: int| 0 <= m < scan_channel(evs, t, c, start, end).len() ==> {
            let le = #[trigger] scan_channel(evs, t, c, start, end)[m];
            &&& le.track == t && le.channel == c
            &&& evs.contains(le.event)
            &&& in_selection(le.event, t, c, start, end)
        },
        forall|i: int| 0 <= i < evs.len() && in_selection(#[trigger] evs[i], t, c, start, end) ==>
            scan_channel(evs, t, c, start, end).contains(LocatedEvent { track: t, channel: c, event: evs[i] }),
    decreases evs.len(),
{
    if evs.len() > 0 {
        let q = evs.drop_last();
        lemma_scan_channel_members(q, t, c, start, end);
        let r = scan_channel(evs, t, c, start, end);
        let rq = scan_channel(q, t, c, start, end);
        assert(evs[evs.len() - 1] == evs.last());
        assert forall|m: int| 0 <= m < r.len() implies {
            let le = #[trigger] r[m];
            &&& le.track == t && le.channel == c
            &&& evs.contains(le.event)
            &&& in_selection(le.event, t, c, start, end)
        } by {
            if m < rq.len() {
                assert(r[m] == rq[m]);
                let j = choose|j: int| 0 <= j < q.len() && q[j] == rq[m].event;
                assert(evs[j] == q[j]);
            }
        }
        assert forall|i: int| 0 <= i < evs.len() && in_selection(#[trigger] evs[i], t, c, start, end) implies
            r.contains(LocatedEvent { track: t, channel: c, event: evs[i] }) by {
            if i < q.len() {
                assert(q[i] == evs[i]);
                let x = LocatedEvent { track: t, channel: c, event: evs[i] };
                assert(rq.contains(x));
                let m = choose|m: int| 0 <= m < rq.len() && rq[m] == x;
                assert(r[m] == rq[m]);
            } else {
                assert(r[r.len() - 1] == LocatedEvent { track: t, channel: c, event: evs[i] });
            }
        }
    }
}

proof fn lemma_scan_track_members(chs: Seq<Seq<Event>>, t: usize, k: int, start: Position, end: Position)
    requires
        0 <= k <= chs.len(),
        chs.len() <= usize::MAX,
    ensures
        forall|m: int| 0 <= m < scan_track(chs, t, k, start, end).len() ==> {
            let le = #[trigger] scan_track(chs, t, k, start, end)[m];
            &&& le.track == t && le.channel < k
            &&& chs[le.channel as int].contains(le.event)
            &&& in_selection(le.event, t, le.channel, start, end)
        },
        forall|c: int, i: int| 0 <= c < k && 0 <= i < chs[c].len() && in_selection(#[trigger] chs[c][i], t, c as usize, start, end) ==>
            scan_track(chs, t, k, start, end).contains(LocatedEvent { track: t, channel: c as usize, event: chs[c][i] }),
    decreases k,
{
    if k > 0 {
        lemma_scan_track_members(chs, t, k - 1, start, end);
        lemma_scan_channel_members(chs[k - 1], t, (k - 1) as usize, start, end);
        let a = scan_track(chs, t, k - 1, start, end);
        let b = scan_channel(chs[k - 1], t, (k - 1) as usize, start, end);
        let r = a + b;
        assert forall|m: int| 0 <= m < r.len() implies {
            let le = #[trigger] r[m];
            &&& le.track == t && le.channel < k
            &&& chs[le.channel as int].contains(le.event)
            &&& in_selection(le.event, t, le.channel, start, end)
        } by {
            if m < a.len() {
                assert(r[m] == a[m]);
            } else {
                assert(r[m] == b[m - a.len()]);
            }
        }
        assert forall|c: int, i: int| 0 <= c < k && 0 <= i < chs[c].len() && in_selection(#[trigger] chs[c][i], t, c as usize, start, end) implies
            r.contains(LocatedEvent { track: t, channel: c as usize, event: chs[c][i] }) by {
            let x = LocatedEvent { track: t, channel: c as usize, event: chs[c][i] };
            if c < k - 1 {
                assert(a.contains(x));
                let m = choose|m: int| 0 <= m < a.len() && a[m] == x;
                assert(r[m] == a[m]);
            } else {
                assert(b.contains(x));
                let m = choose|m: int| 0 <= m < b.len() && b[m] == x;
                assert(r[a.len() + m] == b[m]);
            }
        }
    }
}

/// Scanning selects exactly the events between the corners: every event
/// scanned is an event of the channel it names, within the corners by tick
/// and by lexicographic rank of (track, channel, spatial column); and every
/// event within the corners is scanned. In particular every column of a
/// channel strictly between the corners' channels is selected.
pub proof fn lemma_scan_selects(ts: Seq<TrackView>, start: Position, end: Position)
    requires
        ts.len() <= usize::MAX,
        forall|x: int| 0 <= x < ts.len() ==> (#[trigger] ts[x]).channels.len() <= usize::MAX,
    ensures
        forall|m: int| 0 <= m < scan_tracks(ts, ts.len() as int, start, end).len() ==> {
            let le = #[trigger] scan_tracks(ts, ts.len() as int, start, end)[m];
            &&& valid_channel(ts, le.track as int, le.channel as int)
            &&& ts[le.track as int].channels[le.channel as int].contains(le.event)
            &&& within_corners(le.event, le.track as int, le.channel as int, start, end)
        },
        forall|t: int, c: int, i: int| valid_channel(ts, t, c) && 0 <= i < ts[t].channels[c].len()
            && within_corners(#[trigger] ts[t].channels[c][i], t, c, start, end) ==>
            scan_tracks(ts, ts.len() as int, start, end).contains(
                LocatedEvent { track: t as usize, channel: c as usize, event: ts[t].channels[c][i] }),
{
    lemma_scan_tracks_members(ts, ts.len() as int, start, end);
    let r = scan_tracks(ts, ts.len() as int, start, end);
    assert forall|m: int| 0 <= m < r.len() implies {
        let le = #[trigger] r[m];
        &&& valid_channel(ts, le.track as int, le.channel as int)
        &&& ts[le.track as int].channels[le.channel as int].contains(le.event)
        &&& within_corners(le.event, le.track as int, le.channel as int, start, end)
    } by {
        lemma_in_selection_within(r[m].event, r[m].track, r[m].channel, start, end);
    }
    assert forall|t: int, c: int, i: int| valid_channel(ts, t, c) && 0 <= i < ts[t].channels[c].len()
        && within_corners(#[trigger] ts[t].channels[c][i], t, c, start, end) implies
        r.contains(LocatedEvent { track: t as usize, channel: c as usize, event: ts[t].channels[c][i] }) by {
        lemma_in_selection_within(ts[t].channels[c][i], t as usize, c as usize, start, end);
    }
}

proof fn lemma_scan_tracks_members(ts: Seq<TrackView>, k: int, start: Position, end: Position)
    requires
        0 <= k <= ts.len(),
        ts.len() <= usize::MAX,
        forall|x: int| 0 <= x < ts.len() ==> (#[trigger] ts[x]).channels.len() <= usize::MAX,
    ensures
        forall|m: int| 0 <= m < scan_tracks(ts, k, start, end).len() ==> {
            let le = #[trigger] scan_tracks(ts, k, start, end)[m];
            &&& le.track < k
            &&& valid_channel(ts, le.track as int, le.channel as int)
            &&& ts[le.track as int].channels[le.channel as int].contains(le.event)
            &&& in_selection(le.event, le.track, le.channel, start, end)
        },
        forall|t: int, c: int, i: int| 0 <= t < k && valid_channel(ts, t, c) && 0 <= i < ts[t].channels[c].len()
            && in_selection(#[trigger] ts[t].channels[c][i], t as usize, c as usize, start, end) ==>
            scan_tracks(ts, k, start, end).contains(LocatedEvent { track: t as usize, channel: c as usize, event: ts[t].channels[c][i] }),
    decreases k,
{
    if k > 0 {
        lemma_scan_tracks_members(ts, k - 1, start, end);
        let chs = ts[k - 1].channels;
        lemma_scan_track_members(chs, (k - 1) as usize, chs.len() as int, start, end);
        let a = scan_tracks(ts, k - 1, start, end);
        let b = scan_track(chs, (k - 1) as usize, chs.len() as int, start, end);
        let r = a + b;
        assert forall|m: int| 0 <= m < r.len() implies {
            let le = #[trigger] r[m];
            &&& le.track < k
            &&& valid_channel(ts, le.track as int, le.channel as int)
            &&& ts[le.track as int].channels[le.channel as int].contains(le.event)
            &&& in_selection(le.event, le.track, le.channel, start, end)
        } by {
            if m < a.len() {
                assert(r[m] == a[m]);
            } else {
                assert(r[m] == b[m - a.len()]);
            }
        }
        assert forall|t: int, c: int, i: int| 0 <= t < k && valid_channel(ts, t, c) && 0 <= i < ts[t].channels[c].len()
            && in_selection(#[trigger] ts[t].channels[c][i], t as usize, c as usize, start, end) implies
            r.contains(LocatedEvent { track: t as usize, channel: c as usize, event: ts[t].channels[c][i] }) by {
            let x = LocatedEvent { track: t as usize, channel: c as usize, event: ts[t].channels[c][i] };
            if t < k - 1 {
                assert(a.contains(x));
                let m = choose|m: int| 0 <= m < a.len() && a[m] == x;
                assert(r[m] == a[m]);
            } else {
                assert(chs[c][i] == ts[t].channels[c][i]);
                assert(b.contains(x));
                let m = choose|m: int| 0 <= m < b.len() && b[m] == x;
                assert(r[a.len() + m] == b[m]);
            }
        }
    }
}

} // verus!
