//! Undoing the entry of a single event gives back the pattern.

use vstd::prelude::*;

verus! {

use crate::module::{
    Event, EditView, LocatedEvent, ModuleState, TrackView, apply_edit, delete_all, delete_at, push_all,
    sort_touched, set_channel, valid_channel, first_event_at, event_is_at, located_position, event_key_le,
    insert_sorted, sort_events_spec, touches, logical_column_spec, spatial_column_spec, with_tracks,
    lemma_first_event_at, lemma_sort_touched_empty,
};
use crate::ordering::{ticks_valid, events_sorted};
use crate::timespan::same_value;

/// Events in strict order of position key: no two share a key.
pub open spec fn events_strictly_sorted(s: Seq<Event>) -> bool {
    forall|i: int, j: int| 0 <= i < j < s.len() ==>
        event_key_le(#[trigger] s[i], #[trigger] s[j]) && !event_key_le(s[j], s[i])
}

/// The edit that enters event `le`: it replaces the first event at the
/// same position, if any.
pub open spec fn entry_edit<P>(le: LocatedEvent) -> EditView<P> {
    EditView::PatternData { remove: seq![located_position(le)], add: seq![le] }
}

/// Sorting events that are already in order changes nothing.
proof fn lemma_sort_sorted(s: Seq<Event>)
    requires
        events_sorted(s),
    ensures
        sort_events_spec(s) == s,
    decreases s.len(),
{
    if s.len() > 0 {
        let t = s.drop_last();
        assert(events_sorted(t)) by {
            assert forall|i: int, j: int| 0 <= i < j < t.len() implies event_key_le(#[trigger] t[i], #[trigger] t[j]) by {
                assert(t[i] == s[i] && t[j] == s[j]);
            }
        }
        lemma_sort_sorted(t);
        if t.len() > 0 {
            assert(t.last() == s[s.len() - 2]);
            assert(s[s.len() - 1] == s.last());
            assert(event_key_le(t.last(), s.last()));
            assert(t.push(s.last()) =~= s);
        } else {
            assert(seq![s.last()] =~= s);
        }
    }
}

/// Where `e` goes when inserted into events in order: after the first `k`,
/// before all the rest, which come strictly after it.
pub(crate) proof fn lemma_insert_split(s: Seq<Event>, e: Event) -> (k: int)
    requires
        events_sorted(s),
        ticks_valid(s),
        e.tick@.1 > 0,
    ensures
        0 <= k <= s.len(),
        insert_sorted(s, e) == s.take(k).push(e) + s.skip(k),
        forall|m: int| 0 <= m < k ==> event_key_le(#[trigger] s[m], e),
        forall|m: int| k <= m < s.len() ==> !event_key_le(#[trigger] s[m], e),
    decreases s.len(),
{
    if s.len() == 0 {
        assert(s.take(0).push(e) + s.skip(0) =~= seq![e]);
        0
    } else if event_key_le(s.last(), e) {
        assert forall|m: int| 0 <= m < s.len() implies event_key_le(#[trigger] s[m], e) by {
            if m < s.len() - 1 {
                assert(s[s.len() - 1] == s.last());
                crate::ordering::lemma_key_trans(s[m], s.last(), e);
            }
        }
        assert(s.take(s.len() as int) =~= s);
        assert(s.take(s.len() as int).push(e) + s.skip(s.len() as int) =~= s.push(e));
        s.len() as int
    } else {
        let t = s.drop_last();
        assert(events_sorted(t)) by {
            assert forall|i: int, j: int| 0 <= i < j < t.len() implies event_key_le(#[trigger] t[i], #[trigger] t[j]) by {
                assert(t[i] == s[i] && t[j] == s[j]);
            }
        }
        assert(ticks_valid(t)) by {
            assert forall|i: int| 0 <= i < t.len() implies (#[trigger] t[i]).tick@.1 > 0 by {
                assert(t[i] == s[i]);
            }
        }
        let k = lemma_insert_split(t, e);
        assert forall|m: int| 0 <= m < k implies event_key_le(#[trigger] s[m], e) by {
            assert(t[m] == s[m]);
        }
        assert forall|m: int| k <= m < s.len() implies !event_key_le(#[trigger] s[m], e) by {
            if m < t.len() {
                assert(t[m] == s[m]);
            } else {
                assert(s[m] == s.last());
            }
        }
        assert((t.take(k).push(e) + t.skip(k)).push(s.last()) =~= s.take(k).push(e) + s.skip(k));
        k
    }
}

/// What `first_event_at` finds: the first event at the position, or none.
pub(crate) proof fn lemma_first_event_at_result(evs: Seq<Event>, tick: crate::timespan::Timespan, column: u8)
    ensures
        first_event_at(evs, tick, column) < 0 ==> forall|j: int| 0 <= j < evs.len() ==> !event_is_at(#[trigger] evs[j], tick, column),
        first_event_at(evs, tick, column) >= 0 ==> {
            let r = first_event_at(evs, tick, column);
            &&& r < evs.len()
            &&& event_is_at(evs[r], tick, column)
            &&& forall|j: int| 0 <= j < r ==> !event_is_at(#[trigger] evs[j], tick, column)
        },
    decreases evs.len(),
{
    if evs.len() > 0 && !event_is_at(evs[0], tick, column) {
        let rest = evs.skip(1);
        lemma_first_event_at_result(rest, tick, column);
        assert forall|j: int| 1 <= j < evs.len() implies evs[j] == #[trigger] rest[j - 1] by {}
        if first_event_at(evs, tick, column) >= 0 {
            let r = first_event_at(evs, tick, column);
            assert(evs[r] == rest[r - 1]);
            assert forall|j: int| 0 <= j < r implies !event_is_at(#[trigger] evs[j], tick, column) by {
                if j > 0 {
                    assert(evs[j] == rest[j - 1]);
                }
            }
        } else {
            assert forall|j: int| 0 <= j < evs.len() implies !event_is_at(#[trigger] evs[j], tick, column) by {
                if j > 0 {
                    assert(evs[j] == rest[j - 1]);
                }
            }
        }
    }
}

/// Two events at the same position have the same key.
proof fn lemma_same_position_same_key(x: Event, y: Event, tick: crate::timespan::Timespan, column: u8)
    requires
        event_is_at(x, tick, column),
        event_is_at(y, tick, column),
    ensures
        event_key_le(x, y),
        event_key_le(y, x),
{
    assert(x.tick@ == y.tick@);
    assert(same_value(x.tick@, y.tick@));
    assert(spatial_column_spec(x.data) == spatial_column_spec(y.data));
}

/// The events of a channel after an event is entered, and after that entry
/// is undone.
#[verifier::rlimit(50)]
proof fn lemma_entry_channel(s: Seq<Event>, e: Event)
    requires
        events_strictly_sorted(s),
        ticks_valid(s),
        e.tick@.1 > 0,
    ensures
        ({
            let col = logical_column_spec(e.data);
            let i = first_event_at(s, e.tick, col);
            let s1 = if i < 0 { s } else { s.remove(i) };
            let c2 = sort_events_spec(s1.push(e));
            let j = first_event_at(c2, e.tick, col);
            &&& 0 <= j < c2.len()
            &&& c2.remove(j) == s1
            &&& i >= 0 ==> 0 <= i < s.len() && sort_events_spec(s1.push(s[i])) == s
        }),
{
    let col = logical_column_spec(e.data);
    let i = first_event_at(s, e.tick, col);
    lemma_first_event_at_result(s, e.tick, col);
    let s1 = if i < 0 { s } else { s.remove(i) };
    assert(events_sorted(s1) && events_strictly_sorted(s1) && ticks_valid(s1)) by {
        if i >= 0 {
            assert forall|a: int, b: int| 0 <= a < b < s1.len() implies
                event_key_le(#[trigger] s1[a], #[trigger] s1[b]) && !event_key_le(s1[b], s1[a]) by {
                let a0 = if a < i { a } else { a + 1 };
                let b0 = if b < i { b } else { b + 1 };
                assert(s1[a] == s[a0] && s1[b] == s[b0]);
            }
            assert forall|a: int| 0 <= a < s1.len() implies (#[trigger] s1[a]).tick@.1 > 0 by {
                let a0 = if a < i { a } else { a + 1 };
                assert(s1[a] == s[a0]);
            }
        }
    }
    // no event of s1 is at the entered position
    assert forall|m: int| 0 <= m < s1.len() implies !event_is_at(#[trigger] s1[m], e.tick, col) by {
        if i >= 0 {
            let m0 = if m < i { m } else { m + 1 };
            assert(s1[m] == s[m0]);
            if event_is_at(s[m0], e.tick, col) {
                lemma_same_position_same_key(s[m0], s[i], e.tick, col);
            }
        }
    }
    // sorting the channel with the new event inserts it in order
    assert(s1.push(e).drop_last() =~= s1);
    lemma_sort_sorted(s1);
    assert(sort_events_spec(s1.push(e)) == insert_sorted(s1, e));
    let k = lemma_insert_split(s1, e);
    let c2 = sort_events_spec(s1.push(e));
    assert(c2[k] == e);
    assert forall|j: int| 0 <= j < k implies !event_is_at(#[trigger] c2[j], e.tick, col) by {
        assert(c2[j] == s1[j]);
    }
    lemma_first_event_at(c2, e.tick, col, k);
    assert(c2.remove(k) =~= s1);
    if i >= 0 {
        let o = s[i];
        assert(s1.push(o).drop_last() =~= s1);
        assert(sort_events_spec(s1.push(o)) == insert_sorted(s1, o));
        let k2 = lemma_insert_split(s1, o);
        if k2 < i {
            assert(s1[k2] == s[k2]);
        }
        if k2 > i {
            assert(s1[i] == s[i + 1]);
        }
        assert(k2 == i);
        assert(s1.take(i).push(o) + s1.skip(i) =~= s);
    }
}

/// Sorting the one channel that an event went into.
proof fn lemma_sort_touched_single(ts: Seq<TrackView>, le: LocatedEvent)
    requires
        valid_channel(ts, le.track as int, le.channel as int),
    ensures
        sort_touched(ts, seq![le]) == set_channel(ts, le.track as int, le.channel as int,
            sort_events_spec(ts[le.track as int].channels[le.channel as int])),
{
    let t = le.track as int;
    let c = le.channel as int;
    let a = sort_touched(ts, seq![le]);
    let b = set_channel(ts, t, c, sort_events_spec(ts[t].channels[c]));
    assert forall|x: int| 0 <= x < ts.len() implies #[trigger] a[x] == b[x] by {
        assert forall|y: int| 0 <= y < ts[x].channels.len() implies #[trigger] a[x].channels[y] == b[x].channels[y] by {
            if x == t && y == c {
                assert(seq![le][0] == le);
                assert(touches(seq![le], x, y));
            } else {
                assert(!touches(seq![le], x, y));
            }
        }
        assert(a[x].channels =~= b[x].channels);
    }
    assert(a =~= b);
}

/// Entering one event into a channel whose events have distinct position
/// keys, then undoing the entry, gives back the state before it: the
/// replaced event, if any, returns to its place.
pub proof fn lemma_entry_reverted<P>(st: ModuleState<P>, le: LocatedEvent)
    requires
        valid_channel(st.tracks, le.track as int, le.channel as int),
        events_strictly_sorted(st.tracks[le.track as int].channels[le.channel as int]),
        ticks_valid(st.tracks[le.track as int].channels[le.channel as int]),
        le.event.tick@.1 > 0,
    ensures
        crate::module::edit_ok(st, entry_edit::<P>(le)),
        apply_edit(apply_edit(st, entry_edit::<P>(le)).0, apply_edit(st, entry_edit::<P>(le)).1).0 == st,
{
    let t = le.track as int;
    let c = le.channel as int;
    let ts = st.tracks;
    let s = ts[t].channels[c];
    let e = le.event;
    let p = located_position(le);
    let col = logical_column_spec(e.data);
    lemma_entry_channel(s, e);
    lemma_first_event_at_result(s, e.tick, col);
    let i = first_event_at(s, e.tick, col);
    let s1 = if i < 0 { s } else { s.remove(i) };
    // the entry
    assert(seq![p].drop_last() =~= Seq::<crate::module::Position>::empty());
    assert(seq![p].last() == p);
    assert(delete_all(ts, Seq::empty()) == (ts, Seq::<LocatedEvent>::empty()));
    let (ts1, deleted) = delete_all(ts, seq![p]);
    assert(delete_at(ts, p).0 == ts1);
    assert(ts1 == if i < 0 { ts } else { set_channel(ts, t, c, s1) });
    assert(valid_channel(ts1, t, c));
    assert(ts1[t].channels[c] == s1);
    assert(seq![le].drop_last() =~= Seq::<LocatedEvent>::empty());
    assert(seq![le].last() == le);
    let pushed = push_all(ts1, seq![le]);
    assert(push_all(ts1, seq![le].drop_last()) == ts1);
    assert(pushed == set_channel(ts1, t, c, s1.push(e)));
    assert(valid_channel(pushed, t, c));
    assert(pushed[t].channels[c] == s1.push(e));
    lemma_sort_touched_single(pushed, le);
    let c2 = sort_events_spec(s1.push(e));
    let ts2 = sort_touched(pushed, seq![le]);
    assert(ts2 =~= set_channel(ts, t, c, c2)) by {
        assert(set_channel(pushed, t, c, c2) =~= set_channel(ts, t, c, c2)) by {
            assert forall|x: int| 0 <= x < ts.len() implies
                #[trigger] set_channel(pushed, t, c, c2)[x] == set_channel(ts, t, c, c2)[x] by {
                if x == t {
                    assert(set_channel(pushed, t, c, c2)[x].channels =~= set_channel(ts, t, c, c2)[x].channels);
                }
            }
        }
    }
    let (st1, inv) = apply_edit(st, entry_edit::<P>(le));
    assert(st1 == with_tracks(st, ts2));
    assert(inv == EditView::<P>::PatternData { remove: seq![le].map_values(|x: LocatedEvent| located_position(x)), add: deleted });
    assert(seq![le].map_values(|x: LocatedEvent| located_position(x)) =~= seq![p]);
    // the undo deletes the entered event again
    let j = first_event_at(c2, e.tick, col);
    assert(delete_all(ts2, Seq::empty()) == (ts2, Seq::<LocatedEvent>::empty()));
    let (ts3, _) = delete_all(ts2, seq![p]);
    assert(ts2[t].channels[c] == c2);
    assert(ts3 == set_channel(ts2, t, c, c2.remove(j)));
    assert(ts3 =~= ts1) by {
        assert forall|x: int| 0 <= x < ts.len() implies #[trigger] ts3[x] == ts1[x] by {
            if x == t {
                assert(ts3[x].channels =~= ts1[x].channels);
            }
        }
    }
    let ts4 = sort_touched(push_all(ts3, deleted), deleted);
    if i < 0 {
        assert(deleted =~= Seq::<LocatedEvent>::empty());
        lemma_sort_touched_empty(ts3);
        assert(ts4 == ts1);
        assert(ts1 == ts);
    } else {
        let o = LocatedEvent { track: le.track, channel: le.channel, event: s[i] };
        assert(deleted == seq![o]);
        assert(seq![o].drop_last() =~= Seq::<LocatedEvent>::empty());
        assert(seq![o].last() == o);
        let pushed2 = push_all(ts3, seq![o]);
        assert(push_all(ts3, seq![o].drop_last()) == ts3);
        assert(ts3[t].channels[c] == s1);
        assert(pushed2 == set_channel(ts3, t, c, s1.push(s[i])));
        lemma_sort_touched_single(pushed2, o);
        assert(ts4 =~= ts) by {
            assert forall|x: int| 0 <= x < ts.len() implies #[trigger] ts4[x] == ts[x] by {
                if x == t {
                    assert(ts4[x].channels =~= ts[x].channels);
                } else {
                    assert(ts4[x].channels =~= ts[x].channels);
                }
            }
        }
    }
    let st2 = apply_edit(st1, inv).0;
    assert(st2 == with_tracks(st1, ts4));
    assert(st2 =~= st);
}

} // verus!
