//! Replacing the data of events and undoing the replacement.

use vstd::prelude::*;

verus! {

use crate::module::{
    Event, EventData, EditView, LocatedEvent, ModuleState, TrackView, Position, apply_edit, edit_ok, replace_at,
    replace_all, set_channel, valid_channel, first_event_at, event_is_at, located_position, logical_column_spec,
};
use crate::entry::lemma_first_event_at_result;

/// Both states have the same tracks and channels, and every event keeps
/// its tick and logical column.
pub open spec fn same_positions(a: Seq<TrackView>, b: Seq<TrackView>) -> bool {
    &&& a.len() == b.len()
    &&& forall|x: int| 0 <= x < a.len() ==> (#[trigger] b[x]).target == a[x].target
        && b[x].channels.len() == a[x].channels.len()
    &&& forall|x: int, y: int| valid_channel(a, x, y) ==> (#[trigger] b[x].channels[y]).len() == a[x].channels[y].len()
    &&& forall|x: int, y: int, i: int| valid_channel(a, x, y) && 0 <= i < a[x].channels[y].len() ==>
        (#[trigger] b[x].channels[y][i]).tick == a[x].channels[y][i].tick
            && logical_column_spec(b[x].channels[y][i].data) == logical_column_spec(a[x].channels[y][i].data)
}

/// The index of the event that `e` replaces in its channel, or -1.
pub open spec fn target_index(ts: Seq<TrackView>, e: LocatedEvent) -> int {
    if valid_channel(ts, e.track as int, e.channel as int) {
        first_event_at(ts[e.track as int].channels[e.channel as int], e.event.tick, logical_column_spec(e.event.data))
    } else {
        -1
    }
}

/// `e` replaces event `i` of channel `(x, y)`.
pub open spec fn targets(ts: Seq<TrackView>, e: LocatedEvent, x: int, y: int, i: int) -> bool {
    e.track == x && e.channel == y && target_index(ts, e) == i && i >= 0
}

/// The data that the last of `es` to replace event `i` of channel `(x, y)`
/// puts there, if any does.
pub open spec fn replacement(ts: Seq<TrackView>, es: Seq<LocatedEvent>, x: int, y: int, i: int) -> Option<EventData>
    decreases es.len(),
{
    if es.len() == 0 {
        None
    } else if targets(ts, es.last(), x, y, i) {
        Some(es.last().event.data)
    } else {
        replacement(ts, es.drop_last(), x, y, i)
    }
}

/// No two of `es` are at the same position.
pub open spec fn positions_distinct(es: Seq<LocatedEvent>) -> bool {
    forall|j: int, k: int| 0 <= j < k < es.len() ==> located_position(#[trigger] es[j]) != located_position(#[trigger] es[k])
}

proof fn lemma_same_positions_trans(a: Seq<TrackView>, b: Seq<TrackView>, c: Seq<TrackView>)
    requires
        same_positions(a, b),
        same_positions(b, c),
    ensures
        same_positions(a, c),
{
    assert forall|x: int, y: int| valid_channel(a, x, y) implies valid_channel(b, x, y) by {}
}

/// Finding the first event at a position depends only on positions.
proof fn lemma_first_event_at_same(a: Seq<Event>, b: Seq<Event>, tick: crate::timespan::Timespan, column: u8)
    requires
        a.len() == b.len(),
        forall|i: int| 0 <= i < a.len() ==> (#[trigger] b[i]).tick == a[i].tick
            && logical_column_spec(b[i].data) == logical_column_spec(a[i].data),
    ensures
        first_event_at(a, tick, column) == first_event_at(b, tick, column),
    decreases a.len(),
{
    if a.len() > 0 {
        assert(b[0].tick == a[0].tick);
        let a1 = a.skip(1);
        let b1 = b.skip(1);
        assert forall|i: int| 0 <= i < a1.len() implies (#[trigger] b1[i]).tick == a1[i].tick
            && logical_column_spec(b1[i].data) == logical_column_spec(a1[i].data) by {
            assert(b1[i] == b[i + 1] && a1[i] == a[i + 1]);
        }
        lemma_first_event_at_same(a1, b1, tick, column);
    }
}

/// Target indices depend only on positions.
proof fn lemma_target_same(a: Seq<TrackView>, b: Seq<TrackView>, e: LocatedEvent)
    requires
        same_positions(a, b),
    ensures
        target_index(a, e) == target_index(b, e),
{
    let x = e.track as int;
    let y = e.channel as int;
    if valid_channel(a, x, y) {
        assert(valid_channel(b, x, y));
        let ca = a[x].channels[y];
        let cb = b[x].channels[y];
        assert forall|i: int| 0 <= i < ca.len() implies (#[trigger] cb[i]).tick == ca[i].tick
            && logical_column_spec(cb[i].data) == logical_column_spec(ca[i].data) by {}
        lemma_first_event_at_same(ca, cb, e.event.tick, logical_column_spec(e.event.data));
    } else {
        assert(!valid_channel(b, x, y));
    }
}

/// An event replaced by `e` sits at the position of `e`.
proof fn lemma_target_position(ts: Seq<TrackView>, e: LocatedEvent, x: int, y: int, i: int)
    requires
        targets(ts, e, x, y, i),
    ensures
        valid_channel(ts, x, y),
        0 <= i < ts[x].channels[y].len(),
        located_position(e) == (Position {
            tick: ts[x].channels[y][i].tick,
            track: x as usize,
            channel: y as usize,
            column: logical_column_spec(ts[x].channels[y][i].data),
        }),
{
    lemma_first_event_at_result(ts[x].channels[y], e.event.tick, logical_column_spec(e.event.data));
}

/// Replacing one event keeps every position and changes only the data of
/// the event that `e` targets.
proof fn lemma_replace_at(ts: Seq<TrackView>, e: LocatedEvent)
    ensures
        same_positions(ts, replace_at(ts, e).0),
        forall|x: int, y: int, i: int| valid_channel(ts, x, y) && 0 <= i < ts[x].channels[y].len() ==>
            (#[trigger] replace_at(ts, e).0[x].channels[y][i]) == if targets(ts, e, x, y, i) {
                Event { tick: ts[x].channels[y][i].tick, data: e.event.data }
            } else {
                ts[x].channels[y][i]
            },
        replace_at(ts, e).1 == if target_index(ts, e) >= 0 {
            LocatedEvent { track: e.track, channel: e.channel, event: ts[e.track as int].channels[e.channel as int][target_index(ts, e)] }
        } else {
            e
        },
{
    let x0 = e.track as int;
    let y0 = e.channel as int;
    if valid_channel(ts, x0, y0) {
        let evs = ts[x0].channels[y0];
        let col = logical_column_spec(e.event.data);
        lemma_first_event_at_result(evs, e.event.tick, col);
    }
}

/// A replacement comes from one of the events that target the place.
proof fn lemma_replacement_some(ts: Seq<TrackView>, es: Seq<LocatedEvent>, x: int, y: int, i: int)
    requires
        replacement(ts, es, x, y, i) is Some,
    ensures
        exists|j: int| 0 <= j < es.len() && targets(ts, #[trigger] es[j], x, y, i),
    decreases es.len(),
{
    if targets(ts, es.last(), x, y, i) {
        assert(targets(ts, es[es.len() - 1], x, y, i));
    } else {
        let q = es.drop_last();
        lemma_replacement_some(ts, q, x, y, i);
        let j = choose|j: int| 0 <= j < q.len() && targets(ts, #[trigger] q[j], x, y, i);
        assert(es[j] == q[j]);
    }
}

/// Replacing events at distinct positions in turn: every position stays,
/// each event takes the data of the one that targets it, and the events
/// given back are the ones that were replaced.
proof fn lemma_replace_all(ts: Seq<TrackView>, es: Seq<LocatedEvent>)
    requires
        positions_distinct(es),
    ensures
        same_positions(ts, replace_all(ts, es).0),
        replace_all(ts, es).1.len() == es.len(),
        forall|x: int, y: int, i: int| valid_channel(ts, x, y) && 0 <= i < ts[x].channels[y].len() ==>
            (#[trigger] replace_all(ts, es).0[x].channels[y][i]) == match replacement(ts, es, x, y, i) {
                Some(d) => Event { tick: ts[x].channels[y][i].tick, data: d },
                None => ts[x].channels[y][i],
            },
        forall|k: int| 0 <= k < es.len() ==> (#[trigger] replace_all(ts, es).1[k]) == if target_index(ts, es[k]) >= 0 {
            LocatedEvent { track: es[k].track, channel: es[k].channel, event: ts[es[k].track as int].channels[es[k].channel as int][target_index(ts, es[k])] }
        } else {
            es[k]
        },
    decreases es.len(),
{
    if es.len() > 0 {
        let q = es.drop_last();
        assert(positions_distinct(q)) by {
            assert forall|j: int, k: int| 0 <= j < k < q.len() implies located_position(#[trigger] q[j]) != located_position(#[trigger] q[k]) by {
                assert(q[j] == es[j] && q[k] == es[k]);
            }
        }
        lemma_replace_all(ts, q);
        let (r1, o1) = replace_all(ts, q);
        let e = es.last();
        assert(es[es.len() - 1] == e);
        lemma_replace_at(r1, e);
        lemma_target_same(ts, r1, e);
        let r2 = replace_at(r1, e).0;
        lemma_same_positions_trans(ts, r1, r2);
        assert forall|x: int, y: int, i: int| valid_channel(ts, x, y) && 0 <= i < ts[x].channels[y].len() implies
            (#[trigger] replace_all(ts, es).0[x].channels[y][i]) == match replacement(ts, es, x, y, i) {
                Some(d) => Event { tick: ts[x].channels[y][i].tick, data: d },
                None => ts[x].channels[y][i],
            } by {
            assert(valid_channel(r1, x, y));
            assert(targets(r1, e, x, y, i) == targets(ts, e, x, y, i));
            assert(r1[x].channels[y][i].tick == ts[x].channels[y][i].tick);
        }
        assert forall|k: int| 0 <= k < es.len() implies (#[trigger] replace_all(ts, es).1[k]) == if target_index(ts, es[k]) >= 0 {
            LocatedEvent { track: es[k].track, channel: es[k].channel, event: ts[es[k].track as int].channels[es[k].channel as int][target_index(ts, es[k])] }
        } else {
            es[k]
        } by {
            if k < q.len() {
                assert(replace_all(ts, es).1[k] == o1[k]);
                assert(q[k] == es[k]);
            } else {
                let idx = target_index(ts, e);
                if idx >= 0 {
                    let x = e.track as int;
                    let y = e.channel as int;
                    assert(targets(ts, e, x, y, idx));
                    lemma_target_position(ts, e, x, y, idx);
                    if replacement(ts, q, x, y, idx) is Some {
                        lemma_replacement_some(ts, q, x, y, idx);
                        let j = choose|j: int| 0 <= j < q.len() && targets(ts, #[trigger] q[j], x, y, idx);
                        lemma_target_position(ts, q[j], x, y, idx);
                        assert(q[j] == es[j]);
                        assert(located_position(es[j]) != located_position(es[es.len() - 1]));
                    }
                }
            }
        }
    }
}

/// The replaced events, put back, replace exactly the events that `es`
/// replaced, with their old data.
proof fn lemma_replacement_olds(ts: Seq<TrackView>, ts1: Seq<TrackView>, es: Seq<LocatedEvent>, olds: Seq<LocatedEvent>,
    x: int, y: int, i: int)
    requires
        same_positions(ts, ts1),
        olds.len() == es.len(),
        forall|k: int| 0 <= k < es.len() ==> (#[trigger] olds[k]) == if target_index(ts, es[k]) >= 0 {
            LocatedEvent { track: es[k].track, channel: es[k].channel, event: ts[es[k].track as int].channels[es[k].channel as int][target_index(ts, es[k])] }
        } else {
            es[k]
        },
        valid_channel(ts, x, y),
        0 <= i < ts[x].channels[y].len(),
    ensures
        replacement(ts1, olds, x, y, i) == if replacement(ts, es, x, y, i) is Some {
            Some(ts[x].channels[y][i].data)
        } else {
            None::<EventData>
        },
    decreases es.len(),
{
    if es.len() > 0 {
        let e = es.last();
        let o = olds.last();
        assert(es[es.len() - 1] == e && olds[olds.len() - 1] == o);
        lemma_target_same(ts, ts1, o);
        let idx = target_index(ts, e);
        if idx >= 0 {
            let ex = e.track as int;
            let ey = e.channel as int;
            assert(targets(ts, e, ex, ey, idx));
            lemma_target_position(ts, e, ex, ey, idx);
            assert(target_index(ts, o) == idx);
        }
        let q = es.drop_last();
        let qo = olds.drop_last();
        assert forall|k: int| 0 <= k < q.len() implies (#[trigger] qo[k]) == if target_index(ts, q[k]) >= 0 {
            LocatedEvent { track: q[k].track, channel: q[k].channel, event: ts[q[k].track as int].channels[q[k].channel as int][target_index(ts, q[k])] }
        } else {
            q[k]
        } by {
            assert(qo[k] == olds[k] && q[k] == es[k]);
        }
        lemma_replacement_olds(ts, ts1, q, qo, x, y, i);
    }
}

/// Where replacements are at distinct positions, the data an event gets is
/// that of the one replacement that finds it.
proof fn lemma_replacement_unique(ts: Seq<TrackView>, es: Seq<LocatedEvent>, k: int, x: int, y: int, i: int)
    requires
        positions_distinct(es),
        0 <= k < es.len(),
        targets(ts, es[k], x, y, i),
    ensures
        replacement(ts, es, x, y, i) == Some(es[k].event.data),
    decreases es.len(),
{
    let n = es.len() - 1;
    if targets(ts, es.last(), x, y, i) {
        if k != n {
            lemma_target_position(ts, es[k], x, y, i);
            lemma_target_position(ts, es[n], x, y, i);
            assert(located_position(es[k]) == located_position(es[n]));
        }
    } else {
        let q = es.drop_last();
        assert(k != n);
        assert(positions_distinct(q)) by {
            assert forall|a: int, b: int| 0 <= a < b < q.len() implies located_position(#[trigger] q[a]) != located_position(#[trigger] q[b]) by {
                assert(q[a] == es[a] && q[b] == es[b]);
            }
        }
        assert(q[k] == es[k]);
        lemma_replacement_unique(ts, q, k, x, y, i);
    }
}

/// Replacing the data of events at distinct positions and then undoing
/// the replacement gives back the state, and the inverse of the undo is
/// the replacement itself, so that a redo repeats it.
#[verifier::rlimit(40)]
pub proof fn lemma_replace_reverted<P>(st: ModuleState<P>, es: Seq<LocatedEvent>)
    requires
        positions_distinct(es),
    ensures
        edit_ok(st, EditView::<P>::ReplaceEvents(es)),
        apply_edit(apply_edit(st, EditView::<P>::ReplaceEvents(es)).0, apply_edit(st, EditView::<P>::ReplaceEvents(es)).1).0 == st,
        apply_edit(apply_edit(st, EditView::<P>::ReplaceEvents(es)).0, apply_edit(st, EditView::<P>::ReplaceEvents(es)).1).1
            == EditView::<P>::ReplaceEvents(es),
{
    let ts = st.tracks;
    lemma_replace_all(ts, es);
    let (ts1, olds) = replace_all(ts, es);
    assert(positions_distinct(olds)) by {
        assert forall|k: int| 0 <= k < olds.len() implies located_position(#[trigger] olds[k]) == located_position(es[k]) by {
            let idx = target_index(ts, es[k]);
            if idx >= 0 {
                assert(targets(ts, es[k], es[k].track as int, es[k].channel as int, idx));
                lemma_target_position(ts, es[k], es[k].track as int, es[k].channel as int, idx);
            }
        }
        assert forall|j: int, k: int| 0 <= j < k < olds.len() implies located_position(#[trigger] olds[j]) != located_position(#[trigger] olds[k]) by {
            assert(located_position(olds[j]) == located_position(es[j]));
            assert(located_position(olds[k]) == located_position(es[k]));
        }
    }
    lemma_replace_all(ts1, olds);
    let ts2 = replace_all(ts1, olds).0;
    lemma_same_positions_trans(ts, ts1, ts2);
    assert(ts2 =~= ts) by {
        assert forall|x: int| 0 <= x < ts.len() implies #[trigger] ts2[x] == ts[x] by {
            assert forall|y: int| 0 <= y < ts[x].channels.len() implies #[trigger] ts2[x].channels[y] == ts[x].channels[y] by {
                assert(valid_channel(ts, x, y));
                assert(valid_channel(ts1, x, y));
                assert forall|i: int| 0 <= i < ts[x].channels[y].len() implies #[trigger] ts2[x].channels[y][i] == ts[x].channels[y][i] by {
                    lemma_replacement_olds(ts, ts1, es, olds, x, y, i);
                }
                assert(ts2[x].channels[y] =~= ts[x].channels[y]);
            }
            assert(ts2[x].channels =~= ts[x].channels);
        }
    }
    assert(apply_edit(st, EditView::<P>::ReplaceEvents(es)).1 == EditView::<P>::ReplaceEvents(olds));
    assert(apply_edit(apply_edit(st, EditView::<P>::ReplaceEvents(es)).0, EditView::<P>::ReplaceEvents(olds)).0 =~= st);
    // the undo gives back the replacements
    let olds2 = replace_all(ts1, olds).1;
    assert(olds2 =~= es) by {
        assert forall|k: int| 0 <= k < es.len() implies #[trigger] olds2[k] == es[k] by {
            lemma_target_same(ts, ts1, olds[k]);
            let idx = target_index(ts, es[k]);
            let x = es[k].track as int;
            let y = es[k].channel as int;
            if idx >= 0 {
                assert(targets(ts, es[k], x, y, idx));
                lemma_target_position(ts, es[k], x, y, idx);
                assert(located_position(olds[k]) == located_position(es[k]));
                assert(target_index(ts, olds[k]) == idx);
                lemma_replacement_unique(ts, es, k, x, y, idx);
                assert(ts1[x].channels[y][idx] == Event { tick: ts[x].channels[y][idx].tick, data: es[k].event.data });
                assert(olds2[k] == LocatedEvent { track: olds[k].track, channel: olds[k].channel, event: ts1[x].channels[y][idx] });
            } else {
                assert(olds[k] == es[k]);
            }
        }
    }
}

/// Replacing an event and then replacing again with the event handed back
/// gives back the tracks, and hands back the first replacement.
#[verifier::rlimit(40)]
pub proof fn lemma_replace_event_reverted(ts: Seq<TrackView>, e: LocatedEvent)
    ensures
        replace_at(replace_at(ts, e).0, replace_at(ts, e).1).0 == ts,
        replace_at(replace_at(ts, e).0, replace_at(ts, e).1).1 == e,
{
    let (ts1, old) = replace_at(ts, e);
    let x = e.track as int;
    let y = e.channel as int;
    lemma_replace_at(ts, e);
    lemma_target_same(ts, ts1, old);
    let idx = target_index(ts, e);
    if idx >= 0 {
        assert(targets(ts, e, x, y, idx));
        lemma_target_position(ts, e, x, y, idx);
        assert(located_position(old) == located_position(e));
        assert(target_index(ts, old) == idx);
        lemma_replace_at(ts1, old);
        let ts2 = replace_at(ts1, old).0;
        assert(valid_channel(ts1, x, y));
        assert(targets(ts1, old, x, y, idx));
        assert(ts2 =~= ts) by {
            assert forall|a: int| 0 <= a < ts.len() implies #[trigger] ts2[a] == ts[a] by {
                assert forall|b: int| 0 <= b < ts[a].channels.len() implies #[trigger] ts2[a].channels[b] == ts[a].channels[b] by {
                    assert(valid_channel(ts, a, b));
                    assert forall|i: int| 0 <= i < ts[a].channels[b].len() implies
                        #[trigger] ts2[a].channels[b][i] == ts[a].channels[b][i] by {
                        if a == x && b == y && i == idx {
                            assert(targets(ts, e, a, b, i));
                            assert(targets(ts1, old, a, b, i));
                        } else {
                            assert(!targets(ts, e, a, b, i));
                            assert(!targets(ts1, old, a, b, i));
                        }
                    }
                    assert(ts2[a].channels[b] =~= ts[a].channels[b]);
                }
                assert(ts2[a].channels =~= ts[a].channels);
            }
        }
        assert(ts1[x].channels[y][idx] == Event { tick: ts[x].channels[y][idx].tick, data: e.event.data });
    } else {
        assert(old == e);
        assert(ts1 == ts) by {
            if valid_channel(ts, x, y) {
                assert(ts1 =~= ts) by {
                    assert forall|a: int| 0 <= a < ts.len() implies #[trigger] ts1[a] == ts[a] by {
                        assert forall|b: int| 0 <= b < ts[a].channels.len() implies #[trigger] ts1[a].channels[b] == ts[a].channels[b] by {
                            assert(valid_channel(ts, a, b));
                            assert forall|i: int| 0 <= i < ts[a].channels[b].len() implies
                                #[trigger] ts1[a].channels[b][i] == ts[a].channels[b][i] by {
                                assert(!targets(ts, e, a, b, i));
                            }
                            assert(ts1[a].channels[b] =~= ts[a].channels[b]);
                        }
                        assert(ts1[a].channels =~= ts[a].channels);
                    }
                }
            }
        }
    }
}

} // verus!
