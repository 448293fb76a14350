//! Deleting and adding events, then undoing that, gives back the pattern.

use vstd::prelude::*;

verus! {

use crate::module::{
    Event, EditView, LocatedEvent, ModuleState, TrackView, Position, apply_edit, edit_ok, delete_all, delete_at,
    push_all, sort_touched, set_channel, valid_channel, first_event_at, positions_valid, located_valid, touches,
    sort_events_spec, event_key_le, shape, lemma_delete_all_shape, lemma_push_all_shape, lemma_sort_touched_empty,
    located_position, event_is_at, logical_column_spec,
};
use crate::ordering::{ticks_valid, events_sorted, lemma_sort_events, lemma_key_total, lemma_key_trans};
use crate::entry::{events_strictly_sorted, lemma_first_event_at_result};

use crate::stability::{events_at, lemma_events_at_append, lemma_events_at_none, lemma_events_at_remove, lemma_first_event_listed, lemma_sort_stable};
use crate::timespan::Timespan;
use crate::reverting::{tracks_restored, lemma_restored_exact};

/// The events of `adds` that go into channel `(x, y)`, in order.
pub open spec fn located_in(adds: Seq<LocatedEvent>, x: int, y: int) -> Seq<Event> {
    adds.filter_map(|le: LocatedEvent| if le.track == x && le.channel == y { Some(le.event) } else { None })
}

/// Appending located events puts each at the end of its channel, in order.
pub(crate) proof fn lemma_push_all_channels(ts: Seq<TrackView>, adds: Seq<LocatedEvent>)
    requires
        located_valid(ts, adds),
    ensures
        push_all(ts, adds).len() == ts.len(),
        forall|x: int| 0 <= x < ts.len() ==> (#[trigger] push_all(ts, adds)[x]).target == ts[x].target
            && push_all(ts, adds)[x].channels.len() == ts[x].channels.len(),
        forall|x: int, y: int| valid_channel(ts, x, y) ==>
            (#[trigger] push_all(ts, adds)[x].channels[y]) == ts[x].channels[y] + located_in(adds, x, y),
    decreases adds.len(),
{
    if adds.len() > 0 {
        let q = adds.drop_last();
        assert(located_valid(ts, q)) by {
            assert forall|i: int| 0 <= i < q.len() implies valid_channel(ts, #[trigger] q[i].track as int, q[i].channel as int) by {
                assert(q[i] == adds[i]);
            }
        }
        lemma_push_all_channels(ts, q);
        lemma_push_all_shape(ts, q);
        let p = push_all(ts, q);
        let e = adds.last();
        assert(adds[adds.len() - 1] == e);
        assert(valid_channel(ts, e.track as int, e.channel as int));
        assert forall|x: int, y: int| valid_channel(ts, x, y) implies
            (#[trigger] push_all(ts, adds)[x].channels[y]) == ts[x].channels[y] + located_in(adds, x, y) by {
            assert(valid_channel(p, x, y));
            if x == e.track && y == e.channel {
                assert(located_in(adds, x, y) == located_in(q, x, y) + seq![e.event]);
                assert(p[x].channels[y].push(e.event) =~= ts[x].channels[y] + located_in(adds, x, y));
            } else {
                assert(located_in(adds, x, y) == located_in(q, x, y));
            }
        }
    }
}

/// A channel is touched by located events exactly when one of them goes
/// into it.
pub(crate) proof fn lemma_touches_located_in(adds: Seq<LocatedEvent>, x: int, y: int)
    ensures
        touches(adds, x, y) <==> located_in(adds, x, y).len() > 0,
    decreases adds.len(),
{
    if adds.len() > 0 {
        let q = adds.drop_last();
        lemma_touches_located_in(q, x, y);
        let e = adds.last();
        assert(adds[adds.len() - 1] == e);
        if touches(q, x, y) {
            let k = choose|k: int| 0 <= k < q.len() && q[k].track == x && q[k].channel == y;
            assert(adds[k] == q[k]);
        }
        if touches(adds, x, y) && !(e.track == x && e.channel == y) {
            let k = choose|k: int| 0 <= k < adds.len() && adds[k].track == x && adds[k].channel == y;
            assert(q[k] == adds[k]);
        }
    }
}

/// Deleting at positions in turn: the events left in each channel and the
/// events deleted from it are together the events it had; a channel from
/// which nothing was deleted is unchanged; every deleted event comes from a
/// channel that a position names.
proof fn lemma_delete_all_channels(ts: Seq<TrackView>, ps: Seq<Position>)
    requires
        positions_valid(ts, ps),
    ensures
        delete_all(ts, ps).0.len() == ts.len(),
        forall|x: int| 0 <= x < ts.len() ==> (#[trigger] delete_all(ts, ps).0[x]).target == ts[x].target
            && delete_all(ts, ps).0[x].channels.len() == ts[x].channels.len(),
        forall|x: int, y: int| valid_channel(ts, x, y) ==>
            (#[trigger] delete_all(ts, ps).0[x].channels[y]).to_multiset().add(located_in(delete_all(ts, ps).1, x, y).to_multiset())
                == ts[x].channels[y].to_multiset(),
        forall|x: int, y: int| valid_channel(ts, x, y) && located_in(delete_all(ts, ps).1, x, y).len() == 0 ==>
            (#[trigger] delete_all(ts, ps).0[x].channels[y]) == ts[x].channels[y],
        forall|j: int| 0 <= j < delete_all(ts, ps).1.len() ==> exists|k: int| 0 <= k < ps.len()
            && (#[trigger] ps[k]).track == (#[trigger] delete_all(ts, ps).1[j]).track && ps[k].channel == delete_all(ts, ps).1[j].channel,
    decreases ps.len(),
{
    broadcast use vstd::seq_lib::group_to_multiset_ensures;
    if ps.len() > 0 {
        let q = ps.drop_last();
        assert(positions_valid(ts, q)) by {
            assert forall|i: int| 0 <= i < q.len() implies valid_channel(ts, #[trigger] q[i].track as int, q[i].channel as int) by {
                assert(q[i] == ps[i]);
            }
        }
        lemma_delete_all_channels(ts, q);
        lemma_delete_all_shape(ts, q);
        let (r1, acc) = delete_all(ts, q);
        let p = ps.last();
        assert(ps[ps.len() - 1] == p);
        let pt = p.track as int;
        let pc = p.channel as int;
        assert(valid_channel(ts, pt, pc));
        assert(valid_channel(r1, pt, pc));
        let evs = r1[pt].channels[pc];
        let i = first_event_at(evs, p.tick, p.column);
        lemma_first_event_at_result(evs, p.tick, p.column);
        let (r2, del) = delete_all(ts, ps);
        if i >= 0 {
            assert(del == acc.push(LocatedEvent { track: p.track, channel: p.channel, event: evs[i] }));
            assert(del.drop_last() =~= acc);
        } else {
            assert(del == acc);
        }
        assert forall|x: int, y: int| valid_channel(ts, x, y) implies
            (#[trigger] r2[x].channels[y]).to_multiset().add(located_in(del, x, y).to_multiset()) == ts[x].channels[y].to_multiset()
            && (located_in(del, x, y).len() == 0 ==> r2[x].channels[y] == ts[x].channels[y]) by {
            assert(valid_channel(r1, x, y));
            if i >= 0 && x == pt && y == pc {
                let ev = evs[i];
                assert(del == acc.push(LocatedEvent { track: p.track, channel: p.channel, event: ev }));
                assert(located_in(del, x, y) == located_in(acc, x, y) + seq![ev]);
                assert(located_in(del, x, y) =~= located_in(acc, x, y).push(ev));
                assert(r2[x].channels[y] == evs.remove(i));
                broadcast use vstd::multiset::group_multiset_axioms;
                assert(evs.to_multiset().count(ev) > 0) by {
                    assert(evs.contains(ev)) by {
                        assert(evs[i] == ev);
                    }
                }
                assert(evs.remove(i).to_multiset().add(located_in(acc, x, y).push(ev).to_multiset())
                    =~= evs.to_multiset().add(located_in(acc, x, y).to_multiset()));
            } else {
                assert(r2[x].channels[y] == r1[x].channels[y]);
                assert(located_in(del, x, y) == located_in(acc, x, y));
            }
        }
        assert forall|j: int| 0 <= j < del.len() implies exists|k: int| 0 <= k < ps.len()
            && (#[trigger] ps[k]).track == (#[trigger] del[j]).track && ps[k].channel == del[j].channel by {
            if j < acc.len() {
                assert(del[j] == acc[j]);
                let k = choose|k: int| 0 <= k < q.len() && (#[trigger] q[k]).track == acc[j].track && q[k].channel == acc[j].channel;
                assert(ps[k] == q[k]);
            } else {
                assert(ps[ps.len() - 1].track == del[j].track);
            }
        }
    }
}

/// Events in order with the same events as events in strict order are those
/// events, in the same order.
pub(crate) proof fn lemma_sorted_unique(a: Seq<Event>, b: Seq<Event>)
    requires
        events_sorted(a),
        events_strictly_sorted(b),
        ticks_valid(b),
        a.to_multiset() == b.to_multiset(),
    ensures
        a == b,
    decreases a.len(),
{
    broadcast use vstd::seq_lib::group_to_multiset_ensures;
    vstd::seq_lib::to_multiset_len(a);
    vstd::seq_lib::to_multiset_len(b);
    assert(a.len() == b.len());
    if a.len() == 0 {
        assert(a =~= b);
    } else {
        let n = a.len() - 1;
        let la = a[n];
        let lb = b[n];
        assert(a.to_multiset().count(la) > 0);
        assert(b.contains(la));
        let j = choose|j: int| 0 <= j < b.len() && b[j] == la;
        assert(b.to_multiset().count(lb) > 0) by {
            assert(b.contains(lb));
        }
        assert(a.contains(lb));
        let m = choose|m: int| 0 <= m < a.len() && a[m] == lb;
        if j != n {
            assert(event_key_le(b[j], b[n]) && !event_key_le(b[n], b[j]));
            if m != n {
                assert(event_key_le(a[m], a[n]));
            } else {
                lemma_key_total(b[n], b[n]);
            }
            assert(false);
        }
        assert(la == lb);
        assert(a.remove(n) =~= a.drop_last());
        assert(b.remove(n) =~= b.drop_last());
        let a1 = a.drop_last();
        let b1 = b.drop_last();
        assert(a1.to_multiset() == b1.to_multiset());
        assert(events_sorted(a1)) by {
            assert forall|i: int, k: int| 0 <= i < k < a1.len() implies event_key_le(#[trigger] a1[i], #[trigger] a1[k]) by {
                assert(a1[i] == a[i] && a1[k] == a[k]);
            }
        }
        assert(events_strictly_sorted(b1)) by {
            assert forall|i: int, k: int| 0 <= i < k < b1.len() implies
                event_key_le(#[trigger] b1[i], #[trigger] b1[k]) && !event_key_le(b1[k], b1[i]) by {
                assert(b1[i] == b[i] && b1[k] == b[k]);
            }
        }
        assert(ticks_valid(b1)) by {
            assert forall|i: int| 0 <= i < b1.len() implies (#[trigger] b1[i]).tick@.1 > 0 by {
                assert(b1[i] == b[i]);
            }
        }
        lemma_sorted_unique(a1, b1);
        assert(a =~= a1.push(la));
        assert(b =~= b1.push(lb));
    }
}

/// Deleting the first event at each of some positions, in channels whose
/// events have distinct position keys, and then undoing the deletion gives
/// back the state: each deleted event returns to its place.
pub proof fn lemma_delete_reverted<P>(st: ModuleState<P>, ps: Seq<Position>)
    requires
        positions_valid(st.tracks, ps),
        forall|k: int| 0 <= k < ps.len() ==>
            events_strictly_sorted(st.tracks[(#[trigger] ps[k]).track as int].channels[ps[k].channel as int])
            && ticks_valid(st.tracks[ps[k].track as int].channels[ps[k].channel as int]),
    ensures
        ({
            let e = EditView::<P>::PatternData { remove: ps, add: Seq::empty() };
            &&& edit_ok(st, e)
            &&& edit_ok(apply_edit(st, e).0, apply_edit(st, e).1)
            &&& apply_edit(apply_edit(st, e).0, apply_edit(st, e).1).0 == st
        }),
{
    broadcast use vstd::seq_lib::group_to_multiset_ensures;
    let ts = st.tracks;
    let e = EditView::<P>::PatternData { remove: ps, add: Seq::empty() };
    lemma_delete_all_channels(ts, ps);
    lemma_delete_all_shape(ts, ps);
    crate::reverting::lemma_delete_all_located(ts, ps);
    let (ts1, del) = delete_all(ts, ps);
    assert(push_all(ts1, Seq::<LocatedEvent>::empty()) == ts1);
    lemma_sort_touched_empty(ts1);
    let (st1, inv) = apply_edit(st, e);
    assert(st1.tracks == ts1);
    let no_pos = Seq::<LocatedEvent>::empty().map_values(|x: LocatedEvent| crate::module::located_position(x));
    assert(no_pos =~= Seq::<Position>::empty());
    assert(inv == EditView::<P>::PatternData { remove: Seq::<Position>::empty(), add: del });
    assert(located_valid(ts1, del)) by {
        assert forall|i: int| 0 <= i < del.len() implies valid_channel(ts1, #[trigger] del[i].track as int, del[i].channel as int) by {
            assert(valid_channel(ts, del[i].track as int, del[i].channel as int));
        }
    }
    assert(edit_ok(st1, inv));
    assert(delete_all(ts1, Seq::<Position>::empty()) == (ts1, Seq::<LocatedEvent>::empty()));
    lemma_push_all_channels(ts1, del);
    lemma_push_all_shape(ts1, del);
    let pushed = push_all(ts1, del);
    let ts2 = sort_touched(pushed, del);
    assert(ts2.len() == ts.len());
    assert(ts2 =~= ts) by {
        assert forall|x: int| 0 <= x < ts.len() implies #[trigger] ts2[x] == ts[x] by {
            assert(ts2[x].target == ts[x].target);
            assert(ts2[x].channels.len() == ts[x].channels.len());
            assert forall|y: int| 0 <= y < ts[x].channels.len() implies #[trigger] ts2[x].channels[y] == ts[x].channels[y] by {
                assert(valid_channel(ts, x, y));
                assert(valid_channel(ts1, x, y));
                let li = located_in(del, x, y);
                lemma_touches_located_in(del, x, y);
                let joined = ts1[x].channels[y] + li;
                assert(pushed[x].channels[y] == joined);
                if li.len() > 0 {
                    // some deleted event came from this channel, which a position names
                    let f = |le: LocatedEvent| if le.track == x && le.channel == y { Some(le.event) } else { None::<Event> };
                    assert(touches(del, x, y));
                    let j = choose|j: int| 0 <= j < del.len() && del[j].track == x && del[j].channel == y;
                    let k = choose|k: int| 0 <= k < ps.len() && (#[trigger] ps[k]).track == del[j].track && ps[k].channel == del[j].channel;
                    let orig = ts[x].channels[y];
                    assert(events_strictly_sorted(orig) && ticks_valid(orig));
                    vstd::seq_lib::lemma_multiset_commutative(ts1[x].channels[y], li);
                    assert(joined.to_multiset() == orig.to_multiset());
                    assert(ticks_valid(joined)) by {
                        assert forall|m: int| 0 <= m < joined.len() implies (#[trigger] joined[m]).tick@.1 > 0 by {
                            assert(joined.to_multiset().count(joined[m]) > 0);
                            assert(orig.contains(joined[m]));
                        }
                    }
                    lemma_sort_events(joined);
                    lemma_sorted_unique(sort_events_spec(joined), orig);
                } else {
                    assert(li =~= Seq::<Event>::empty());
                    assert(joined =~= ts1[x].channels[y]);
                }
            }
            assert(ts2[x].channels =~= ts[x].channels);
        }
    }
    assert(apply_edit(st1, inv).0 =~= st);
}

/// The events of a concatenation that go into a channel are those of each
/// part.
pub(crate) proof fn lemma_located_in_append(a: Seq<LocatedEvent>, b: Seq<LocatedEvent>, x: int, y: int)
    ensures
        located_in(a + b, x, y) == located_in(a, x, y) + located_in(b, x, y),
    decreases b.len(),
{
    if b.len() == 0 {
        assert(a + b =~= a);
        assert(located_in(b, x, y) =~= Seq::<Event>::empty());
        assert(located_in(a, x, y) + located_in(b, x, y) =~= located_in(a, x, y));
    } else {
        lemma_located_in_append(a, b.drop_last(), x, y);
        assert((a + b).drop_last() =~= a + b.drop_last());
        assert((a + b).last() == b.last());
        let l = b.last();
        if l.track == x && l.channel == y {
            assert(located_in(a + b, x, y) =~= located_in(a, x, y) + located_in(b, x, y));
        } else {
            assert(located_in(a + b, x, y) =~= located_in(a, x, y) + located_in(b, x, y));
        }
    }
}

/// No event of `ts` lies at the position of any of the located events.
pub open spec fn positions_free(ts: Seq<TrackView>, adds: Seq<LocatedEvent>) -> bool {
    forall|k: int, i: int| 0 <= k < adds.len() && 0 <= i < ts[adds[k].track as int].channels[adds[k].channel as int].len() ==>
        !event_is_at(
            #[trigger] ts[adds[k].track as int].channels[adds[k].channel as int][i],
            adds[k].event.tick,
            logical_column_spec(adds[k].event.data),
        )
}

/// The events of a channel after appending located events and sorting the
/// channels they went into: those it had and those that went into it.
#[verifier::rlimit(40)]
proof fn lemma_added_channels(ts: Seq<TrackView>, adds: Seq<LocatedEvent>)
    requires
        located_valid(ts, adds),
        forall|x: int, y: int| valid_channel(ts, x, y) && touches(adds, x, y) ==> ticks_valid(#[trigger] ts[x].channels[y]),
        forall|k: int| 0 <= k < adds.len() ==> (#[trigger] adds[k]).event.tick@.1 > 0,
    ensures
        shape(sort_touched(push_all(ts, adds), adds)) == shape(ts),
        forall|x: int, y: int| valid_channel(ts, x, y) ==>
            (#[trigger] sort_touched(push_all(ts, adds), adds)[x].channels[y]).to_multiset()
                == ts[x].channels[y].to_multiset().add(located_in(adds, x, y).to_multiset()),
        forall|x: int, y: int| valid_channel(ts, x, y) && located_in(adds, x, y).len() == 0 ==>
            (#[trigger] sort_touched(push_all(ts, adds), adds)[x].channels[y]) == ts[x].channels[y],
        forall|x: int, y: int| valid_channel(ts, x, y) && located_in(adds, x, y).len() > 0 ==>
            events_sorted(#[trigger] sort_touched(push_all(ts, adds), adds)[x].channels[y]),
        forall|x: int| 0 <= x < ts.len() ==> (#[trigger] sort_touched(push_all(ts, adds), adds)[x]).target == ts[x].target,
{
    broadcast use vstd::seq_lib::group_to_multiset_ensures;
    lemma_push_all_channels(ts, adds);
    lemma_push_all_shape(ts, adds);
    let pushed = push_all(ts, adds);
    crate::reverting::lemma_sort_touched_shape(pushed, adds);
    let ts2 = sort_touched(pushed, adds);
    assert forall|x: int, y: int| valid_channel(ts, x, y) implies {
        &&& (#[trigger] ts2[x].channels[y]).to_multiset() == ts[x].channels[y].to_multiset().add(located_in(adds, x, y).to_multiset())
        &&& (located_in(adds, x, y).len() == 0 ==> ts2[x].channels[y] == ts[x].channels[y])
        &&& (located_in(adds, x, y).len() > 0 ==> events_sorted(ts2[x].channels[y]))
    } by {
        let li = located_in(adds, x, y);
        let joined = ts[x].channels[y] + li;
        assert(valid_channel(pushed, x, y));
        assert(pushed[x].channels[y] == joined);
        lemma_touches_located_in(adds, x, y);
        vstd::seq_lib::lemma_multiset_commutative(ts[x].channels[y], li);
        if li.len() > 0 {
            assert(ticks_valid(joined)) by {
                assert forall|m: int| 0 <= m < joined.len() implies (#[trigger] joined[m]).tick@.1 > 0 by {
                    if m >= ts[x].channels[y].len() {
                        let ev = joined[m];
                        assert(li[m - ts[x].channels[y].len()] == ev);
                        assert(li.contains(ev));
                        let f = |le: LocatedEvent| if le.track == x && le.channel == y { Some(le.event) } else { None::<Event> };
                        adds.lemma_filter_map_contains(f, ev);
                        let t = choose|t: LocatedEvent| #[trigger] adds.contains(t) && f(t) == Some(ev);
                        let k = choose|k: int| 0 <= k < adds.len() && adds[k] == t;
                        assert(adds[k].event.tick@.1 > 0);
                    } else {
                        assert(joined[m] == ts[x].channels[y][m]);
                    }
                }
            }
            lemma_sort_events(joined);
        } else {
            assert(li =~= Seq::<Event>::empty());
            assert(joined =~= ts[x].channels[y]);
        }
    }
}

/// Removing an event from events in (strict) order leaves them in (strict)
/// order.
proof fn lemma_remove_sorted(s: Seq<Event>, i: int)
    requires
        0 <= i < s.len(),
    ensures
        events_sorted(s) ==> events_sorted(s.remove(i)),
        events_strictly_sorted(s) ==> events_strictly_sorted(s.remove(i)),
{
    let r = s.remove(i);
    assert forall|a: int, b: int| 0 <= a < b < r.len() implies
        r[a] == s[if a < i { a } else { a + 1 }] && r[b] == s[if b < i { b } else { b + 1 }] by {}
    if events_sorted(s) {
        assert forall|a: int, b: int| 0 <= a < b < r.len() implies event_key_le(#[trigger] r[a], #[trigger] r[b]) by {
            let a2 = if a < i { a } else { a + 1 };
            let b2 = if b < i { b } else { b + 1 };
            assert(r[a] == s[a2] && r[b] == s[b2]);
        }
    }
    if events_strictly_sorted(s) {
        assert forall|a: int, b: int| 0 <= a < b < r.len() implies
            event_key_le(#[trigger] r[a], #[trigger] r[b]) && !event_key_le(r[b], r[a]) by {
            let a2 = if a < i { a } else { a + 1 };
            let b2 = if b < i { b } else { b + 1 };
            assert(r[a] == s[a2] && r[b] == s[b2]);
        }
    }
}

/// Deleting events keeps a channel in (strict) order.
proof fn lemma_delete_all_sorted(ts: Seq<TrackView>, ps: Seq<Position>, x: int, y: int)
    requires
        positions_valid(ts, ps),
        valid_channel(ts, x, y),
    ensures
        events_sorted(ts[x].channels[y]) ==> events_sorted(delete_all(ts, ps).0[x].channels[y]),
        events_strictly_sorted(ts[x].channels[y]) ==> events_strictly_sorted(delete_all(ts, ps).0[x].channels[y]),
    decreases ps.len(),
{
    if ps.len() > 0 {
        let q = ps.drop_last();
        assert(positions_valid(ts, q)) by {
            assert forall|i: int| 0 <= i < q.len() implies valid_channel(ts, #[trigger] q[i].track as int, q[i].channel as int) by {
                assert(q[i] == ps[i]);
            }
        }
        lemma_delete_all_sorted(ts, q, x, y);
        lemma_delete_all_shape(ts, q);
        let r1 = delete_all(ts, q).0;
        let p = ps.last();
        assert(ps[ps.len() - 1] == p);
        assert(valid_channel(r1, p.track as int, p.channel as int));
        let evs = r1[p.track as int].channels[p.channel as int];
        let i = first_event_at(evs, p.tick, p.column);
        lemma_first_event_at_result(evs, p.tick, p.column);
        if i >= 0 && p.track == x && p.channel == y {
            lemma_remove_sorted(evs, i);
        }
    }
}

/// In events in strict order of position, no two are at one position.
proof fn lemma_strict_at_unique(s: Seq<Event>, i: int, j: int, tick: crate::timespan::Timespan, column: u8)
    requires
        events_strictly_sorted(s),
        0 <= i < s.len(),
        0 <= j < s.len(),
        event_is_at(s[i], tick, column),
        event_is_at(s[j], tick, column),
    ensures
        i == j,
{
    assert(event_key_le(s[i], s[j]) && event_key_le(s[j], s[i]));
}

/// No event occurs twice among events in strict order of position.
proof fn lemma_strict_once(s: Seq<Event>)
    requires
        events_strictly_sorted(s),
    ensures
        forall|v: Event| s.to_multiset().count(v) <= 1,
{
    broadcast use vstd::multiset::group_multiset_axioms;
    assert(s.no_duplicates()) by {
        assert forall|i: int, j: int| 0 <= i < s.len() && 0 <= j < s.len() && i != j implies s[i] != s[j] by {
            if s[i] == s[j] {
                lemma_strict_at_unique(s, i, j, s[i].tick, logical_column_spec(s[i].data));
            }
        }
    }
    s.lemma_multiset_has_no_duplicates();
    assert forall|v: Event| s.to_multiset().count(v) <= 1 by {
        if s.to_multiset().count(v) > 0 {
            assert(s.to_multiset().contains(v));
        }
    }
}

/// Some position of `ps` is in channel `(x, y)`.
pub open spec fn names_channel(ps: Seq<Position>, x: int, y: int) -> bool {
    exists|k: int| 0 <= k < ps.len() && (#[trigger] ps[k]).track == x && ps[k].channel == y
}

/// Deleting at positions leaves a channel that none of them names as it
/// was, and deletes nothing from it.
proof fn lemma_unnamed_untouched(ts: Seq<TrackView>, ps: Seq<Position>, x: int, y: int)
    requires
        positions_valid(ts, ps),
        valid_channel(ts, x, y),
        !names_channel(ps, x, y),
    ensures
        located_in(delete_all(ts, ps).1, x, y).len() == 0,
        delete_all(ts, ps).0[x].channels[y] == ts[x].channels[y],
{
    lemma_delete_all_channels(ts, ps);
    let del = delete_all(ts, ps).1;
    let li = located_in(del, x, y);
    if li.len() > 0 {
        let f = |le: LocatedEvent| if le.track == x && le.channel == y { Some(le.event) } else { None::<Event> };
        assert(li.contains(li[0]));
        del.lemma_filter_map_contains(f, li[0]);
        let t = choose|t: LocatedEvent| #[trigger] del.contains(t) && f(t) == Some(li[0]);
        let j = choose|j: int| 0 <= j < del.len() && del[j] == t;
        let k = choose|k: int| 0 <= k < ps.len() && (#[trigger] ps[k]).track == (#[trigger] del[j]).track && ps[k].channel == del[j].channel;
        assert(ps[k].track == x && ps[k].channel == y);
    }
}

/// Deleting, in order, at the positions of the first `k` events that a
/// deletion from channels in strict order removed deletes exactly those
/// events again.
#[verifier::rlimit(80)]
proof fn lemma_delete_deleted(ts: Seq<TrackView>, ps: Seq<Position>, k: int)
    requires
        positions_valid(ts, ps),
        forall|x: int, y: int| valid_channel(ts, x, y) && names_channel(ps, x, y) ==>
            events_strictly_sorted(#[trigger] ts[x].channels[y]),
        0 <= k <= delete_all(ts, ps).1.len(),
    ensures
        delete_all(ts, delete_all(ts, ps).1.take(k).map_values(|e: LocatedEvent| located_position(e))).1
            == delete_all(ts, ps).1.take(k),
    decreases k,
{
    broadcast use vstd::seq_lib::group_to_multiset_ensures;
    broadcast use vstd::multiset::group_multiset_axioms;
    let del = delete_all(ts, ps).1;
    let qs = del.take(k).map_values(|e: LocatedEvent| located_position(e));
    if k == 0 {
        assert(qs =~= Seq::<Position>::empty());
        assert(del.take(0) =~= Seq::<LocatedEvent>::empty());
    } else {
        lemma_delete_deleted(ts, ps, k - 1);
        crate::reverting::lemma_delete_all_located(ts, ps);
        lemma_delete_all_channels(ts, ps);
        let q = qs.drop_last();
        assert(q =~= del.take(k - 1).map_values(|e: LocatedEvent| located_position(e)));
        assert(positions_valid(ts, q)) by {
            assert forall|i: int| 0 <= i < q.len() implies valid_channel(ts, #[trigger] q[i].track as int, q[i].channel as int) by {
                assert(q[i] == located_position(del[i]));
                assert(valid_channel(ts, del[i].track as int, del[i].channel as int));
            }
        }
        lemma_delete_all_channels(ts, q);
        let (r1, acc) = delete_all(ts, q);
        assert(acc == del.take(k - 1));
        let a = del[k - 1];
        let p = qs.last();
        assert(p == located_position(a));
        let x = a.track as int;
        let y = a.channel as int;
        assert(valid_channel(ts, x, y));
        assert(names_channel(ps, x, y)) by {
            let kk = choose|kk: int| 0 <= kk < ps.len() && (#[trigger] ps[kk]).track == (#[trigger] del[k - 1]).track
                && ps[kk].channel == del[k - 1].channel;
        }
        let c0 = ts[x].channels[y];
        let evs = r1[x].channels[y];
        let lk = located_in(del.take(k - 1), x, y);
        let rest = del.skip(k - 1);
        assert(evs.to_multiset().add(lk.to_multiset()) == c0.to_multiset());
        lemma_strict_once(c0);
        let f = |le: LocatedEvent| if le.track == x && le.channel == y { Some(le.event) } else { None::<Event> };
        assert(del.take(k - 1) + rest =~= del);
        lemma_located_in_append(del.take(k - 1), rest, x, y);
        assert(rest[0] == a);
        lemma_filter_map_has(rest, f, 0);
        let lr = located_in(rest, x, y);
        assert(lr.to_multiset().count(a.event) > 0);
        let ld = located_in(del, x, y);
        vstd::seq_lib::lemma_multiset_commutative(lk, lr);
        assert(ld.to_multiset() == lk.to_multiset().add(lr.to_multiset()));
        let m1 = delete_all(ts, ps).0[x].channels[y].to_multiset();
        assert(m1.add(ld.to_multiset()) == c0.to_multiset());
        assert(c0.to_multiset().count(a.event) >= ld.to_multiset().count(a.event));
        assert(c0.to_multiset().count(a.event) > 0);
        assert(c0.to_multiset().count(a.event) == 1);
        assert(lk.to_multiset().count(a.event) == 0);
        assert(evs.to_multiset().count(a.event) > 0);
        assert(c0.contains(a.event));
        let ia = choose|ia: int| 0 <= ia < c0.len() && c0[ia] == a.event;
        // and it is the only event at its position
        assert forall|m: int| 0 <= m < evs.len() && event_is_at(#[trigger] evs[m], p.tick, p.column) implies evs[m] == a.event by {
            let ev = evs[m];
            assert(evs.to_multiset().count(ev) > 0);
            assert(c0.to_multiset().count(ev) > 0);
            assert(c0.contains(ev));
            let im = choose|im: int| 0 <= im < c0.len() && c0[im] == ev;
            lemma_strict_at_unique(c0, im, ia, p.tick, p.column);
        }
        let i = first_event_at(evs, p.tick, p.column);
        lemma_first_event_at_result(evs, p.tick, p.column);
        if i < 0 {
            assert(evs.contains(a.event));
            let m = choose|m: int| 0 <= m < evs.len() && evs[m] == a.event;
            assert(event_is_at(evs[m], p.tick, p.column));
        }
        assert(evs[i] == a.event);
        assert(del.take(k) =~= del.take(k - 1).push(LocatedEvent { track: p.track, channel: p.channel, event: evs[i] }));
    }
}

/// The events that located events put into a channel have valid ticks
/// where theirs are.
proof fn lemma_located_ticks(adds: Seq<LocatedEvent>, x: int, y: int)
    requires
        forall|k: int| 0 <= k < adds.len() ==> (#[trigger] adds[k]).event.tick@.1 > 0,
    ensures
        ticks_valid(located_in(adds, x, y)),
{
    let li = located_in(adds, x, y);
    assert forall|m: int| 0 <= m < li.len() implies (#[trigger] li[m]).tick@.1 > 0 by {
        let ev = li[m];
        assert(li.contains(ev));
        let f = |le: LocatedEvent| if le.track == x && le.channel == y { Some(le.event) } else { None::<Event> };
        adds.lemma_filter_map_contains(f, ev);
        let t = choose|t: LocatedEvent| #[trigger] adds.contains(t) && f(t) == Some(ev);
        let k = choose|k: int| 0 <= k < adds.len() && adds[k] == t;
        assert(adds[k].event.tick@.1 > 0);
    }
}

/// The events that a single located event puts into a channel.
proof fn lemma_located_in_single(a: LocatedEvent, x: int, y: int)
    ensures
        located_in(seq![a], x, y) == if a.track == x && a.channel == y { seq![a.event] } else { Seq::<Event>::empty() },
{
    assert(seq![a].drop_last() =~= Seq::<LocatedEvent>::empty());
    assert(located_in(Seq::<LocatedEvent>::empty(), x, y) =~= Seq::<Event>::empty());
    assert(seq![a].last() == a);
    if a.track == x && a.channel == y {
        assert(located_in(seq![a], x, y) =~= seq![a.event]);
    } else {
        assert(located_in(seq![a], x, y) =~= Seq::<Event>::empty());
    }
}

/// Deleting, in order, at the positions of the first `k` of some located
/// events that were added to tracks where no event was at their positions
/// deletes exactly those events, in order; at every position where the
/// tracks had no event, each channel then holds the events still to be
/// deleted there, in the order they were added (sorting is stable).
#[verifier::rlimit(40)]
proof fn lemma_delete_added(ts: Seq<TrackView>, adds: Seq<LocatedEvent>, k: int)
    requires
        located_valid(ts, adds),
        forall|x: int, y: int| valid_channel(ts, x, y) && touches(adds, x, y) ==> ticks_valid(#[trigger] ts[x].channels[y]),
        forall|j: int| 0 <= j < adds.len() ==> (#[trigger] adds[j]).event.tick@.1 > 0,
        positions_free(ts, adds),
        0 <= k <= adds.len(),
    ensures
        ({
            let ts2 = sort_touched(push_all(ts, adds), adds);
            let qs = adds.take(k).map_values(|e: LocatedEvent| located_position(e));
            let (cur, del) = delete_all(ts2, qs);
            &&& del == adds.take(k)
            &&& forall|x: int, y: int, tick: Timespan, column: u8|
                valid_channel(ts, x, y) && events_at(ts[x].channels[y], tick, column).len() == 0 ==>
                #[trigger] events_at(cur[x].channels[y], tick, column)
                    == events_at(located_in(adds.skip(k), x, y), tick, column)
        }),
    decreases k,
{
    let ts2 = sort_touched(push_all(ts, adds), adds);
    let qs = adds.take(k).map_values(|e: LocatedEvent| located_position(e));
    lemma_push_all_channels(ts, adds);
    lemma_push_all_shape(ts, adds);
    lemma_added_channels(ts, adds);
    assert forall|x: int, y: int| valid_channel(ts2, x, y) <==> valid_channel(ts, x, y) by {
        if 0 <= x < ts.len() {
            assert(shape(ts2)[x] == shape(ts)[x]);
        }
    }
    if k == 0 {
        assert(qs =~= Seq::<Position>::empty());
        assert(adds.take(0) =~= Seq::<LocatedEvent>::empty());
        assert(adds.skip(0) =~= adds);
        assert forall|x: int, y: int, tick: Timespan, column: u8|
            valid_channel(ts, x, y) && events_at(ts[x].channels[y], tick, column).len() == 0 implies
            #[trigger] events_at(delete_all(ts2, qs).0[x].channels[y], tick, column)
                == events_at(located_in(adds.skip(0), x, y), tick, column) by {
            let c = ts[x].channels[y];
            let la = located_in(adds, x, y);
            lemma_touches_located_in(adds, x, y);
            lemma_events_at_append(c, la, tick, column);
            assert(events_at(c, tick, column) =~= Seq::<Event>::empty());
            if la.len() > 0 {
                lemma_located_ticks(adds, x, y);
                assert(ticks_valid(c + la)) by {
                    assert forall|m: int| 0 <= m < (c + la).len() implies (#[trigger] (c + la)[m]).tick@.1 > 0 by {
                        if m < c.len() {
                            assert((c + la)[m] == c[m]);
                        } else {
                            assert((c + la)[m] == la[m - c.len()]);
                        }
                    }
                }
                assert(ts2[x].channels[y] == sort_events_spec(c + la));
                lemma_sort_stable(c + la, tick, column);
            } else {
                assert(la =~= Seq::<Event>::empty());
                assert(c + la =~= c);
            }
            assert(events_at(c + la, tick, column) =~= events_at(la, tick, column));
        }
    } else {
        lemma_delete_added(ts, adds, k - 1);
        let q = qs.drop_last();
        assert(q =~= adds.take(k - 1).map_values(|e: LocatedEvent| located_position(e)));
        assert(positions_valid(ts2, qs)) by {
            assert forall|i: int| 0 <= i < qs.len() implies valid_channel(ts2, #[trigger] qs[i].track as int, qs[i].channel as int) by {
                assert(qs[i] == located_position(adds[i]));
                assert(valid_channel(ts, adds[i].track as int, adds[i].channel as int));
            }
        }
        assert(positions_valid(ts2, q)) by {
            assert forall|i: int| 0 <= i < q.len() implies valid_channel(ts2, #[trigger] q[i].track as int, q[i].channel as int) by {
                assert(q[i] == qs[i]);
            }
        }
        lemma_delete_all_shape(ts2, q);
        let (cur0, acc) = delete_all(ts2, q);
        assert(acc == adds.take(k - 1));
        let a = adds[k - 1];
        let p = qs.last();
        assert(p == located_position(a));
        let x = a.track as int;
        let y = a.channel as int;
        let tk = a.event.tick;
        let col = logical_column_spec(a.event.data);
        assert(valid_channel(ts, x, y));
        assert(valid_channel(cur0, x, y));
        let evs = cur0[x].channels[y];
        // nothing was at the position before the addition
        assert forall|j: int| 0 <= j < ts[x].channels[y].len() implies !event_is_at(#[trigger] ts[x].channels[y][j], tk, col) by {
            assert(!event_is_at(ts[adds[k - 1].track as int].channels[adds[k - 1].channel as int][j],
                adds[k - 1].event.tick, logical_column_spec(adds[k - 1].event.data)));
        }
        lemma_events_at_none(ts[x].channels[y], tk, col);
        // the events still to delete start with this one
        let r0 = adds.skip(k - 1);
        let r1 = adds.skip(k);
        assert(r0 =~= seq![a] + r1);
        assert forall|x2: int, y2: int| #[trigger] located_in(r0, x2, y2) == located_in(seq![a], x2, y2) + located_in(r1, x2, y2) by {
            lemma_located_in_append(seq![a], r1, x2, y2);
        }
        lemma_located_in_single(a, x, y);
        lemma_events_at_append(seq![a.event], located_in(r1, x, y), tk, col);
        assert(seq![a.event].drop_last() =~= Seq::<Event>::empty());
        assert(events_at(Seq::<Event>::empty(), tk, col) =~= Seq::<Event>::empty());
        assert(events_at(seq![a.event], tk, col) =~= seq![a.event]);
        assert(events_at(evs, tk, col) == seq![a.event] + events_at(located_in(r1, x, y), tk, col));
        lemma_first_event_listed(evs, tk, col);
        let i = first_event_at(evs, tk, col);
        assert(evs[i] == a.event);
        let (cur, del) = delete_all(ts2, qs);
        assert(del == acc.push(LocatedEvent { track: p.track, channel: p.channel, event: evs[i] }));
        assert(adds.take(k) =~= adds.take(k - 1).push(a));
        assert(cur == set_channel(cur0, x, y, evs.remove(i)));
        lemma_events_at_remove(evs, i, tk, col);
        assert forall|x2: int, y2: int, tick: Timespan, column: u8|
            valid_channel(ts, x2, y2) && events_at(ts[x2].channels[y2], tick, column).len() == 0 implies
            #[trigger] events_at(cur[x2].channels[y2], tick, column)
                == events_at(located_in(adds.skip(k), x2, y2), tick, column) by {
            assert(valid_channel(cur0, x2, y2));
            lemma_located_in_single(a, x2, y2);
            assert(events_at(cur0[x2].channels[y2], tick, column)
                == events_at(located_in(r0, x2, y2), tick, column));
            if x2 == x && y2 == y {
                assert(cur[x2].channels[y2] == evs.remove(i));
                lemma_events_at_remove(evs, i, tick, column);
                lemma_events_at_append(seq![a.event], located_in(r1, x, y), tick, column);
                if tick == tk && column == col {
                    assert((seq![a.event] + events_at(located_in(r1, x, y), tk, col)).skip(1)
                        =~= events_at(located_in(r1, x, y), tk, col));
                } else {
                    assert(!event_is_at(a.event, tick, column));
                    assert(events_at(Seq::<Event>::empty(), tick, column) =~= Seq::<Event>::empty());
                    assert(seq![a.event].last() == a.event);
                    assert(events_at(seq![a.event], tick, column) =~= Seq::<Event>::empty());
                    assert(Seq::<Event>::empty() + events_at(located_in(r1, x, y), tick, column)
                        =~= events_at(located_in(r1, x, y), tick, column));
                }
            } else {
                assert(cur[x2].channels[y2] == cur0[x2].channels[y2]);
                assert(Seq::<Event>::empty() + located_in(r1, x2, y2) =~= located_in(r1, x2, y2));
            }
        }
    }
}

/// An element that `f` maps to a value puts that value in `filter_map`.
proof fn lemma_filter_map_has(s: Seq<LocatedEvent>, f: spec_fn(LocatedEvent) -> Option<Event>, j: int)
    requires
        0 <= j < s.len(),
        f(s[j]) is Some,
    ensures
        s.filter_map(f).contains(f(s[j])->0),
    decreases s.len(),
{
    let r = s.drop_last();
    if j == s.len() - 1 {
        assert(s.filter_map(f) == r.filter_map(f) + seq![f(s[j])->0]);
        assert(s.filter_map(f)[r.filter_map(f).len() as int] == f(s[j])->0);
    } else {
        assert(r[j] == s[j]);
        lemma_filter_map_has(r, f, j);
        let m = choose|m: int| 0 <= m < r.filter_map(f).len() && r.filter_map(f)[m] == f(s[j])->0;
        match f(s.last()) {
            Some(v) => {
                assert(s.filter_map(f) == r.filter_map(f) + seq![v]);
                assert(s.filter_map(f)[m] == r.filter_map(f)[m]);
            },
            None => {},
        }
    }
}

/// A channel that the positions name, in strict order, is left by the second
/// deletion as the first left it.
#[verifier::rlimit(40)]
proof fn lemma_delete_again_channel(ts: Seq<TrackView>, ps: Seq<Position>, x: int, y: int)
    requires
        positions_valid(ts, ps),
        valid_channel(ts, x, y),
        events_strictly_sorted(ts[x].channels[y]),
        ticks_valid(ts[x].channels[y]),
        forall|x2: int, y2: int| valid_channel(ts, x2, y2) && names_channel(ps, x2, y2) ==>
            events_strictly_sorted(#[trigger] ts[x2].channels[y2]),
    ensures
        delete_all(ts, delete_all(ts, ps).1.map_values(|a: LocatedEvent| located_position(a))).0[x].channels[y]
            == delete_all(ts, ps).0[x].channels[y],
{
    broadcast use vstd::seq_lib::group_to_multiset_ensures;
    broadcast use vstd::multiset::group_multiset_axioms;
    let (ts1, del) = delete_all(ts, ps);
    let dq = del.map_values(|a: LocatedEvent| located_position(a));
    lemma_delete_deleted(ts, ps, del.len() as int);
    assert(del.take(del.len() as int) =~= del);
    crate::reverting::lemma_delete_all_located(ts, ps);
    lemma_delete_all_channels(ts, ps);
    assert(positions_valid(ts, dq)) by {
        assert forall|i: int| 0 <= i < dq.len() implies valid_channel(ts, #[trigger] dq[i].track as int, dq[i].channel as int) by {
            assert(valid_channel(ts, del[i].track as int, del[i].channel as int));
        }
    }
    lemma_delete_all_channels(ts, dq);
    let ts5 = delete_all(ts, dq).0;
    let c0 = ts[x].channels[y];
    let c1 = ts1[x].channels[y];
    let c5 = ts5[x].channels[y];
    let ld = located_in(del, x, y).to_multiset();
    assert(c5.to_multiset() =~= c1.to_multiset()) by {
        assert forall|v: Event| c5.to_multiset().count(v) == c1.to_multiset().count(v) by {
            assert(c5.to_multiset().add(ld).count(v) == c5.to_multiset().count(v) + ld.count(v));
            assert(c1.to_multiset().add(ld).count(v) == c1.to_multiset().count(v) + ld.count(v));
        }
    }
    lemma_delete_all_sorted(ts, dq, x, y);
    lemma_delete_all_sorted(ts, ps, x, y);
    assert(events_sorted(c0)) by {
        assert forall|i: int, j: int| 0 <= i < j < c0.len() implies event_key_le(#[trigger] c0[i], #[trigger] c0[j]) by {}
    }
    assert(ticks_valid(c1)) by {
        assert forall|m: int| 0 <= m < c1.len() implies (#[trigger] c1[m]).tick@.1 > 0 by {
            assert(c1.to_multiset().count(c1[m]) > 0);
            assert(c0.to_multiset().count(c1[m]) > 0);
            assert(c0.contains(c1[m]));
        }
    }
    lemma_sorted_unique(c5, c1);
}

/// Deleting at the positions of the events that a deletion from channels
/// in strict order removed gives the same tracks again.
#[verifier::rlimit(40)]
proof fn lemma_delete_again(ts: Seq<TrackView>, ps: Seq<Position>)
    requires
        positions_valid(ts, ps),
        forall|x: int, y: int| valid_channel(ts, x, y) && names_channel(ps, x, y) ==>
            events_strictly_sorted(#[trigger] ts[x].channels[y]) && ticks_valid(ts[x].channels[y]),
    ensures
        delete_all(ts, delete_all(ts, ps).1.map_values(|a: LocatedEvent| located_position(a))).0 == delete_all(ts, ps).0,
{
    broadcast use vstd::seq_lib::group_to_multiset_ensures;
    broadcast use vstd::multiset::group_multiset_axioms;
    let (ts1, del) = delete_all(ts, ps);
    let dq = del.map_values(|a: LocatedEvent| located_position(a));
    lemma_delete_deleted(ts, ps, del.len() as int);
    assert(del.take(del.len() as int) =~= del);
    crate::reverting::lemma_delete_all_located(ts, ps);
    lemma_delete_all_channels(ts, ps);
    lemma_delete_all_shape(ts, ps);
    assert(positions_valid(ts, dq)) by {
        assert forall|i: int| 0 <= i < dq.len() implies valid_channel(ts, #[trigger] dq[i].track as int, dq[i].channel as int) by {
            assert(valid_channel(ts, del[i].track as int, del[i].channel as int));
        }
    }
    lemma_delete_all_channels(ts, dq);
    lemma_delete_all_shape(ts, dq);
    let ts5 = delete_all(ts, dq).0;
    assert(shape(ts5).len() == ts5.len() && shape(ts1).len() == ts1.len() && shape(ts).len() == ts.len());
    assert(ts5 =~= ts1) by {
        assert forall|x: int| 0 <= x < ts.len() implies #[trigger] ts5[x] == ts1[x] by {
            assert(shape(ts5)[x] == shape(ts)[x] && shape(ts1)[x] == shape(ts)[x]);
            assert forall|y: int| 0 <= y < ts[x].channels.len() implies #[trigger] ts5[x].channels[y] == ts1[x].channels[y] by {
                assert(valid_channel(ts, x, y));
                let c0 = ts[x].channels[y];
                let c1 = ts1[x].channels[y];
                let c5 = ts5[x].channels[y];
                if !names_channel(ps, x, y) {
                    lemma_unnamed_untouched(ts, ps, x, y);
                    assert(!names_channel(dq, x, y)) by {
                        if names_channel(dq, x, y) {
                            let k = choose|k: int| 0 <= k < dq.len() && (#[trigger] dq[k]).track == x && dq[k].channel == y;
                            let kk = choose|kk: int| 0 <= kk < ps.len() && (#[trigger] ps[kk]).track == (#[trigger] del[k]).track
                                && ps[kk].channel == del[k].channel;
                        }
                    }
                    lemma_unnamed_untouched(ts, dq, x, y);
                } else {
                    lemma_delete_again_channel(ts, ps, x, y);
                }
            }
            assert(ts5[x].channels =~= ts1[x].channels);
        }
    }
}

/// Channel `(x, y)` is named by a position of `ps` or receives an event of
/// `adds`.
pub open spec fn pattern_touches(ps: Seq<Position>, adds: Seq<LocatedEvent>, x: int, y: int) -> bool {
    names_channel(ps, x, y) || touches(adds, x, y)
}

/// The tracks that undoing a pattern data edit gives (see
/// `lemma_pattern_data_reverted`) give back those before the edit.
#[verifier::rlimit(60)]
proof fn lemma_pattern_data_undone(ts: Seq<TrackView>, ps: Seq<Position>, adds: Seq<LocatedEvent>)
    requires
        positions_valid(ts, ps),
        located_valid(ts, adds),
        forall|x: int, y: int| valid_channel(ts, x, y) && pattern_touches(ps, adds, x, y) ==>
            ticks_valid(#[trigger] ts[x].channels[y]),
        forall|k: int| 0 <= k < adds.len() ==> (#[trigger] adds[k]).event.tick@.1 > 0,
        positions_free(delete_all(ts, ps).0, adds),
    ensures
        ({
            let (ts1, del) = delete_all(ts, ps);
            let ts2 = sort_touched(push_all(ts1, adds), adds);
            let qs = adds.map_values(|a: LocatedEvent| located_position(a));
            let ts3 = delete_all(ts2, qs).0;
            &&& located_valid(ts1, adds)
            &&& positions_valid(ts2, qs)
            &&& located_valid(ts2, del)
            &&& delete_all(ts2, qs).1 == adds
            &&& tracks_restored(ts, sort_touched(push_all(ts3, del), del), |x: int, y: int| pattern_touches(ps, adds, x, y))
            &&& forall|x: int, y: int| valid_channel(ts1, x, y) && touches(adds, x, y) ==> ticks_valid(#[trigger] ts1[x].channels[y])
        }),
{
    broadcast use vstd::seq_lib::group_to_multiset_ensures;
    broadcast use vstd::multiset::group_multiset_axioms;
    lemma_delete_all_channels(ts, ps);
    lemma_delete_all_shape(ts, ps);
    crate::reverting::lemma_delete_all_located(ts, ps);
    let (ts1, del) = delete_all(ts, ps);
    assert(located_valid(ts1, adds)) by {
        assert forall|i: int| 0 <= i < adds.len() implies valid_channel(ts1, #[trigger] adds[i].track as int, adds[i].channel as int) by {
            assert(valid_channel(ts, adds[i].track as int, adds[i].channel as int));
        }
    }
    assert forall|x: int, y: int| valid_channel(ts1, x, y) && touches(adds, x, y) implies ticks_valid(#[trigger] ts1[x].channels[y]) by {
        assert(valid_channel(ts, x, y));
        assert(pattern_touches(ps, adds, x, y));
        let c1 = ts1[x].channels[y];
        let c0 = ts[x].channels[y];
        assert forall|m: int| 0 <= m < c1.len() implies (#[trigger] c1[m]).tick@.1 > 0 by {
            assert(c1.to_multiset().count(c1[m]) > 0);
            assert(c0.to_multiset().count(c1[m]) > 0);
            assert(c0.contains(c1[m]));
        }
    }
    lemma_added_channels(ts1, adds);
    lemma_push_all_shape(ts1, adds);
    crate::reverting::lemma_sort_touched_shape(push_all(ts1, adds), adds);
    let ts2 = sort_touched(push_all(ts1, adds), adds);
    let qs = adds.map_values(|a: LocatedEvent| located_position(a));
    lemma_delete_added(ts1, adds, adds.len() as int);
    assert(adds.take(adds.len() as int) =~= adds);
    assert(positions_valid(ts2, qs)) by {
        assert forall|i: int| 0 <= i < qs.len() implies valid_channel(ts2, #[trigger] qs[i].track as int, qs[i].channel as int) by {
            assert(valid_channel(ts1, adds[i].track as int, adds[i].channel as int));
        }
    }
    assert(located_valid(ts2, del)) by {
        assert forall|i: int| 0 <= i < del.len() implies valid_channel(ts2, #[trigger] del[i].track as int, del[i].channel as int) by {
            assert(valid_channel(ts, del[i].track as int, del[i].channel as int));
        }
    }
    lemma_delete_all_channels(ts2, qs);
    lemma_delete_all_shape(ts2, qs);
    let (ts3, del2) = delete_all(ts2, qs);
    assert(located_valid(ts3, del)) by {
        assert forall|i: int| 0 <= i < del.len() implies valid_channel(ts3, #[trigger] del[i].track as int, del[i].channel as int) by {
            assert(valid_channel(ts, del[i].track as int, del[i].channel as int));
        }
    }
    lemma_push_all_channels(ts3, del);
    lemma_push_all_shape(ts3, del);
    let pushed = push_all(ts3, del);
    let ts4 = sort_touched(pushed, del);
    crate::reverting::lemma_sort_touched_shape(pushed, del);
    assert(shape(ts4).len() == ts4.len() && shape(pushed).len() == pushed.len());
    assert(shape(ts3).len() == ts3.len() && shape(ts2).len() == ts2.len());
    assert(shape(ts1).len() == ts1.len() && shape(ts).len() == ts.len());
    assert(ts4.len() == ts.len());
    let touched = |x: int, y: int| pattern_touches(ps, adds, x, y);
    assert forall|x: int| 0 <= x < ts.len() implies (#[trigger] ts4[x]).target == ts[x].target
        && ts4[x].channels.len() == ts[x].channels.len() by {
        assert(ts4[x].target == pushed[x].target);
        assert(pushed[x].target == ts3[x].target);
        assert(ts3[x].target == ts2[x].target);
        assert(ts2[x].target == ts1[x].target);
        assert(shape(ts4)[x] == shape(ts)[x]);
    }
    assert forall|x: int, y: int| valid_channel(ts, x, y) implies
        (#[trigger] ts4[x].channels[y]).to_multiset() == ts[x].channels[y].to_multiset()
        && (ts4[x].channels[y] == ts[x].channels[y] || (touched(x, y) && events_sorted(ts4[x].channels[y]))) by {
        assert(valid_channel(ts1, x, y));
        assert(valid_channel(ts2, x, y));
        assert(valid_channel(ts3, x, y));
        let c0 = ts[x].channels[y];
        let c1 = ts1[x].channels[y];
        let c3 = ts3[x].channels[y];
        let ld = located_in(del, x, y);
        let la = located_in(adds, x, y);
        assert(c3.to_multiset() =~= c1.to_multiset()) by {
            let m3 = c3.to_multiset();
            let m1 = c1.to_multiset();
            let ml = la.to_multiset();
            assert(m3.add(ml) == ts2[x].channels[y].to_multiset());
            assert(ts2[x].channels[y].to_multiset() == m1.add(ml));
            assert forall|v: Event| m3.count(v) == m1.count(v) by {
                assert(m3.add(ml).count(v) == m3.count(v) + ml.count(v));
                assert(m1.add(ml).count(v) == m1.count(v) + ml.count(v));
            }
        }
        lemma_touches_located_in(del, x, y);
        lemma_touches_located_in(adds, x, y);
        let joined = c3 + ld;
        assert(pushed[x].channels[y] == joined);
        vstd::seq_lib::lemma_multiset_commutative(c3, ld);
        assert(joined.to_multiset() == c0.to_multiset());
        if ld.len() > 0 {
            assert(names_channel(ps, x, y)) by {
                if !names_channel(ps, x, y) {
                    lemma_unnamed_untouched(ts, ps, x, y);
                }
            }
            assert(touched(x, y));
            assert(ticks_valid(joined)) by {
                assert forall|m: int| 0 <= m < joined.len() implies (#[trigger] joined[m]).tick@.1 > 0 by {
                    assert(joined.to_multiset().count(joined[m]) > 0);
                    assert(c0.contains(joined[m]));
                }
            }
            lemma_sort_events(joined);
        } else {
            assert(ld =~= Seq::<Event>::empty());
            assert(joined =~= c3);
            assert(c1 == c0);
            if la.len() > 0 {
                assert(touched(x, y));
                lemma_delete_all_sorted(ts2, qs, x, y);
            } else {
                assert(!names_channel(qs, x, y)) by {
                    if names_channel(qs, x, y) {
                        let k = choose|k: int| 0 <= k < qs.len() && (#[trigger] qs[k]).track == x && qs[k].channel == y;
                        assert(qs[k] == located_position(adds[k]));
                        assert(touches(adds, x, y));
                    }
                }
                lemma_unnamed_untouched(ts2, qs, x, y);
            }
        }
    }
    assert(tracks_restored(ts, ts4, touched));
}

/// Deleting the first event at each of some positions and adding located
/// events, where the channels they touch have valid ticks, the added events
/// have valid ticks, and no event is left at their positions once the
/// deletion is done, is undone: the undo edit applies and gives back the
/// kit, the patches, every untouched channel, and every touched channel
/// with the same events (in order where it differs). Where the touched
/// channels hold events in strict order of position, the undo gives back
/// the state exactly, and the inverse of the undo does to that state what
/// the edit did, so that a redo after the undo repeats the edit.
pub proof fn lemma_pattern_data_reverted<P>(st: ModuleState<P>, ps: Seq<Position>, adds: Seq<LocatedEvent>)
    requires
        positions_valid(st.tracks, ps),
        located_valid(st.tracks, adds),
        forall|x: int, y: int| valid_channel(st.tracks, x, y) && pattern_touches(ps, adds, x, y) ==>
            ticks_valid(#[trigger] st.tracks[x].channels[y]),
        forall|k: int| 0 <= k < adds.len() ==> (#[trigger] adds[k]).event.tick@.1 > 0,
        positions_free(delete_all(st.tracks, ps).0, adds),
    ensures
        ({
            let e = EditView::<P>::PatternData { remove: ps, add: adds };
            let st2 = apply_edit(apply_edit(st, e).0, apply_edit(st, e).1).0;
            &&& edit_ok(st, e)
            &&& edit_ok(apply_edit(st, e).0, apply_edit(st, e).1)
            &&& st2.kit == st.kit
            &&& st2.patches == st.patches
            &&& tracks_restored(st.tracks, st2.tracks, |x: int, y: int| pattern_touches(ps, adds, x, y))
            &&& (forall|x: int, y: int| valid_channel(st.tracks, x, y) && pattern_touches(ps, adds, x, y) ==>
                    events_strictly_sorted(#[trigger] st.tracks[x].channels[y])) ==> {
                &&& st2 == st
                &&& apply_edit(st, apply_edit(apply_edit(st, e).0, apply_edit(st, e).1).1).0 == apply_edit(st, e).0
            }
        }),
{
    let ts = st.tracks;
    let e = EditView::<P>::PatternData { remove: ps, add: adds };
    lemma_pattern_data_undone(ts, ps, adds);
    let (ts1, del) = delete_all(ts, ps);
    let ts2 = sort_touched(push_all(ts1, adds), adds);
    let qs = adds.map_values(|a: LocatedEvent| located_position(a));
    let (ts3, del2) = delete_all(ts2, qs);
    let (st1, inv) = apply_edit(st, e);
    assert(st1.tracks == ts2);
    assert(inv == EditView::<P>::PatternData { remove: qs, add: del });
    assert(edit_ok(st1, inv));
    let st2 = apply_edit(st1, inv).0;
    let touched = |x: int, y: int| pattern_touches(ps, adds, x, y);
    if forall|x: int, y: int| valid_channel(ts, x, y) && pattern_touches(ps, adds, x, y) ==>
        events_strictly_sorted(#[trigger] ts[x].channels[y]) {
        lemma_restored_exact(ts, st2.tracks, touched);
        assert(st2 =~= st);
        // the redo deletes the same events again and adds the same events
        assert(del2 == adds);
        let again = apply_edit(st1, inv).1;
        let dq = del.map_values(|a: LocatedEvent| located_position(a));
        assert(again == EditView::<P>::PatternData { remove: dq, add: adds });
        lemma_delete_again(ts, ps);
        assert(apply_edit(st, again).0 =~= st1);
    }
}

} // verus!
