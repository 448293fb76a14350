//! Shifting events later or earlier and undoing the shift gives back the events.

use vstd::prelude::*;

verus! {

use crate::timespan::{Timespan, is_reduced, less_value, same_value, add_view, add_ok, neg_view, lcm_den, lemma_le_trans};
use crate::arithmetic::{lemma_add_exact, lemma_add_round_trip};
use crate::module::{
    Event, EditView, ModuleState, TrackView, zero_view, kept_on_shift, shift_kept, shift_deleted, shift_ok, shifted_event,
    shifted_tick, shift_all, shift_all_ok, valid_channel, set_channel, apply_edit, edit_ok, push_all, sort_touched,
    located_valid, lemma_sort_touched_empty, LocatedEvent, shape, sort_events_spec, event_key_le,
};
use crate::ordering::{ticks_valid, events_sorted, lemma_sort_events};
use crate::reverting::tracks_restored;
use crate::entry::events_strictly_sorted;
use crate::deleting::{located_in, lemma_located_in_append};

/// Moving the tick `t` by `d` and back again is exact: their least common
/// denominator fits in a `u8` and neither addition overflows.
pub open spec fn round_trip_ok(t: (int, int), d: (int, int)) -> bool {
    &&& lcm_den(t, d) <= 255
    &&& add_ok(t, d)
    &&& add_ok(add_view(t, d), neg_view(d))
}

/// Comparisons do not depend on which fraction stands for a value.
proof fn lemma_less_subst(x: (int, int), y: (int, int), w: (int, int))
    requires
        same_value(x, y),
        x.1 > 0,
        y.1 > 0,
        w.1 > 0,
    ensures
        less_value(x, w) == less_value(y, w),
        less_value(w, x) == less_value(w, y),
{
    let (x0, x1, y0, y1, w0, w1) = (x.0, x.1, y.0, y.1, w.0, w.1);
    assert(less_value(x, w) ==> less_value(y, w)) by (nonlinear_arith)
        requires
            x0 * y1 == y0 * x1,
            x1 > 0,
            y1 > 0,
            w1 > 0,
            less_value(x, w) ==> x0 * w1 < w0 * x1,
            less_value(y, w) <== y0 * w1 < w0 * y1,
    ;
    assert(less_value(y, w) ==> less_value(x, w)) by (nonlinear_arith)
        requires
            x0 * y1 == y0 * x1,
            x1 > 0,
            y1 > 0,
            w1 > 0,
            less_value(y, w) ==> y0 * w1 < w0 * y1,
            less_value(x, w) <== x0 * w1 < w0 * x1,
    ;
    assert(less_value(w, x) ==> less_value(w, y)) by (nonlinear_arith)
        requires
            x0 * y1 == y0 * x1,
            x1 > 0,
            y1 > 0,
            w1 > 0,
            less_value(w, x) ==> w0 * x1 < x0 * w1,
            less_value(w, y) <== w0 * y1 < y0 * w1,
    ;
    assert(less_value(w, y) ==> less_value(w, x)) by (nonlinear_arith)
        requires
            x0 * y1 == y0 * x1,
            x1 > 0,
            y1 > 0,
            w1 > 0,
            less_value(w, y) ==> w0 * y1 < y0 * w1,
            less_value(w, x) <== w0 * x1 < x0 * w1,
    ;
}

/// Expanding the cross product of a sum over a common denominator.
proof fn lemma_cross_sum(x0: int, x1: int, d0: int, d1: int, y1: int)
    ensures
        (x0 * d1 + d0 * x1) * (y1 * d1) == x0 * y1 * (d1 * d1) + d0 * x1 * y1 * d1,
{
    assert((x0 * d1 + d0 * x1) * (y1 * d1) == x0 * y1 * (d1 * d1) + d0 * x1 * y1 * d1) by (nonlinear_arith);
}

/// A tick at or after a nonnegative `start`, moved later by a positive `d`
/// and back: the moved tick is positive and at or after `start + d`, and
/// moving it back gives the tick again.
proof fn lemma_tick_shift(t: (int, int), start: (int, int), d: (int, int))
    requires
        is_reduced(t),
        is_reduced(start),
        is_reduced(d),
        !less_value(d, zero_view()),
        d.0 != 0,
        !less_value(start, zero_view()),
        !less_value(t, start),
        round_trip_ok(start, d),
        round_trip_ok(t, d),
    ensures
        !less_value(add_view(t, d), zero_view()),
        !less_value(add_view(t, d), add_view(start, d)),
        !less_value(add_view(t, d), start),
        add_view(add_view(t, d), neg_view(d)) == t,
        !less_value(t, zero_view()),
{
    let y = add_view(t, d);
    let s2 = add_view(start, d);
    lemma_add_exact(t, d);
    lemma_add_exact(start, d);
    crate::arithmetic::lemma_add_reduced(t, d);
    crate::arithmetic::lemma_add_reduced(start, d);
    lemma_add_round_trip(t, d);
    let (t0, t1, s0, s1, d0, d1) = (t.0, t.1, start.0, start.1, d.0, d.1);
    let ty = (t0 * d1 + d0 * t1, t1 * d1);
    let sy = (s0 * d1 + d0 * s1, s1 * d1);
    assert(t1 * d1 > 0 && s1 * d1 > 0) by (nonlinear_arith)
        requires
            t1 >= 1,
            s1 >= 1,
            d1 >= 1,
    ;
    // the exact sums compare as their terms do
    assert(d0 > 0);
    assert(s0 >= 0 && t0 * s1 >= s0 * t1);
    assert(t0 >= 0) by (nonlinear_arith)
        requires
            t0 * s1 >= s0 * t1,
            s0 >= 0,
            s1 >= 1,
            t1 >= 1,
    ;
    assert((t0 * d1 + d0 * t1) * 1 >= 0 * (t1 * d1)) by (nonlinear_arith)
        requires
            t0 >= 0,
            d0 > 0,
            d1 >= 1,
            t1 >= 1,
    ;
    assert(!less_value(ty, zero_view()));
    let dd = d1 * d1;
    assert(dd >= 1) by (nonlinear_arith)
        requires
            d1 >= 1,
            dd == d1 * d1,
    ;
    lemma_cross_sum(t0, t1, d0, d1, s1);
    lemma_cross_sum(s0, s1, d0, d1, t1);
    assert(d0 * s1 * t1 * d1 == d0 * t1 * s1 * d1) by (nonlinear_arith);
    assert(t0 * s1 * dd >= s0 * t1 * dd) by (nonlinear_arith)
        requires
            t0 * s1 >= s0 * t1,
            dd >= 1,
    ;
    assert(!less_value(ty, sy));
    assert((s0 * d1 + d0 * s1) * s1 >= s0 * (s1 * d1)) by (nonlinear_arith)
        requires
            d0 > 0,
            s1 >= 1,
            d1 >= 1,
    ;
    assert(!less_value(sy, start));
    lemma_less_subst(y, ty, zero_view());
    lemma_less_subst(y, ty, sy);
    lemma_less_subst(s2, sy, y);
    lemma_less_subst(y, ty, s2);
    lemma_less_subst(s2, sy, start);
    lemma_le_trans(start, s2, y);
}

/// Every tick is in lowest terms, as every timespan value is.
pub open spec fn ticks_reduced(s: Seq<Event>) -> bool {
    forall|i: int| 0 <= i < s.len() ==> is_reduced((#[trigger] s[i]).tick@)
}

/// A shift later by a positive `d` from a nonnegative `start`, where
/// `start + d` is exact.
pub open spec fn forward_shift(start: Timespan, d: Timespan) -> bool {
    &&& is_reduced(start@)
    &&& is_reduced(d@)
    &&& less_value(zero_view(), d@)
    &&& !less_value(start@, zero_view())
    &&& round_trip_ok(start@, d@)
}

/// Every event that a shift from `start` moves can be moved by `d` and back
/// exactly.
pub open spec fn shift_reversible(s: Seq<Event>, start: Timespan, d: Timespan) -> bool {
    forall|i: int| 0 <= i < s.len() && !less_value((#[trigger] s[i]).tick@, start@) ==> round_trip_ok(s[i].tick@, d@)
}

/// A shift that keeps every event deletes none.
proof fn lemma_all_kept(s: Seq<Event>, start: Timespan, d: Timespan)
    requires
        forall|i: int| 0 <= i < s.len() ==> kept_on_shift(#[trigger] s[i], start, d),
    ensures
        shift_kept(s, start, d) == s,
        shift_deleted(s, start, d).len() == 0,
    decreases s.len(),
{
    if s.len() > 0 {
        let t = s.drop_last();
        assert forall|i: int| 0 <= i < t.len() implies kept_on_shift(#[trigger] t[i], start, d) by {
            assert(t[i] == s[i]);
        }
        lemma_all_kept(t, start, d);
        assert(s[s.len() - 1] == s.last());
        assert(t.push(s.last()) =~= s);
    }
}

/// Shifting a channel's events later by a positive distance and then back
/// by the opposite distance deletes nothing and gives back the events.
pub proof fn lemma_channel_shift_back(s: Seq<Event>, start: Timespan, d: Timespan)
    requires
        forward_shift(start, d),
        ticks_reduced(s),
        shift_reversible(s, start, d),
    ensures
        ({
            let nd = Timespan::from_view(neg_view(d@));
            let s1 = shift_kept(s, start, d).map_values(|e: Event| shifted_event(e, start, d));
            &&& shift_ok(s, start, d)
            &&& shift_deleted(s, start, d).len() == 0
            &&& nd@ == neg_view(d@)
            &&& shift_ok(s1, start, nd)
            &&& shift_deleted(s1, start, nd).len() == 0
            &&& shift_kept(s1, start, nd).map_values(|e: Event| shifted_event(e, start, nd)) == s
        }),
{
    let nd = Timespan::from_view(neg_view(d@));
    assert(d@.0 > 0);
    Timespan::lemma_from_view(neg_view(d@));
    assert(neg_view(nd@) == d@);
    lemma_all_kept(s, start, d);
    let s1 = s.map_values(|e: Event| shifted_event(e, start, d));
    assert(shift_kept(s, start, d).map_values(|e: Event| shifted_event(e, start, d)) == s1);
    // each event after the first shift
    assert forall|i: int| 0 <= i < s.len() implies {
        let t = s[i].tick@;
        &&& (less_value(t, start@) ==> #[trigger] s1[i] == s[i])
        &&& (!less_value(t, start@) ==> s1[i].tick@ == add_view(t, d@) && s1[i].data == s[i].data)
    } by {
        let t = s[i].tick@;
        Timespan::lemma_from_view_of(s[i].tick);
        if !less_value(t, start@) {
            lemma_tick_shift(t, start@, d@);
            crate::arithmetic::lemma_add_reduced(t, d@);
            Timespan::lemma_from_view(add_view(t, d@));
        }
    }
    assert forall|i: int| 0 <= i < s1.len() implies kept_on_shift(#[trigger] s1[i], start, nd) by {
        let t = s[i].tick@;
        if !less_value(t, start@) {
            lemma_tick_shift(t, start@, d@);
        }
    }
    lemma_all_kept(s1, start, nd);
    assert forall|i: int| 0 <= i < s1.len() && kept_on_shift(#[trigger] s1[i], start, nd)
        && !less_value(s1[i].tick@, start@) implies crate::timespan::add_ok(s1[i].tick@, nd@) by {
        let t = s[i].tick@;
        if !less_value(t, start@) {
            lemma_tick_shift(t, start@, d@);
        }
    }
    let s2 = s1.map_values(|e: Event| shifted_event(e, start, nd));
    assert forall|i: int| 0 <= i < s.len() implies #[trigger] s2[i] == s[i] by {
        let t = s[i].tick@;
        Timespan::lemma_from_view_of(s[i].tick);
        if !less_value(t, start@) {
            lemma_tick_shift(t, start@, d@);
            assert(shifted_tick(s1[i].tick@, start, nd) == t);
        }
    }
    assert(s2 =~= s);
}

/// The events of a channel after a shift.
pub open spec fn moved(evs: Seq<Event>, start: Timespan, d: Timespan) -> Seq<Event> {
    shift_kept(evs, start, d).map_values(|e: Event| shifted_event(e, start, d))
}

/// The channels named by `coords` exist, each once.
pub open spec fn coords_distinct(ts: Seq<TrackView>, coords: Seq<(int, int)>) -> bool {
    &&& forall|k: int| 0 <= k < coords.len() ==> valid_channel(ts, (#[trigger] coords[k]).0, coords[k].1)
    &&& forall|j: int, k: int| 0 <= j < k < coords.len() ==> #[trigger] coords[j] != #[trigger] coords[k]
}

/// Shifting distinct channels shifts each of them once and leaves the
/// others alone.
proof fn lemma_shift_all_distinct(ts: Seq<TrackView>, coords: Seq<(int, int)>, start: Timespan, d: Timespan)
    requires
        coords_distinct(ts, coords),
    ensures
        ({
            let r = shift_all(ts, coords, start, d).0;
            &&& r.len() == ts.len()
            &&& forall|x: int| 0 <= x < ts.len() ==> (#[trigger] r[x]).target == ts[x].target
                && r[x].channels.len() == ts[x].channels.len()
            &&& forall|x: int, y: int| valid_channel(ts, x, y) ==> (#[trigger] r[x].channels[y]) == if coords.contains((x, y)) {
                moved(ts[x].channels[y], start, d)
            } else {
                ts[x].channels[y]
            }
        }),
        (forall|k: int| 0 <= k < coords.len() ==> shift_deleted(ts[(#[trigger] coords[k]).0].channels[coords[k].1], start, d).len() == 0)
            ==> shift_all(ts, coords, start, d).1.len() == 0,
        (forall|k: int| 0 <= k < coords.len() ==> shift_ok(ts[(#[trigger] coords[k]).0].channels[coords[k].1], start, d))
            ==> shift_all_ok(ts, coords, start, d),
    decreases coords.len(),
{
    if coords.len() > 0 {
        let q = coords.drop_last();
        assert(coords_distinct(ts, q)) by {
            assert forall|k: int| 0 <= k < q.len() implies valid_channel(ts, (#[trigger] q[k]).0, q[k].1) by {
                assert(q[k] == coords[k]);
            }
            assert forall|j: int, k: int| 0 <= j < k < q.len() implies #[trigger] q[j] != #[trigger] q[k] by {
                assert(q[j] == coords[j] && q[k] == coords[k]);
            }
        }
        lemma_shift_all_distinct(ts, q, start, d);
        let ts1 = shift_all(ts, q, start, d).0;
        let (t, c) = coords.last();
        assert(coords[coords.len() - 1] == (t, c));
        assert(valid_channel(ts, t, c));
        assert(!q.contains((t, c))) by {
            if q.contains((t, c)) {
                let j = choose|j: int| 0 <= j < q.len() && q[j] == (t, c);
                assert(q[j] == coords[j]);
            }
        }
        assert(ts1[t].channels[c] == ts[t].channels[c]);
        let r = shift_all(ts, coords, start, d).0;
        assert(r == set_channel(ts1, t, c, moved(ts[t].channels[c], start, d)));
        assert forall|x: int, y: int| valid_channel(ts, x, y) implies (#[trigger] r[x].channels[y]) == if coords.contains((x, y)) {
            moved(ts[x].channels[y], start, d)
        } else {
            ts[x].channels[y]
        } by {
            if x == t && y == c {
                assert(coords.contains((x, y)));
            } else {
                assert(r[x].channels[y] == ts1[x].channels[y]);
                if q.contains((x, y)) {
                    let j = choose|j: int| 0 <= j < q.len() && q[j] == (x, y);
                    assert(coords[j] == (x, y));
                }
                if coords.contains((x, y)) {
                    let j = choose|j: int| 0 <= j < coords.len() && coords[j] == (x, y);
                    assert(q[j] == (x, y));
                }
            }
        }
        if forall|k: int| 0 <= k < coords.len() ==> shift_deleted(ts[(#[trigger] coords[k]).0].channels[coords[k].1], start, d).len() == 0 {
            assert forall|k: int| 0 <= k < q.len() implies shift_deleted(ts[(#[trigger] q[k]).0].channels[q[k].1], start, d).len() == 0 by {
                assert(q[k] == coords[k]);
            }
            assert(shift_deleted(ts[coords[coords.len() - 1].0].channels[coords[coords.len() - 1].1], start, d).len() == 0);
        }
        if forall|k: int| 0 <= k < coords.len() ==> shift_ok(ts[(#[trigger] coords[k]).0].channels[coords[k].1], start, d) {
            assert forall|k: int| 0 <= k < q.len() implies shift_ok(ts[(#[trigger] q[k]).0].channels[q[k].1], start, d) by {
                assert(q[k] == coords[k]);
            }
            assert(shift_ok(ts[coords[coords.len() - 1].0].channels[coords[coords.len() - 1].1], start, d));
            assert(valid_channel(ts1, t, c));
        }
    }
}

/// Shifting the events of distinct channels later by a positive distance
/// from a nonnegative start, where every move and its reverse are exact,
/// is undone exactly: the undo edit applies, it gives back the state, and
/// its inverse is the shift itself, so that a redo repeats the shift.
pub proof fn lemma_shift_reverted<P>(st: ModuleState<P>, coords: Seq<(int, int)>, start: Timespan, d: Timespan)
    requires
        coords_distinct(st.tracks, coords),
        forward_shift(start, d),
        forall|k: int| 0 <= k < coords.len() ==> ticks_reduced(st.tracks[(#[trigger] coords[k]).0].channels[coords[k].1])
            && shift_reversible(st.tracks[coords[k].0].channels[coords[k].1], start, d),
    ensures
        ({
            let e = EditView::<P>::ShiftEvents { channels: coords, start, distance: d, insert: Seq::empty() };
            &&& edit_ok(st, e)
            &&& edit_ok(apply_edit(st, e).0, apply_edit(st, e).1)
            &&& apply_edit(apply_edit(st, e).0, apply_edit(st, e).1).0 == st
            &&& apply_edit(apply_edit(st, e).0, apply_edit(st, e).1).1 == e
        }),
{
    let ts = st.tracks;
    let e = EditView::<P>::ShiftEvents { channels: coords, start, distance: d, insert: Seq::empty() };
    let nd = Timespan::from_view(neg_view(d@));
    assert forall|k: int| 0 <= k < coords.len() implies {
        let ch = ts[(#[trigger] coords[k]).0].channels[coords[k].1];
        &&& shift_ok(ch, start, d)
        &&& shift_deleted(ch, start, d).len() == 0
        &&& shift_ok(moved(ch, start, d), start, nd)
        &&& shift_deleted(moved(ch, start, d), start, nd).len() == 0
        &&& moved(moved(ch, start, d), start, nd) == ch
    } by {
        lemma_channel_shift_back(ts[coords[k].0].channels[coords[k].1], start, d);
    }
    lemma_channel_shift_back(Seq::empty(), start, d);
    assert(nd@ == neg_view(d@));
    lemma_shift_all_distinct(ts, coords, start, d);
    let (ts1, deleted) = shift_all(ts, coords, start, d);
    assert(deleted.len() == 0);
    assert(deleted =~= Seq::empty());
    assert(edit_ok(st, e));
    assert(push_all(ts1, Seq::empty()) == ts1);
    lemma_sort_touched_empty(ts1);
    let (st1, inv) = apply_edit(st, e);
    assert(st1.tracks == ts1);
    assert(inv == EditView::<P>::ShiftEvents { channels: coords, start, distance: nd, insert: Seq::<crate::module::LocatedEvent>::empty() });
    assert(coords_distinct(ts1, coords)) by {
        assert forall|k: int| 0 <= k < coords.len() implies valid_channel(ts1, (#[trigger] coords[k]).0, coords[k].1) by {
            assert(valid_channel(ts, coords[k].0, coords[k].1));
        }
    }
    assert forall|k: int| 0 <= k < coords.len() implies
        ts1[(#[trigger] coords[k]).0].channels[coords[k].1] == moved(ts[coords[k].0].channels[coords[k].1], start, d) by {
        assert(valid_channel(ts, coords[k].0, coords[k].1));
        assert(coords.contains(coords[k]));
    }
    lemma_shift_all_distinct(ts1, coords, start, nd);
    let (ts2, deleted2) = shift_all(ts1, coords, start, nd);
    assert(edit_ok(st1, inv)) by {
        assert(located_valid(ts1, Seq::<crate::module::LocatedEvent>::empty()));
    }
    assert(push_all(ts2, Seq::empty()) == ts2);
    lemma_sort_touched_empty(ts2);
    let st2 = apply_edit(st1, inv).0;
    assert(st2.tracks == ts2);
    assert(ts2 =~= ts) by {
        assert forall|x: int| 0 <= x < ts.len() implies #[trigger] ts2[x] == ts[x] by {
            assert forall|y: int| 0 <= y < ts[x].channels.len() implies #[trigger] ts2[x].channels[y] == ts[x].channels[y] by {
                assert(valid_channel(ts, x, y));
                assert(valid_channel(ts1, x, y));
                if coords.contains((x, y)) {
                    let k = choose|k: int| 0 <= k < coords.len() && coords[k] == (x, y);
                    assert(ts1[coords[k].0].channels[coords[k].1] == moved(ts[coords[k].0].channels[coords[k].1], start, d));
                }
            }
            assert(ts2[x].channels =~= ts[x].channels);
        }
    }
    assert(st2 =~= st);
    assert(deleted2 =~= Seq::<LocatedEvent>::empty());
    assert(neg_view(nd@) == d@);
    Timespan::lemma_from_view_of(d);
}

/// A shift earlier by a negative `d` from a nonnegative `start`, where the
/// end of the deleted span, `start - d`, is exact.
pub open spec fn backward_shift(start: Timespan, d: Timespan) -> bool {
    &&& is_reduced(start@)
    &&& is_reduced(d@)
    &&& less_value(d@, zero_view())
    &&& d@.0 != i32::MIN
    &&& !less_value(start@, zero_view())
    &&& round_trip_ok(start@, neg_view(d@))
}

/// Every event that a shift by `d` from `start` keeps and moves can be
/// moved by `d` and back exactly.
pub open spec fn kept_reversible(s: Seq<Event>, start: Timespan, d: Timespan) -> bool {
    forall|i: int| 0 <= i < s.len() && kept_on_shift(#[trigger] s[i], start, d) && !less_value(s[i].tick@, start@)
        ==> round_trip_ok(s[i].tick@, d@)
}

/// A tick at or after the end of the span that a backward shift deletes,
/// moved by `d` and back: the moved tick is at or after `start`, and moving
/// it back gives the tick again.
proof fn lemma_tick_shift_back(t: (int, int), start: (int, int), d: (int, int))
    requires
        is_reduced(t),
        is_reduced(start),
        is_reduced(d),
        less_value(d, zero_view()),
        d.0 != i32::MIN,
        !less_value(start, zero_view()),
        round_trip_ok(start, neg_view(d)),
        !less_value(t, add_view(start, neg_view(d))),
        round_trip_ok(t, d),
    ensures
        is_reduced(add_view(t, d)),
        !less_value(add_view(t, d), start),
        !less_value(add_view(t, d), zero_view()),
        add_view(add_view(t, d), neg_view(d)) == t,
{
    let p = neg_view(d);
    let (t0, t1, s0, s1, d0, d1) = (t.0, t.1, start.0, start.1, d.0, d.1);
    assert(is_reduced(p));
    lemma_add_exact(start, p);
    crate::arithmetic::lemma_add_reduced(start, p);
    lemma_add_exact(t, d);
    crate::arithmetic::lemma_add_reduced(t, d);
    lemma_add_round_trip(t, d);
    let sp = add_view(start, p);
    let sy = (s0 * d1 + (-d0) * s1, s1 * d1);
    let y = add_view(t, d);
    let ty = (t0 * d1 + d0 * t1, t1 * d1);
    assert(s1 * d1 > 0 && t1 * d1 > 0) by (nonlinear_arith)
        requires
            s1 >= 1,
            t1 >= 1,
            d1 >= 1,
    ;
    lemma_less_subst(sp, sy, t);
    assert(t0 * (s1 * d1) >= (s0 * d1 + (-d0) * s1) * t1);
    let pa = t0 * d1 * s1;
    let pb = d0 * t1 * s1;
    let pc = s0 * t1 * d1;
    assert(t0 * (s1 * d1) == pa) by (nonlinear_arith)
        requires
            pa == t0 * d1 * s1,
    ;
    assert((s0 * d1 + (-d0) * s1) * t1 == pc - pb) by (nonlinear_arith)
        requires
            pb == d0 * t1 * s1,
            pc == s0 * t1 * d1,
    ;
    assert((t0 * d1 + d0 * t1) * s1 == pa + pb) by (nonlinear_arith)
        requires
            pa == t0 * d1 * s1,
            pb == d0 * t1 * s1,
    ;
    assert(s0 * (t1 * d1) == pc) by (nonlinear_arith)
        requires
            pc == s0 * t1 * d1,
    ;
    assert((t0 * d1 + d0 * t1) * s1 >= s0 * (t1 * d1));
    assert(!less_value(ty, start));
    lemma_less_subst(y, ty, start);
    lemma_le_trans(zero_view(), start, y);
}

/// The events a shift keeps and those it deletes are together the events
/// of the channel; where it deletes none, it keeps them all.
proof fn lemma_kept_deleted(s: Seq<Event>, start: Timespan, d: Timespan)
    ensures
        shift_kept(s, start, d).to_multiset().add(shift_deleted(s, start, d).to_multiset()) == s.to_multiset(),
        shift_deleted(s, start, d).len() == 0 ==> shift_kept(s, start, d) == s,
    decreases s.len(),
{
    broadcast use vstd::seq_lib::group_to_multiset_ensures;
    broadcast use vstd::multiset::group_multiset_axioms;
    if s.len() > 0 {
        let t = s.drop_last();
        lemma_kept_deleted(t, start, d);
        assert(s =~= t.push(s.last()));
        if shift_deleted(s, start, d).len() == 0 {
            assert(kept_on_shift(s.last(), start, d));
        }
        assert(shift_kept(s, start, d).to_multiset().add(shift_deleted(s, start, d).to_multiset())
            =~= s.to_multiset());
    } else {
        assert(shift_kept(s, start, d) =~= s);
    }
}

/// Shifting a channel's events earlier by a negative distance and then
/// later by the opposite distance gives back the events that the first
/// shift kept, and the second shift deletes nothing.
#[verifier::rlimit(40)]
proof fn lemma_channel_shift_forth(s: Seq<Event>, start: Timespan, d: Timespan)
    requires
        backward_shift(start, d),
        ticks_reduced(s),
        kept_reversible(s, start, d),
    ensures
        ({
            let nd = Timespan::from_view(neg_view(d@));
            let s1 = moved(s, start, d);
            &&& shift_ok(s, start, d)
            &&& nd@ == neg_view(d@)
            &&& shift_ok(s1, start, nd)
            &&& shift_deleted(s1, start, nd).len() == 0
            &&& moved(s1, start, nd) == shift_kept(s, start, d)
        }),
{
    let nd = Timespan::from_view(neg_view(d@));
    assert(is_reduced(neg_view(d@)));
    Timespan::lemma_from_view(neg_view(d@));
    let k = shift_kept(s, start, d);
    crate::module::lemma_shift_kept_elements(s, start, d);
    let s1 = moved(s, start, d);
    assert(shift_ok(s, start, d)) by {
        assert forall|i: int| 0 <= i < s.len() && kept_on_shift(#[trigger] s[i], start, d)
            && !less_value(s[i].tick@, start@) implies add_ok(s[i].tick@, d@) by {}
    }
    // each kept event after the first shift
    assert forall|j: int| 0 <= j < k.len() implies {
        let t = k[j].tick@;
        &&& (less_value(t, start@) ==> #[trigger] s1[j] == k[j])
        &&& (!less_value(t, start@) ==> s1[j].tick@ == add_view(t, d@) && s1[j].data == k[j].data
            && !less_value(s1[j].tick@, start@) && add_view(s1[j].tick@, neg_view(d@)) == t)
    } by {
        let t = k[j].tick@;
        assert(s.contains(k[j]));
        let i = choose|i: int| 0 <= i < s.len() && s[i] == k[j];
        assert(is_reduced(s[i].tick@));
        Timespan::lemma_from_view_of(k[j].tick);
        if !less_value(t, start@) {
            assert(kept_on_shift(s[i], start, d));
            lemma_tick_shift_back(t, start@, d@);
            Timespan::lemma_from_view(add_view(t, d@));
        }
    }
    assert forall|j: int| 0 <= j < s1.len() implies kept_on_shift(#[trigger] s1[j], start, nd) by {}
    lemma_all_kept(s1, start, nd);
    assert(shift_ok(s1, start, nd)) by {
        assert forall|j: int| 0 <= j < s1.len() && kept_on_shift(#[trigger] s1[j], start, nd)
            && !less_value(s1[j].tick@, start@) implies crate::timespan::add_ok(s1[j].tick@, nd@) by {
            let t = k[j].tick@;
            if less_value(t, start@) {
                assert(s1[j] == k[j]);
            } else {
                assert(s.contains(k[j]));
                let i = choose|i: int| 0 <= i < s.len() && s[i] == k[j];
                assert(kept_on_shift(s[i], start, d));
                assert(round_trip_ok(t, d@));
            }
        }
    }
    let s2 = s1.map_values(|e: Event| shifted_event(e, start, nd));
    assert forall|j: int| 0 <= j < k.len() implies #[trigger] s2[j] == k[j] by {
        let t = k[j].tick@;
        Timespan::lemma_from_view_of(k[j].tick);
        if !less_value(t, start@) {
            assert(s.contains(k[j]));
            let i = choose|i: int| 0 <= i < s.len() && s[i] == k[j];
            lemma_tick_shift_back(t, start@, d@);
            lemma_le_trans(zero_view(), start@, t);
            assert(s1[j].tick@ == add_view(t, d@));
            assert(!less_value(s1[j].tick@, start@));
            assert(add_view(s1[j].tick@, nd@) == t);
            assert(shifted_tick(s1[j].tick@, start, nd) == t);
        }
    }
    assert(s2 =~= k);
}

/// Events all located in channel `(t, c)` go into that channel alone.
proof fn lemma_located_in_channel(evs: Seq<Event>, t: int, c: int, x: int, y: int)
    requires
        0 <= t <= usize::MAX,
        0 <= c <= usize::MAX,
    ensures
        located_in(evs.map_values(|e: Event| LocatedEvent { track: t as usize, channel: c as usize, event: e }), x, y)
            == if x == t && y == c { evs } else { Seq::<Event>::empty() },
    decreases evs.len(),
{
    let les = evs.map_values(|e: Event| LocatedEvent { track: t as usize, channel: c as usize, event: e });
    if evs.len() == 0 {
        assert(located_in(les, x, y) =~= Seq::<Event>::empty());
        assert(evs =~= Seq::<Event>::empty());
    } else {
        lemma_located_in_channel(evs.drop_last(), t, c, x, y);
        assert(les.drop_last() =~= evs.drop_last().map_values(
            |e: Event| LocatedEvent { track: t as usize, channel: c as usize, event: e }));
        assert(les.last() == LocatedEvent { track: t as usize, channel: c as usize, event: evs.last() });
        if x == t && y == c {
            assert(located_in(les, x, y) =~= evs.drop_last().push(evs.last()));
            assert(evs.drop_last().push(evs.last()) =~= evs);
        }
    }
}

/// The events that shifting distinct channels deletes: those that each
/// channel's shift deletes, located in that channel.
#[verifier::rlimit(40)]
proof fn lemma_shift_all_located(ts: Seq<TrackView>, coords: Seq<(int, int)>, start: Timespan, d: Timespan)
    requires
        coords_distinct(ts, coords),
        ts.len() <= usize::MAX,
        forall|x: int| 0 <= x < ts.len() ==> (#[trigger] ts[x]).channels.len() <= usize::MAX,
    ensures
        located_valid(ts, shift_all(ts, coords, start, d).1),
        forall|x: int, y: int| valid_channel(ts, x, y) ==> #[trigger] located_in(shift_all(ts, coords, start, d).1, x, y)
            == if coords.contains((x, y)) { shift_deleted(ts[x].channels[y], start, d) } else { Seq::<Event>::empty() },
    decreases coords.len(),
{
    if coords.len() > 0 {
        let q = coords.drop_last();
        assert(coords_distinct(ts, q)) by {
            assert forall|k: int| 0 <= k < q.len() implies valid_channel(ts, (#[trigger] q[k]).0, q[k].1) by {
                assert(q[k] == coords[k]);
            }
            assert forall|j: int, k: int| 0 <= j < k < q.len() implies #[trigger] q[j] != #[trigger] q[k] by {
                assert(q[j] == coords[j] && q[k] == coords[k]);
            }
        }
        lemma_shift_all_located(ts, q, start, d);
        lemma_shift_all_distinct(ts, q, start, d);
        let (ts1, del) = shift_all(ts, q, start, d);
        let (t, c) = coords.last();
        assert(coords[coords.len() - 1] == (t, c));
        assert(valid_channel(ts, t, c));
        assert(!q.contains((t, c))) by {
            if q.contains((t, c)) {
                let j = choose|j: int| 0 <= j < q.len() && q[j] == (t, c);
                assert(q[j] == coords[j]);
            }
        }
        let evs = ts1[t].channels[c];
        assert(evs == ts[t].channels[c]);
        let gone = shift_deleted(evs, start, d).map_values(
            |e: Event| LocatedEvent { track: t as usize, channel: c as usize, event: e });
        assert(shift_all(ts, coords, start, d).1 == del + gone);
        assert(located_valid(ts, del + gone)) by {
            assert forall|i: int| 0 <= i < (del + gone).len() implies
                valid_channel(ts, #[trigger] (del + gone)[i].track as int, (del + gone)[i].channel as int) by {
                if i < del.len() {
                    assert((del + gone)[i] == del[i]);
                } else {
                    assert((del + gone)[i] == gone[i - del.len()]);
                }
            }
        }
        assert forall|x: int, y: int| valid_channel(ts, x, y) implies #[trigger] located_in(del + gone, x, y)
            == if coords.contains((x, y)) { shift_deleted(ts[x].channels[y], start, d) } else { Seq::<Event>::empty() } by {
            lemma_located_in_append(del, gone, x, y);
            lemma_located_in_channel(shift_deleted(evs, start, d), t, c, x, y);
            if x == t && y == c {
                assert(coords.contains((x, y)));
                assert(Seq::<Event>::empty() + shift_deleted(evs, start, d) =~= shift_deleted(evs, start, d));
            } else {
                if q.contains((x, y)) {
                    let j = choose|j: int| 0 <= j < q.len() && q[j] == (x, y);
                    assert(coords[j] == (x, y));
                }
                if coords.contains((x, y)) {
                    let j = choose|j: int| 0 <= j < coords.len() && coords[j] == (x, y);
                    assert(q[j] == (x, y));
                }
                assert(located_in(del, x, y) + Seq::<Event>::empty() =~= located_in(del, x, y));
            }
        }
    } else {
        assert forall|x: int, y: int| valid_channel(ts, x, y) implies #[trigger] located_in(shift_all(ts, coords, start, d).1, x, y)
            == Seq::<Event>::empty() by {
            assert(located_in(Seq::<LocatedEvent>::empty(), x, y) =~= Seq::<Event>::empty());
        }
    }
}

/// Shifting the events of distinct channels earlier by a negative distance
/// from a nonnegative start, which deletes the events in the span the shift
/// closes, is undone where every move it makes can be reversed exactly: the
/// undo edit applies, it gives back the kit, the patches, every channel it
/// does not shift, and every channel it shifts with the same events (in
/// order where it differs), and the inverse of the undo is the shift itself,
/// so that a redo repeats the shift. Where the shifted channels hold events
/// in strict order of position, the undo gives back the state exactly.
#[verifier::rlimit(40)]
pub proof fn lemma_backward_shift_reverted<P>(st: ModuleState<P>, coords: Seq<(int, int)>, start: Timespan, d: Timespan)
    requires
        coords_distinct(st.tracks, coords),
        st.tracks.len() <= usize::MAX,
        forall|x: int| 0 <= x < st.tracks.len() ==> (#[trigger] st.tracks[x]).channels.len() <= usize::MAX,
        backward_shift(start, d),
        forall|k: int| 0 <= k < coords.len() ==> {
            let ch = st.tracks[(#[trigger] coords[k]).0].channels[coords[k].1];
            &&& ticks_reduced(ch)
            &&& kept_reversible(ch, start, d)
            &&& ticks_valid(ch)
        },
    ensures
        ({
            let e = EditView::<P>::ShiftEvents { channels: coords, start, distance: d, insert: Seq::empty() };
            let st2 = apply_edit(apply_edit(st, e).0, apply_edit(st, e).1).0;
            &&& edit_ok(st, e)
            &&& edit_ok(apply_edit(st, e).0, apply_edit(st, e).1)
            &&& st2.kit == st.kit
            &&& st2.patches == st.patches
            &&& tracks_restored(st.tracks, st2.tracks, |x: int, y: int| coords.contains((x, y)))
            &&& (forall|k: int| 0 <= k < coords.len() ==>
                    events_strictly_sorted(#[trigger] st.tracks[coords[k].0].channels[coords[k].1])) ==> st2 == st
            &&& apply_edit(apply_edit(st, e).0, apply_edit(st, e).1).1 == e
        }),
{
    broadcast use vstd::seq_lib::group_to_multiset_ensures;
    let ts = st.tracks;
    let e = EditView::<P>::ShiftEvents { channels: coords, start, distance: d, insert: Seq::empty() };
    let nd = Timespan::from_view(neg_view(d@));
    assert forall|k: int| 0 <= k < coords.len() implies {
        let ch = ts[(#[trigger] coords[k]).0].channels[coords[k].1];
        &&& shift_ok(ch, start, d)
        &&& shift_ok(moved(ch, start, d), start, nd)
        &&& shift_deleted(moved(ch, start, d), start, nd).len() == 0
        &&& moved(moved(ch, start, d), start, nd) == shift_kept(ch, start, d)
    } by {
        lemma_channel_shift_forth(ts[coords[k].0].channels[coords[k].1], start, d);
    }
    lemma_channel_shift_forth(Seq::empty(), start, d);
    assert(nd@ == neg_view(d@));
    lemma_shift_all_distinct(ts, coords, start, d);
    lemma_shift_all_located(ts, coords, start, d);
    let (ts1, del) = shift_all(ts, coords, start, d);
    assert(edit_ok(st, e)) by {
        assert(located_valid(ts, Seq::<LocatedEvent>::empty()));
    }
    assert(push_all(ts1, Seq::empty()) == ts1);
    lemma_sort_touched_empty(ts1);
    let (st1, inv) = apply_edit(st, e);
    assert(st1.tracks == ts1);
    assert(inv == EditView::<P>::ShiftEvents { channels: coords, start, distance: nd, insert: del });
    assert(coords_distinct(ts1, coords)) by {
        assert forall|k: int| 0 <= k < coords.len() implies valid_channel(ts1, (#[trigger] coords[k]).0, coords[k].1) by {
            assert(valid_channel(ts, coords[k].0, coords[k].1));
        }
    }
    assert forall|k: int| 0 <= k < coords.len() implies
        ts1[(#[trigger] coords[k]).0].channels[coords[k].1] == moved(ts[coords[k].0].channels[coords[k].1], start, d) by {
        assert(valid_channel(ts, coords[k].0, coords[k].1));
        assert(coords.contains(coords[k]));
    }
    lemma_shift_all_distinct(ts1, coords, start, nd);
    let (ts2, deleted2) = shift_all(ts1, coords, start, nd);
    assert(located_valid(ts1, del)) by {
        assert forall|i: int| 0 <= i < del.len() implies valid_channel(ts1, #[trigger] del[i].track as int, del[i].channel as int) by {
            assert(valid_channel(ts, del[i].track as int, del[i].channel as int));
        }
    }
    assert(nd@.0 != i32::MIN);
    assert(edit_ok(st1, inv));
    assert(located_valid(ts2, del)) by {
        assert forall|i: int| 0 <= i < del.len() implies valid_channel(ts2, #[trigger] del[i].track as int, del[i].channel as int) by {
            assert(valid_channel(ts, del[i].track as int, del[i].channel as int));
        }
    }
    crate::deleting::lemma_push_all_channels(ts2, del);
    crate::module::lemma_push_all_shape(ts2, del);
    let pushed = push_all(ts2, del);
    crate::reverting::lemma_sort_touched_shape(pushed, del);
    let ts3 = sort_touched(pushed, del);
    assert(shape(ts3).len() == ts3.len() && shape(pushed).len() == pushed.len());
    let touched = |x: int, y: int| coords.contains((x, y));
    assert forall|x: int| 0 <= x < ts.len() implies (#[trigger] ts3[x]).target == ts[x].target
        && ts3[x].channels.len() == ts[x].channels.len() by {
        assert(shape(ts3)[x] == shape(pushed)[x]);
    }
    assert forall|x: int, y: int| valid_channel(ts, x, y) implies
        (#[trigger] ts3[x].channels[y]).to_multiset() == ts[x].channels[y].to_multiset()
        && (ts3[x].channels[y] == ts[x].channels[y] || (touched(x, y) && events_sorted(ts3[x].channels[y]))) by {
        assert(valid_channel(ts1, x, y));
        assert(valid_channel(ts2, x, y));
        let c0 = ts[x].channels[y];
        let ld = located_in(del, x, y);
        crate::deleting::lemma_touches_located_in(del, x, y);
        let joined = ts2[x].channels[y] + ld;
        assert(pushed[x].channels[y] == joined);
        if coords.contains((x, y)) {
            let k = choose|k: int| 0 <= k < coords.len() && coords[k] == (x, y);
            assert(ts1[coords[k].0].channels[coords[k].1] == moved(c0, start, d));
            assert(ts2[x].channels[y] == shift_kept(c0, start, d));
            assert(ld == shift_deleted(c0, start, d));
            lemma_kept_deleted(c0, start, d);
            assert(ticks_valid(c0));
            if ld.len() > 0 {
                vstd::seq_lib::lemma_multiset_commutative(shift_kept(c0, start, d), ld);
                assert(joined.to_multiset() == c0.to_multiset());
                assert(ticks_valid(joined)) by {
                    assert forall|m: int| 0 <= m < joined.len() implies (#[trigger] joined[m]).tick@.1 > 0 by {
                        assert(joined.to_multiset().count(joined[m]) > 0);
                        assert(c0.contains(joined[m]));
                    }
                }
                lemma_sort_events(joined);
            } else {
                assert(joined =~= c0);
            }
        } else {
            assert(ts1[x].channels[y] == c0);
            assert(ts2[x].channels[y] == c0);
            assert(ld =~= Seq::<Event>::empty());
            assert(joined =~= c0);
        }
    }
    assert(tracks_restored(ts, ts3, touched));
    if forall|k: int| 0 <= k < coords.len() ==>
        events_strictly_sorted(#[trigger] ts[coords[k].0].channels[coords[k].1]) {
        assert forall|x: int, y: int| valid_channel(ts, x, y) && touched(x, y) implies
            events_strictly_sorted(#[trigger] ts[x].channels[y]) && ticks_valid(ts[x].channels[y]) by {
            let k = choose|k: int| 0 <= k < coords.len() && coords[k] == (x, y);
        }
        crate::reverting::lemma_restored_exact(ts, ts3, touched);
        assert(apply_edit(st1, inv).0 =~= st);
    }
    assert(deleted2 =~= Seq::<LocatedEvent>::empty());
    assert(neg_view(nd@) == d@);
    Timespan::lemma_from_view_of(d);
}

/// Adding the same exact distance keeps the order of two ticks.
proof fn lemma_shift_order(t1: (int, int), t2: (int, int), d: (int, int))
    requires
        is_reduced(t1),
        is_reduced(t2),
        is_reduced(d),
        lcm_den(t1, d) <= 255,
        lcm_den(t2, d) <= 255,
        add_ok(t1, d),
        add_ok(t2, d),
    ensures
        less_value(add_view(t1, d), add_view(t2, d)) == less_value(t1, t2),
        same_value(add_view(t1, d), add_view(t2, d)) == same_value(t1, t2),
{
    lemma_add_exact(t1, d);
    lemma_add_exact(t2, d);
    crate::arithmetic::lemma_add_reduced(t1, d);
    crate::arithmetic::lemma_add_reduced(t2, d);
    let (a0, a1, b0, b1, d0, d1) = (t1.0, t1.1, t2.0, t2.1, d.0, d.1);
    let y1 = add_view(t1, d);
    let y2 = add_view(t2, d);
    let e1 = (a0 * d1 + d0 * a1, a1 * d1);
    let e2 = (b0 * d1 + d0 * b1, b1 * d1);
    assert(a1 * d1 > 0 && b1 * d1 > 0) by (nonlinear_arith)
        requires
            a1 >= 1,
            b1 >= 1,
            d1 >= 1,
    ;
    lemma_less_subst(y1, e1, y2);
    lemma_less_subst(y2, e2, e1);
    let dd = d1 * d1;
    assert(dd >= 1) by (nonlinear_arith)
        requires
            d1 >= 1,
            dd == d1 * d1,
    ;
    assert(e1.0 * e2.1 == a0 * b1 * dd + d0 * a1 * b1 * d1) by (nonlinear_arith)
        requires
            e1.0 == a0 * d1 + d0 * a1,
            e2.1 == b1 * d1,
            dd == d1 * d1,
    ;
    assert(e2.0 * e1.1 == b0 * a1 * dd + d0 * b1 * a1 * d1) by (nonlinear_arith)
        requires
            e2.0 == b0 * d1 + d0 * b1,
            e1.1 == a1 * d1,
            dd == d1 * d1,
    ;
    assert(d0 * a1 * b1 * d1 == d0 * b1 * a1 * d1) by (nonlinear_arith);
    assert((a0 * b1 * dd < b0 * a1 * dd) == (a0 * b1 < b0 * a1)) by (nonlinear_arith)
        requires
            dd >= 1,
    ;
    assert((a0 * b1 * dd == b0 * a1 * dd) == (a0 * b1 == b0 * a1)) by (nonlinear_arith)
        requires
            dd >= 1,
    ;
    assert(less_value(y1, y2) == less_value(e1, e2));
    // sameness carries over through the exact sums
    if same_value(y1, y2) {
        crate::arithmetic::lemma_same_value_trans(e1, y1, y2);
        crate::arithmetic::lemma_same_value_trans(e1, y2, e2);
    }
    if same_value(e1, e2) {
        crate::arithmetic::lemma_same_value_trans(y1, e1, e2);
        crate::arithmetic::lemma_same_value_trans(y1, e2, y2);
    }
}

/// `a < b <= c` gives `a < c` (denominators positive).
proof fn lemma_less_le(a: (int, int), b: (int, int), c: (int, int))
    requires
        a.1 > 0,
        b.1 > 0,
        c.1 > 0,
        less_value(a, b),
        !less_value(c, b),
    ensures
        less_value(a, c),
        !less_value(c, a),
        !same_value(a, c),
{
    assert(a.0 * c.1 < c.0 * a.1) by (nonlinear_arith)
        requires
            a.1 > 0,
            b.1 > 0,
            c.1 > 0,
            a.0 * b.1 < b.0 * a.1,
            c.0 * b.1 >= b.0 * c.1,
    ;
}

/// Moving two sequences with the same events moves the same events.
proof fn lemma_moved_multiset(a: Seq<Event>, b: Seq<Event>, start: Timespan, d: Timespan)
    requires
        a.to_multiset() == b.to_multiset(),
    ensures
        a.map_values(|e: Event| shifted_event(e, start, d)).to_multiset()
            == b.map_values(|e: Event| shifted_event(e, start, d)).to_multiset(),
    decreases a.len(),
{
    broadcast use vstd::seq_lib::group_to_multiset_ensures;
    broadcast use vstd::multiset::group_multiset_axioms;
    vstd::seq_lib::to_multiset_len(a);
    vstd::seq_lib::to_multiset_len(b);
    if a.len() == 0 {
        assert(b.len() == 0);
        assert(a.map_values(|e: Event| shifted_event(e, start, d)) =~= Seq::<Event>::empty());
        assert(b.map_values(|e: Event| shifted_event(e, start, d)) =~= Seq::<Event>::empty());
    } else {
        let x = a.last();
        let a1 = a.drop_last();
        assert(a =~= a1.push(x));
        assert(b.to_multiset().count(x) > 0);
        assert(b.contains(x));
        let i = choose|i: int| 0 <= i < b.len() && b[i] == x;
        let b1 = b.remove(i);
        assert(b =~= b.take(i) + seq![x] + b.skip(i + 1));
        assert(b1 =~= b.take(i) + b.skip(i + 1));
        vstd::seq_lib::lemma_multiset_commutative(b.take(i) + seq![x], b.skip(i + 1));
        vstd::seq_lib::lemma_multiset_commutative(b.take(i), seq![x]);
        vstd::seq_lib::lemma_multiset_commutative(b.take(i), b.skip(i + 1));
        assert(seq![x] =~= Seq::<Event>::empty().push(x));
        assert(b.to_multiset() =~= b1.to_multiset().insert(x));
        assert(a1.to_multiset() =~= b1.to_multiset());
        lemma_moved_multiset(a1, b1, start, d);
        let f = |e: Event| shifted_event(e, start, d);
        let mb = b.map_values(f);
        let mb1 = b1.map_values(f);
        assert(mb =~= mb.take(i) + seq![f(x)] + mb.skip(i + 1));
        assert(mb1 =~= mb.take(i) + mb.skip(i + 1));
        vstd::seq_lib::lemma_multiset_commutative(mb.take(i) + seq![f(x)], mb.skip(i + 1));
        vstd::seq_lib::lemma_multiset_commutative(mb.take(i), seq![f(x)]);
        vstd::seq_lib::lemma_multiset_commutative(mb.take(i), mb.skip(i + 1));
        assert(seq![f(x)] =~= Seq::<Event>::empty().push(f(x)));
        assert(a.map_values(f) =~= a1.map_values(f).push(f(x)));
        assert(a.map_values(f).to_multiset() =~= mb.to_multiset());
    }
}

/// The events a shift keeps are those of the channel that it keeps,
/// counted alike.
proof fn lemma_kept_count(s: Seq<Event>, start: Timespan, d: Timespan, v: Event)
    ensures
        shift_kept(s, start, d).to_multiset().count(v) == if kept_on_shift(v, start, d) { s.to_multiset().count(v) } else { 0 },
    decreases s.len(),
{
    broadcast use vstd::seq_lib::group_to_multiset_ensures;
    broadcast use vstd::multiset::group_multiset_axioms;
    if s.len() == 0 {
        assert(s.to_multiset() =~= vstd::multiset::Multiset::empty());
    } else {
        lemma_kept_count(s.drop_last(), start, d, v);
        assert(s =~= s.drop_last().push(s.last()));
    }
}

/// What a shift keeps of events in order is in order.
proof fn lemma_shift_kept_sorted(s: Seq<Event>, start: Timespan, d: Timespan)
    requires
        events_sorted(s),
    ensures
        events_sorted(shift_kept(s, start, d)),
    decreases s.len(),
{
    if s.len() > 0 {
        let t = s.drop_last();
        assert(events_sorted(t)) by {
            assert forall|i: int, j: int| 0 <= i < j < t.len() implies event_key_le(#[trigger] t[i], #[trigger] t[j]) by {
                assert(t[i] == s[i] && t[j] == s[j]);
            }
        }
        lemma_shift_kept_sorted(t, start, d);
        crate::module::lemma_shift_kept_elements(t, start, d);
        let k = shift_kept(t, start, d);
        if kept_on_shift(s.last(), start, d) {
            let r = k.push(s.last());
            assert forall|i: int, j: int| 0 <= i < j < r.len() implies event_key_le(#[trigger] r[i], #[trigger] r[j]) by {
                if j == r.len() - 1 {
                    assert(t.contains(k[i]));
                    let m = choose|m: int| 0 <= m < t.len() && t[m] == k[i];
                    assert(s[m] == k[i]);
                    assert(s[s.len() - 1] == s.last());
                } else {
                    assert(r[i] == k[i] && r[j] == k[j]);
                }
            }
        }
    }
}

/// A moved event `e` and the event `o` it was moved from: the same where
/// `o` lies before `start`, later by exactly `d` (and so at or after
/// `start + d`) otherwise.
pub open spec fn moved_from(o: Event, e: Event, start: Timespan, d: Timespan) -> bool {
    &&& is_reduced(o.tick@)
    &&& less_value(o.tick@, start@) ==> e == o
    &&& !less_value(o.tick@, start@) ==> {
        &&& round_trip_ok(o.tick@, d@)
        &&& e.tick@ == add_view(o.tick@, d@)
        &&& e.data == o.data
        &&& !less_value(e.tick@, add_view(start@, d@))
    }
}

/// Moving back events moved later keeps their order.
proof fn lemma_back_key(o1: Event, e1: Event, o2: Event, e2: Event, start: Timespan, d: Timespan)
    requires
        forward_shift(start, d),
        moved_from(o1, e1, start, d),
        moved_from(o2, e2, start, d),
        event_key_le(e1, e2),
    ensures
        event_key_le(o1, o2),
{
    let (t1, t2, st) = (o1.tick@, o2.tick@, start@);
    if less_value(t1, st) && !less_value(t2, st) {
        lemma_less_le(t1, st, t2);
    } else if !less_value(t1, st) && less_value(t2, st) {
        lemma_tick_shift(st, st, d@);
        let sd = add_view(st, d@);
        crate::arithmetic::lemma_add_reduced(st, d@);
        lemma_less_le(t2, st, sd);
        crate::arithmetic::lemma_add_reduced(t1, d@);
        lemma_less_le(t2, sd, e1.tick@);
        assert(same_value(e1.tick@, e2.tick@) == same_value(e2.tick@, e1.tick@));
        assert(false);
    } else if !less_value(t1, st) && !less_value(t2, st) {
        lemma_shift_order(t1, t2, d@);
    }
}

/// The event of a channel lies in the span from `start` to `start + d`.
pub open spec fn in_gap(e: Event, start: Timespan, d: Timespan) -> bool {
    &&& !less_value(e.tick@, start@)
    &&& less_value(e.tick@, add_view(start@, d@))
    &&& e.tick@.1 > 0
}

/// Shifting a channel's events later by a positive distance, adding events
/// in the span that the shift opens and sorting, then shifting back: the
/// shift back applies, deletes exactly the added events, and gives back the
/// channel's events in order.
#[verifier::rlimit(80)]
proof fn lemma_channel_reinserted(c: Seq<Event>, xs: Seq<Event>, start: Timespan, d: Timespan)
    requires
        forward_shift(start, d),
        ticks_reduced(c),
        shift_reversible(c, start, d),
        forall|i: int| 0 <= i < xs.len() ==> in_gap(#[trigger] xs[i], start, d),
    ensures
        ({
            let nd = Timespan::from_view(neg_view(d@));
            let c2 = sort_events_spec(moved(c, start, d) + xs);
            &&& nd@ == neg_view(d@)
            &&& shift_ok(c2, start, nd)
            &&& moved(c2, start, nd).to_multiset() == c.to_multiset()
            &&& events_sorted(moved(c2, start, nd))
            &&& shift_deleted(c2, start, nd).to_multiset() == xs.to_multiset()
        }),
{
    broadcast use vstd::seq_lib::group_to_multiset_ensures;
    broadcast use vstd::multiset::group_multiset_axioms;
    let nd = Timespan::from_view(neg_view(d@));
    lemma_channel_shift_back(c, start, d);
    let c1 = moved(c, start, d);
    lemma_kept_deleted(c, start, d);
    lemma_kept_deleted(c1, start, nd);
    crate::module::lemma_shift_kept_elements(c1, start, nd);
    let g = |e: Event| shifted_event(e, start, nd);
    assert(c1 == c.map_values(|e: Event| shifted_event(e, start, d)));
    assert(c1.map_values(g) == c);
    assert(less_value(nd@, zero_view()));
    assert(neg_view(nd@) == d@);
    // each moved event against the event it came from
    assert forall|j: int| 0 <= j < c.len() implies moved_from(#[trigger] c[j], c1[j], start, d) && g(c1[j]) == c[j] by {
        assert(c1.map_values(g)[j] == c[j]);
        let t = c[j].tick@;
        Timespan::lemma_from_view_of(c[j].tick);
        if !less_value(t, start@) {
            lemma_tick_shift(t, start@, d@);
            crate::arithmetic::lemma_add_reduced(t, d@);
            Timespan::lemma_from_view(add_view(t, d@));
        }
    }
    // the added events are not kept by the shift back
    assert forall|i: int| 0 <= i < xs.len() implies !kept_on_shift(#[trigger] xs[i], start, nd) by {}
    let j0 = c1 + xs;
    assert(ticks_valid(j0)) by {
        assert forall|m: int| 0 <= m < j0.len() implies (#[trigger] j0[m]).tick@.1 > 0 by {
            if m < c1.len() {
                assert(j0[m] == c1[m]);
                assert(moved_from(c[m], c1[m], start, d));
                if !less_value(c[m].tick@, start@) {
                    crate::arithmetic::lemma_add_reduced(c[m].tick@, d@);
                }
            } else {
                assert(j0[m] == xs[m - c1.len()]);
            }
        }
    }
    lemma_sort_events(j0);
    let c2 = sort_events_spec(j0);
    vstd::seq_lib::lemma_multiset_commutative(c1, xs);
    assert(c2.to_multiset() == c1.to_multiset().add(xs.to_multiset()));
    // every event of the sorted channel comes from the moved events or the added ones
    assert forall|v: Event| #[trigger] c2.to_multiset().count(v) > 0 && kept_on_shift(v, start, nd) implies
        exists|j: int| 0 <= j < c.len() && c1[j] == v by {
        if xs.to_multiset().count(v) > 0 {
            assert(xs.contains(v));
        }
        assert(c1.to_multiset().count(v) > 0);
        assert(c1.contains(v));
    }
    assert(shift_ok(c2, start, nd)) by {
        assert forall|i: int| 0 <= i < c2.len() && kept_on_shift(#[trigger] c2[i], start, nd)
            && !less_value(c2[i].tick@, start@) implies add_ok(c2[i].tick@, nd@) by {
            assert(c2.to_multiset().count(c2[i]) > 0);
            let j = choose|j: int| 0 <= j < c.len() && c1[j] == c2[i];
            assert(moved_from(c[j], c1[j], start, d));
        }
    }
    // what the shift back keeps are the moved events
    let k = shift_kept(c2, start, nd);
    assert(k.to_multiset() =~= c1.to_multiset()) by {
        assert forall|v: Event| k.to_multiset().count(v) == c1.to_multiset().count(v) by {
            lemma_kept_count(c2, start, nd, v);
            if kept_on_shift(v, start, nd) {
                if xs.to_multiset().count(v) > 0 {
                    assert(xs.contains(v));
                }
            } else if c1.to_multiset().count(v) > 0 {
                assert(c1.contains(v));
            }
        }
    }
    lemma_kept_deleted(c2, start, nd);
    let dl = shift_deleted(c2, start, nd);
    assert(dl.to_multiset() =~= xs.to_multiset()) by {
        assert forall|v: Event| dl.to_multiset().count(v) == xs.to_multiset().count(v) by {
            assert(k.to_multiset().add(dl.to_multiset()).count(v) == c2.to_multiset().count(v));
        }
    }
    lemma_moved_multiset(k, c1, start, nd);
    // and they come back in order
    lemma_shift_kept_sorted(c2, start, nd);
    crate::module::lemma_shift_kept_elements(c2, start, nd);
    let mk = k.map_values(g);
    assert forall|a: int, b: int| 0 <= a < b < mk.len() implies event_key_le(#[trigger] mk[a], #[trigger] mk[b]) by {
        assert(c2.contains(k[a]) && c2.contains(k[b]));
        assert(c2.to_multiset().count(k[a]) > 0 && c2.to_multiset().count(k[b]) > 0);
        let ja = choose|j: int| 0 <= j < c.len() && c1[j] == k[a];
        let jb = choose|j: int| 0 <= j < c.len() && c1[j] == k[b];
        assert(moved_from(c[ja], c1[ja], start, d));
        assert(moved_from(c[jb], c1[jb], start, d));
        lemma_back_key(c[ja], c1[ja], c[jb], c1[jb], start, d);
    }
}

/// The events that located events in the span put into a channel are in
/// the span, and none goes into a channel that no located event names.
proof fn lemma_located_in_gap(xs: Seq<LocatedEvent>, x: int, y: int, start: Timespan, d: Timespan)
    requires
        forall|i: int| 0 <= i < xs.len() ==> in_gap((#[trigger] xs[i]).event, start, d),
    ensures
        forall|i: int| 0 <= i < located_in(xs, x, y).len() ==> in_gap(#[trigger] located_in(xs, x, y)[i], start, d),
        located_in(xs, x, y).len() > 0 ==> exists|i: int| 0 <= i < xs.len() && xs[i].track == x && xs[i].channel == y,
{
    let li = located_in(xs, x, y);
    let f = |le: LocatedEvent| if le.track == x && le.channel == y { Some(le.event) } else { None::<Event> };
    assert forall|i: int| 0 <= i < li.len() implies in_gap(#[trigger] li[i], start, d) by {
        assert(li.contains(li[i]));
        xs.lemma_filter_map_contains(f, li[i]);
        let t = choose|t: LocatedEvent| #[trigger] xs.contains(t) && f(t) == Some(li[i]);
        let k = choose|k: int| 0 <= k < xs.len() && xs[k] == t;
    }
    if li.len() > 0 {
        assert(li.contains(li[0]));
        xs.lemma_filter_map_contains(f, li[0]);
        let t = choose|t: LocatedEvent| #[trigger] xs.contains(t) && f(t) == Some(li[0]);
        let k = choose|k: int| 0 <= k < xs.len() && xs[k] == t;
        assert(xs[k].track == x && xs[k].channel == y);
    }
}

/// Shifting the events of distinct channels later by a positive distance
/// from a nonnegative start, where every move and its reverse are exact,
/// and adding events that lie in the span the shift opens in those
/// channels, is undone: the undo edit applies and gives back the kit, the
/// patches, every channel it does not shift, and every channel it shifts
/// with the same events (in order where it differs). Where the shifted
/// channels hold events in strict order of position, the undo gives back
/// the state exactly; where they do so after the edit too, the inverse of
/// the undo does to that state what the edit did, so that a redo repeats
/// the edit.
#[verifier::rlimit(100)]
pub proof fn lemma_reinserting_shift_reverted<P>(
    st: ModuleState<P>,
    coords: Seq<(int, int)>,
    start: Timespan,
    d: Timespan,
    xs: Seq<LocatedEvent>,
)
    requires
        coords_distinct(st.tracks, coords),
        st.tracks.len() <= usize::MAX,
        forall|x: int| 0 <= x < st.tracks.len() ==> (#[trigger] st.tracks[x]).channels.len() <= usize::MAX,
        forward_shift(start, d),
        forall|k: int| 0 <= k < coords.len() ==> ticks_reduced(st.tracks[(#[trigger] coords[k]).0].channels[coords[k].1])
            && shift_reversible(st.tracks[coords[k].0].channels[coords[k].1], start, d),
        located_valid(st.tracks, xs),
        forall|i: int| 0 <= i < xs.len() ==> coords.contains(((#[trigger] xs[i]).track as int, xs[i].channel as int))
            && in_gap(xs[i].event, start, d),
    ensures
        ({
            let e = EditView::<P>::ShiftEvents { channels: coords, start, distance: d, insert: xs };
            let (st1, inv) = apply_edit(st, e);
            let st2 = apply_edit(st1, inv).0;
            &&& edit_ok(st, e)
            &&& edit_ok(st1, inv)
            &&& st2.kit == st.kit
            &&& st2.patches == st.patches
            &&& forall|x: int, y: int| valid_channel(st.tracks, x, y) ==> #[trigger] valid_channel(st1.tracks, x, y)
            &&& tracks_restored(st.tracks, st2.tracks, |x: int, y: int| coords.contains((x, y)))
            &&& (forall|k: int| 0 <= k < coords.len() ==>
                    events_strictly_sorted(#[trigger] st.tracks[coords[k].0].channels[coords[k].1])) ==> st2 == st
            &&& (forall|k: int| 0 <= k < coords.len() ==>
                    events_strictly_sorted(#[trigger] st1.tracks[coords[k].0].channels[coords[k].1]))
                ==> apply_edit(st, apply_edit(st1, inv).1).0 == st1
        }),
{
    broadcast use vstd::seq_lib::group_to_multiset_ensures;
    broadcast use vstd::multiset::group_multiset_axioms;
    let ts = st.tracks;
    let e = EditView::<P>::ShiftEvents { channels: coords, start, distance: d, insert: xs };
    let nd = Timespan::from_view(neg_view(d@));
    let touched = |x: int, y: int| coords.contains((x, y));
    assert forall|k: int| 0 <= k < coords.len() implies {
        let ch = ts[(#[trigger] coords[k]).0].channels[coords[k].1];
        &&& shift_ok(ch, start, d)
        &&& shift_deleted(ch, start, d).len() == 0
        &&& shift_ok(moved(ch, start, d), start, nd)
        &&& shift_deleted(moved(ch, start, d), start, nd).len() == 0
        &&& moved(moved(ch, start, d), start, nd) == ch
    } by {
        lemma_channel_shift_back(ts[coords[k].0].channels[coords[k].1], start, d);
    }
    lemma_channel_shift_back(Seq::empty(), start, d);
    assert(nd@ == neg_view(d@));
    lemma_shift_all_distinct(ts, coords, start, d);
    let (ts1, del) = shift_all(ts, coords, start, d);
    assert(del =~= Seq::<LocatedEvent>::empty());
    assert(edit_ok(st, e));
    let (st1, inv) = apply_edit(st, e);
    crate::module::lemma_push_all_shape(ts1, xs);
    assert(located_valid(ts1, xs)) by {
        assert forall|i: int| 0 <= i < xs.len() implies valid_channel(ts1, #[trigger] xs[i].track as int, xs[i].channel as int) by {
            assert(valid_channel(ts, xs[i].track as int, xs[i].channel as int));
        }
    }
    crate::deleting::lemma_push_all_channels(ts1, xs);
    let pushed = push_all(ts1, xs);
    crate::reverting::lemma_sort_touched_shape(pushed, xs);
    let ts2 = sort_touched(pushed, xs);
    assert(st1.tracks == ts2);
    assert(inv == EditView::<P>::ShiftEvents { channels: coords, start, distance: nd, insert: Seq::<LocatedEvent>::empty() });
    assert(shape(ts2).len() == ts2.len() && shape(ts1).len() == ts1.len() && shape(ts).len() == ts.len());
    // each channel after the edit
    assert forall|x: int, y: int| valid_channel(ts, x, y) implies {
        let c = ts[x].channels[y];
        let la = located_in(xs, x, y);
        &&& valid_channel(ts2, x, y)
        &&& (!coords.contains((x, y)) ==> #[trigger] ts2[x].channels[y] == c && la.len() == 0)
        &&& (coords.contains((x, y)) && la.len() == 0 ==> ts2[x].channels[y] == moved(c, start, d))
        &&& (coords.contains((x, y)) && la.len() > 0 ==> ts2[x].channels[y] == sort_events_spec(moved(c, start, d) + la))
        &&& (coords.contains((x, y)) ==> ticks_reduced(c) && shift_reversible(c, start, d))
        &&& (forall|i: int| 0 <= i < la.len() ==> in_gap(#[trigger] la[i], start, d))
    } by {
        assert(valid_channel(ts1, x, y));
        assert(shape(ts2)[x] == shape(ts)[x]);
        let la = located_in(xs, x, y);
        lemma_located_in_gap(xs, x, y, start, d);
        crate::deleting::lemma_touches_located_in(xs, x, y);
        if la.len() > 0 {
            let i = choose|i: int| 0 <= i < xs.len() && xs[i].track == x && xs[i].channel == y;
            assert(coords.contains((xs[i].track as int, xs[i].channel as int)));
        }
        if coords.contains((x, y)) {
            let k = choose|k: int| 0 <= k < coords.len() && coords[k] == (x, y);
        } else {
            assert(la =~= Seq::<Event>::empty());
        }
        if la.len() == 0 {
            assert(la =~= Seq::<Event>::empty());
            assert(ts1[x].channels[y] + la =~= ts1[x].channels[y]);
        }
    }
    // the undo's shift applies
    assert(coords_distinct(ts2, coords)) by {
        assert forall|k: int| 0 <= k < coords.len() implies valid_channel(ts2, (#[trigger] coords[k]).0, coords[k].1) by {
            assert(valid_channel(ts, coords[k].0, coords[k].1));
        }
    }
    assert forall|k: int| 0 <= k < coords.len() implies
        shift_ok(ts2[(#[trigger] coords[k]).0].channels[coords[k].1], start, nd) by {
        let (x, y) = coords[k];
        assert(valid_channel(ts, x, y));
        assert(coords.contains((x, y)));
        let c = ts[x].channels[y];
        let la = located_in(xs, x, y);
        if la.len() > 0 {
            lemma_located_in_gap(xs, x, y, start, d);
            lemma_channel_reinserted(c, la, start, d);
        }
    }
    lemma_shift_all_distinct(ts2, coords, start, nd);
    lemma_shift_all_located(ts2, coords, start, nd);
    assert(located_valid(ts2, Seq::<LocatedEvent>::empty()));
    assert(nd@.0 != i32::MIN);
    assert(edit_ok(st1, inv));
    let (ts3, del2) = shift_all(ts2, coords, start, nd);
    assert(push_all(ts3, Seq::empty()) == ts3);
    lemma_sort_touched_empty(ts3);
    let st2 = apply_edit(st1, inv).0;
    assert(st2.tracks == ts3);
    assert forall|x: int| 0 <= x < ts.len() implies (#[trigger] ts3[x]).target == ts[x].target
        && ts3[x].channels.len() == ts[x].channels.len() by {
        assert(shape(ts2)[x] == shape(ts)[x]);
        assert(pushed[x].target == ts1[x].target);
    }
    assert forall|x: int, y: int| valid_channel(ts, x, y) implies
        (#[trigger] ts3[x].channels[y]).to_multiset() == ts[x].channels[y].to_multiset()
        && (ts3[x].channels[y] == ts[x].channels[y] || (touched(x, y) && events_sorted(ts3[x].channels[y]))) by {
        let c = ts[x].channels[y];
        let la = located_in(xs, x, y);
        assert(valid_channel(ts2, x, y));
        if coords.contains((x, y)) && la.len() > 0 {
            lemma_located_in_gap(xs, x, y, start, d);
            lemma_channel_reinserted(c, la, start, d);
        }
    }
    assert(tracks_restored(ts, ts3, touched));
    if forall|k: int| 0 <= k < coords.len() ==> events_strictly_sorted(#[trigger] ts[coords[k].0].channels[coords[k].1]) {
        assert forall|x: int, y: int| valid_channel(ts, x, y) && touched(x, y) implies
            events_strictly_sorted(#[trigger] ts[x].channels[y]) && ticks_valid(ts[x].channels[y]) by {
            let k = choose|k: int| 0 <= k < coords.len() && coords[k] == (x, y);
            assert(ticks_reduced(ts[x].channels[y]));
        }
        crate::reverting::lemma_restored_exact(ts, ts3, touched);
        assert(st2 =~= st);
    }
    // the redo
    let again = apply_edit(st1, inv).1;
    Timespan::lemma_from_view_of(d);
    assert(neg_view(nd@) == d@);
    assert(again == EditView::<P>::ShiftEvents { channels: coords, start, distance: d, insert: del2 });
    if forall|k: int| 0 <= k < coords.len() ==> events_strictly_sorted(#[trigger] ts2[coords[k].0].channels[coords[k].1]) {
        assert(located_valid(ts1, del2)) by {
            assert forall|i: int| 0 <= i < del2.len() implies valid_channel(ts1, #[trigger] del2[i].track as int, del2[i].channel as int) by {
                assert(valid_channel(ts2, del2[i].track as int, del2[i].channel as int));
                assert(shape(ts2)[del2[i].track as int] == shape(ts)[del2[i].track as int]);
            }
        }
        crate::deleting::lemma_push_all_channels(ts1, del2);
        crate::module::lemma_push_all_shape(ts1, del2);
        let p2 = push_all(ts1, del2);
        crate::reverting::lemma_sort_touched_shape(p2, del2);
        let r = sort_touched(p2, del2);
        assert(apply_edit(st, again).0.tracks == r);
        assert(shape(r).len() == r.len() && shape(p2).len() == p2.len());
        assert(r =~= ts2) by {
            assert forall|x: int| 0 <= x < ts.len() implies #[trigger] r[x] == ts2[x] by {
                assert(shape(r)[x] == shape(ts)[x] && shape(ts2)[x] == shape(ts)[x]);
                assert(r[x].target == ts2[x].target);
                assert forall|y: int| 0 <= y < ts[x].channels.len() implies #[trigger] r[x].channels[y] == ts2[x].channels[y] by {
                    assert(valid_channel(ts, x, y));
                    assert(valid_channel(ts1, x, y));
                    assert(valid_channel(ts2, x, y));
                    let c = ts[x].channels[y];
                    let c1 = ts1[x].channels[y];
                    let la = located_in(xs, x, y);
                    let l2 = located_in(del2, x, y);
                    crate::deleting::lemma_touches_located_in(del2, x, y);
                    let joined = c1 + l2;
                    assert(p2[x].channels[y] == joined);
                    if coords.contains((x, y)) {
                        let k = choose|k: int| 0 <= k < coords.len() && coords[k] == (x, y);
                        assert(c1 == moved(c, start, d));
                        assert(l2 == shift_deleted(ts2[x].channels[y], start, nd));
                        if la.len() > 0 {
                            lemma_located_in_gap(xs, x, y, start, d);
                            lemma_channel_reinserted(c, la, start, d);
                            let c2 = ts2[x].channels[y];
                            vstd::seq_lib::to_multiset_len(l2);
                            vstd::seq_lib::to_multiset_len(la);
                            vstd::seq_lib::lemma_multiset_commutative(c1, l2);
                            vstd::seq_lib::lemma_multiset_commutative(c1, la);
                            let j0 = c1 + la;
                            assert(ticks_valid(joined) && ticks_valid(j0)) by {
                                assert forall|m: int| 0 <= m < j0.len() implies (#[trigger] j0[m]).tick@.1 > 0 by {
                                    if m < c1.len() {
                                        assert(j0[m] == c1[m]);
                                        assert(c1 == shift_kept(c, start, d).map_values(|e: Event| shifted_event(e, start, d)));
                                        lemma_kept_deleted(c, start, d);
                                        assert(c1[m] == shifted_event(c[m], start, d));
                                        Timespan::lemma_from_view_of(c[m].tick);
                                        if !less_value(c[m].tick@, start@) {
                                            lemma_tick_shift(c[m].tick@, start@, d@);
                                            crate::arithmetic::lemma_add_reduced(c[m].tick@, d@);
                                            Timespan::lemma_from_view(add_view(c[m].tick@, d@));
                                        }
                                    } else {
                                        assert(j0[m] == la[m - c1.len()]);
                                    }
                                }
                                assert forall|m: int| 0 <= m < joined.len() implies (#[trigger] joined[m]).tick@.1 > 0 by {
                                    assert(joined.to_multiset() == j0.to_multiset());
                                    assert(joined.to_multiset().count(joined[m]) > 0);
                                    assert(j0.contains(joined[m]));
                                }
                            }
                            lemma_sort_events(joined);
                            lemma_sort_events(j0);
                            assert(ticks_valid(c2)) by {
                                assert forall|m: int| 0 <= m < c2.len() implies (#[trigger] c2[m]).tick@.1 > 0 by {
                                    assert(c2.to_multiset().count(c2[m]) > 0);
                                    assert(j0.contains(c2[m]));
                                }
                            }
                            crate::deleting::lemma_sorted_unique(sort_events_spec(joined), c2);
                        } else {
                            lemma_kept_deleted(c1, start, nd);
                            assert(l2.len() == 0);
                            assert(joined =~= c1);
                        }
                    } else {
                        assert(l2 =~= Seq::<Event>::empty());
                        assert(joined =~= c1);
                    }
                }
                assert(r[x].channels =~= ts2[x].channels);
            }
        }
        assert(apply_edit(st, again).0 =~= st1);
    }
}

/// A shift by zero from a nonnegative start keeps every event where it is.
proof fn lemma_zero_shift_channel(c: Seq<Event>, start: Timespan, d: Timespan)
    requires
        d@ == zero_view(),
        !less_value(start@, zero_view()),
        start@.1 > 0,
        ticks_reduced(c),
    ensures
        shift_ok(c, start, d),
        shift_deleted(c, start, d).len() == 0,
        moved(c, start, d) == c,
{
    lemma_all_kept(c, start, d);
    assert forall|i: int| 0 <= i < c.len() implies #[trigger] shifted_event(c[i], start, d) == c[i]
        && (!less_value(c[i].tick@, start@) ==> add_ok(c[i].tick@, d@)) by {
        let t = c[i].tick@;
        crate::arithmetic::lemma_add_zero(t);
        Timespan::lemma_from_view_of(c[i].tick);
        if !less_value(t, start@) {
            lemma_le_trans(zero_view(), start@, t);
        }
    }
    assert(moved(c, start, d) =~= c);
}

/// Shifting the events of distinct channels by zero from a nonnegative
/// start changes nothing, and its inverse is the shift itself: undo and
/// redo give back the state.
pub proof fn lemma_zero_shift_reverted<P>(st: ModuleState<P>, coords: Seq<(int, int)>, start: Timespan, d: Timespan)
    requires
        coords_distinct(st.tracks, coords),
        d@ == zero_view(),
        is_reduced(start@),
        !less_value(start@, zero_view()),
        forall|k: int| 0 <= k < coords.len() ==> ticks_reduced(st.tracks[(#[trigger] coords[k]).0].channels[coords[k].1]),
    ensures
        ({
            let e = EditView::<P>::ShiftEvents { channels: coords, start, distance: d, insert: Seq::empty() };
            &&& edit_ok(st, e)
            &&& apply_edit(st, e).0 == st
            &&& apply_edit(st, e).1 == e
        }),
{
    let ts = st.tracks;
    let e = EditView::<P>::ShiftEvents { channels: coords, start, distance: d, insert: Seq::empty() };
    assert forall|k: int| 0 <= k < coords.len() implies {
        let ch = ts[(#[trigger] coords[k]).0].channels[coords[k].1];
        &&& shift_ok(ch, start, d)
        &&& shift_deleted(ch, start, d).len() == 0
        &&& moved(ch, start, d) == ch
    } by {
        lemma_zero_shift_channel(ts[coords[k].0].channels[coords[k].1], start, d);
    }
    lemma_shift_all_distinct(ts, coords, start, d);
    let (ts1, del) = shift_all(ts, coords, start, d);
    assert(del =~= Seq::<LocatedEvent>::empty());
    assert(ts1 =~= ts) by {
        assert forall|x: int| 0 <= x < ts.len() implies #[trigger] ts1[x] == ts[x] by {
            assert forall|y: int| 0 <= y < ts[x].channels.len() implies #[trigger] ts1[x].channels[y] == ts[x].channels[y] by {
                assert(valid_channel(ts, x, y));
                if coords.contains((x, y)) {
                    let k = choose|k: int| 0 <= k < coords.len() && coords[k] == (x, y);
                }
            }
            assert(ts1[x].channels =~= ts[x].channels);
        }
    }
    assert(edit_ok(st, e)) by {
        assert(located_valid(ts, Seq::<LocatedEvent>::empty()));
    }
    assert(push_all(ts1, Seq::empty()) == ts1);
    lemma_sort_touched_empty(ts1);
    assert(apply_edit(st, e).0 =~= st);
    assert(neg_view(d@) == d@);
    Timespan::lemma_from_view_of(d);
}

} // verus!
