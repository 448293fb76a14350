//! What undoing an edit gives back.

use vstd::prelude::*;

verus! {

use crate::module::{
    EditView, ModuleState, TrackView, Position, LocatedEvent, edit_ok, apply_edit, delete_all,
    push_all, sort_touched, positions_valid, located_valid, valid_channel, shape, located_position,
    saturating_add_signed, TrackTarget, KitEntry,
};
use crate::ordering::{ticks_valid, events_sorted};
use crate::timespan::{Timespan, is_reduced, less_value};
use crate::module::zero_view;
use crate::entry::events_strictly_sorted;
use crate::deleting::{positions_free, pattern_touches, lemma_pattern_data_reverted};
use crate::replacing::{positions_distinct, lemma_replace_reverted};
use crate::shifting::{
    coords_distinct, forward_shift, backward_shift, ticks_reduced, shift_reversible, kept_reversible, in_gap,
    lemma_shift_reverted, lemma_backward_shift_reverted, lemma_reinserting_shift_reverted, lemma_zero_shift_reverted,
};

/// No kit entry and no track refers to patch `i` or a later one.
pub open spec fn patches_below<P>(st: ModuleState<P>, i: usize) -> bool {
    &&& forall|k: int| 0 <= k < st.kit.len() ==> (#[trigger] st.kit[k]).patch_index < i
    &&& forall|t: int| 0 <= t < st.tracks.len() ==>
        !((#[trigger] st.tracks[t]).target matches TrackTarget::Patch(j) && j >= i)
}

/// Edits that their inverse reverts exactly: track and channel insertion,
/// removal and retargeting, track shifts whose destination is not clamped
/// at the first track, patch removal, and patch insertion where nothing
/// refers to the inserted patch's place or a later one (removing a patch
/// renumbers the kit and the tracks, which inserting one does not).
pub open spec fn exactly_reverted<P>(st: ModuleState<P>, e: EditView<P>) -> bool {
    match e {
        EditView::InsertTrack(..) => true,
        EditView::RemoveTrack(..) => true,
        EditView::ShiftTrack(i, o) => i + o >= 0,
        EditView::RemapTrack(..) => true,
        EditView::AddChannel(..) => true,
        EditView::RemoveChannel(..) => true,
        EditView::InsertPatch(i, _) => patches_below(st, i),
        EditView::RemovePatch(..) => true,
        _ => false,
    }
}

/// Sorting the touched channels keeps the number of channels of each track.
pub(crate) proof fn lemma_sort_touched_shape(ts: Seq<TrackView>, adds: Seq<LocatedEvent>)
    ensures
        shape(sort_touched(ts, adds)) == shape(ts),
        forall|x: int, y: int| valid_channel(sort_touched(ts, adds), x, y) <==> valid_channel(ts, x, y),
{
    assert(shape(sort_touched(ts, adds)) =~= shape(ts));
}

/// Valid channels depend on the shape alone.
proof fn lemma_same_shape_valid(a: Seq<TrackView>, b: Seq<TrackView>)
    requires
        shape(a) == shape(b),
    ensures
        forall|x: int, y: int| valid_channel(a, x, y) <==> valid_channel(b, x, y),
{
    assert(a.len() == shape(a).len());
    assert(b.len() == shape(b).len());
    assert forall|x: int, y: int| valid_channel(a, x, y) <==> valid_channel(b, x, y) by {
        if 0 <= x < a.len() {
            assert(shape(a)[x] == a[x].channels.len() as int);
            assert(shape(b)[x] == b[x].channels.len() as int);
        }
    }
}

/// Removing a patch that no kit entry refers to, nor any later one, leaves
/// the kit as it is.
proof fn lemma_kit_removal_below(kit: Seq<KitEntry>, i: usize)
    requires
        forall|k: int| 0 <= k < kit.len() ==> (#[trigger] kit[k]).patch_index < i,
    ensures
        crate::module::kit_after_patch_removal(kit, i) == kit,
    decreases kit.len(),
{
    if kit.len() > 0 {
        let q = kit.drop_last();
        assert forall|k: int| 0 <= k < q.len() implies (#[trigger] q[k]).patch_index < i by {
            assert(q[k] == kit[k]);
        }
        lemma_kit_removal_below(q, i);
        assert(kit[kit.len() - 1].patch_index < i);
        assert(q.push(kit.last()) =~= kit);
    }
}

/// The events that `delete_all` removes are located in channels of `ts`.
pub(crate) proof fn lemma_delete_all_located(ts: Seq<TrackView>, ps: Seq<Position>)
    requires
        positions_valid(ts, ps),
    ensures
        located_valid(ts, delete_all(ts, ps).1),
    decreases ps.len(),
{
    if ps.len() > 0 {
        let q = ps.drop_last();
        assert(positions_valid(ts, q)) by {
            assert forall|i: int| 0 <= i < q.len() implies valid_channel(ts, #[trigger] q[i].track as int, q[i].channel as int) by {
                assert(q[i] == ps[i]);
            }
        }
        lemma_delete_all_located(ts, q);
        let p = ps.last();
        assert(valid_channel(ts, p.track as int, p.channel as int)) by {
            assert(ps[ps.len() - 1] == p);
        }
    }
}

/// An edit applied to a state yields an inverse edit that applies to the
/// new state, so that an undo following any such edit is defined (for
/// shifts of event times, see `shifting`); and for the edits of
/// `exactly_reverted`,
/// applying the inverse gives back the state before the edit, and the
/// inverse of the inverse does to that state what the edit did, so that a
/// redo after the undo repeats the edit; but for patch insertion (whose
/// inverse of the inverse also restores the kit and the targets) it is the
/// edit itself.
pub proof fn lemma_edit_inverse<P>(st: ModuleState<P>, e: EditView<P>)
    requires
        st.tracks.len() <= usize::MAX,
        edit_ok(st, e),
        !(e is ShiftEvents),
        e is ShiftTrack ==> exactly_reverted(st, e),
    ensures
        edit_ok(apply_edit(st, e).0, apply_edit(st, e).1),
        exactly_reverted(st, e) ==> apply_edit(apply_edit(st, e).0, apply_edit(st, e).1).0 == st,
        exactly_reverted(st, e) ==> apply_edit(st, apply_edit(apply_edit(st, e).0, apply_edit(st, e).1).1).0
            == apply_edit(st, e).0,
        exactly_reverted(st, e) && !(e is InsertPatch) ==> apply_edit(apply_edit(st, e).0, apply_edit(st, e).1).1 == e,
{
    let ts = st.tracks;
    let (st1, inv) = apply_edit(st, e);
    let st2 = apply_edit(st1, inv).0;
    match e {
        EditView::InsertTrack(i, t) => {
            assert(st1.tracks.remove(i as int) =~= ts);
            assert(st2 =~= st);
        },
        EditView::RemoveTrack(i) => {
            assert(st1.tracks.insert(i as int, ts[i as int]) =~= ts);
            assert(st2 =~= st);
        },
        EditView::ShiftTrack(i, o) => {
            let dst = saturating_add_signed(i, o);
            let x = ts[i as int];
            let u = ts.remove(i as int).insert(dst as int, x);
            assert(u[dst as int] == x);
            assert(dst == i + o);
            assert((-o) as isize == -o);
            assert(saturating_add_signed(dst, (-o) as isize) == i);
            assert(u.remove(dst as int) =~= ts.remove(i as int));
            assert(u.remove(dst as int).insert(i as int, x) =~= ts);
            assert(st2 =~= st);
        },
        EditView::RemapTrack(i, target) => {
            let t1 = st1.tracks[i as int];
            assert(t1.channels == ts[i as int].channels);
            assert(st1.tracks.update(i as int, TrackView { target: ts[i as int].target, channels: t1.channels }) =~= ts);
            assert(st2 =~= st);
        },
        EditView::AddChannel(i, c) => {
            let t1 = st1.tracks[i as int];
            assert(t1.channels.len() > 0);
            assert(t1.channels.drop_last() =~= ts[i as int].channels);
            assert(st1.tracks.update(i as int, TrackView { target: t1.target, channels: t1.channels.drop_last() }) =~= ts);
            assert(st2 =~= st);
        },
        EditView::RemoveChannel(i) => {
            let t1 = st1.tracks[i as int];
            assert(t1.channels.push(ts[i as int].channels.last()) =~= ts[i as int].channels);
            assert(st1.tracks.update(i as int, TrackView { target: t1.target, channels: t1.channels.push(ts[i as int].channels.last()) }) =~= ts);
            assert(st2 =~= st);
        },
        EditView::PatternData { remove, add } => {
            let (ts1, deleted) = delete_all(ts, remove);
            crate::module::lemma_delete_all_shape(ts, remove);
            lemma_delete_all_located(ts, remove);
            lemma_same_shape_valid(ts1, ts);
            assert(located_valid(ts1, add));
            crate::module::lemma_push_all_shape(ts1, add);
            lemma_sort_touched_shape(push_all(ts1, add), add);
            let ts2 = st1.tracks;
            lemma_same_shape_valid(ts2, ts);
            let ps = add.map_values(|a: LocatedEvent| located_position(a));
            assert forall|k: int| 0 <= k < ps.len() implies valid_channel(ts2, #[trigger] ps[k].track as int, ps[k].channel as int) by {
                assert(valid_channel(ts1, add[k].track as int, add[k].channel as int));
            }
            assert forall|k: int| 0 <= k < deleted.len() implies valid_channel(ts2, #[trigger] deleted[k].track as int, deleted[k].channel as int) by {
                assert(valid_channel(ts, deleted[k].track as int, deleted[k].channel as int));
            }
        },
        EditView::InsertPatch(i, p) => {
            if patches_below(st, i) {
                assert(st1.patches.remove(i as int) =~= st.patches);
                lemma_kit_removal_below(st.kit, i);
                assert forall|t: int| 0 <= t < ts.len() implies
                    crate::module::target_after_patch_removal((#[trigger] ts[t]).target, i) == ts[t].target by {}
                assert(st2.tracks =~= ts);
                assert(st2 =~= st);
                let again = apply_edit(st1, inv).1;
                assert(apply_edit(st, again).0.tracks =~= st1.tracks);
                assert(apply_edit(st, again).0 =~= st1);
            }
        },
        EditView::RemovePatch(i) => {
            assert(st1.patches.insert(i as int, st.patches[i as int]) =~= st.patches);
            assert(st2.tracks =~= ts);
            assert(st2 =~= st);
        },
        EditView::RestorePatch { .. } => {},
        EditView::ShiftEvents { .. } => {},
        EditView::ReplaceEvents(_) => {},
    }
}

/// `b` gives back the tracks `a`: the same targets and channels, each
/// channel with the same events, and each the same as before unless
/// `touched` names it and its events are in order.
pub open spec fn tracks_restored(a: Seq<TrackView>, b: Seq<TrackView>, touched: spec_fn(int, int) -> bool) -> bool {
    &&& b.len() == a.len()
    &&& forall|x: int| 0 <= x < a.len() ==> (#[trigger] b[x]).target == a[x].target
        && b[x].channels.len() == a[x].channels.len()
    &&& forall|x: int, y: int| valid_channel(a, x, y) ==>
        (#[trigger] b[x].channels[y]).to_multiset() == a[x].channels[y].to_multiset()
        && (b[x].channels[y] == a[x].channels[y] || (touched(x, y) && events_sorted(b[x].channels[y])))
}

/// Tracks given back whose touched channels were in strict order of
/// position, with valid ticks, are the tracks themselves.
pub proof fn lemma_restored_exact(a: Seq<TrackView>, b: Seq<TrackView>, touched: spec_fn(int, int) -> bool)
    requires
        tracks_restored(a, b, touched),
        forall|x: int, y: int| valid_channel(a, x, y) && touched(x, y) ==>
            events_strictly_sorted(#[trigger] a[x].channels[y]) && ticks_valid(a[x].channels[y]),
    ensures
        b == a,
{
    assert forall|x: int| 0 <= x < a.len() implies #[trigger] b[x] == a[x] by {
        assert forall|y: int| 0 <= y < a[x].channels.len() implies #[trigger] b[x].channels[y] == a[x].channels[y] by {
            assert(valid_channel(a, x, y));
            if b[x].channels[y] != a[x].channels[y] {
                crate::deleting::lemma_sorted_unique(b[x].channels[y], a[x].channels[y]);
            }
        }
        assert(b[x].channels =~= a[x].channels);
    }
    assert(b =~= a);
}

/// Tracks are given back when they are the same.
proof fn lemma_restored_same(a: Seq<TrackView>, touched: spec_fn(int, int) -> bool)
    ensures
        tracks_restored(a, a, touched),
{
}

/// The channels whose events an edit deletes, moves or adds: those that a
/// pattern data edit names or adds to, and those that a shift shifts.
pub open spec fn edit_touches<P>(e: EditView<P>, x: int, y: int) -> bool {
    match e {
        EditView::PatternData { remove, add } => pattern_touches(remove, add, x, y),
        EditView::ShiftEvents { channels, .. } => channels.contains((x, y)),
        _ => false,
    }
}

/// Every channel that `e` touches holds events in strict order of
/// position, with valid ticks.
pub open spec fn touched_ordered<P>(st: ModuleState<P>, e: EditView<P>) -> bool {
    forall|x: int, y: int| valid_channel(st.tracks, x, y) && edit_touches(e, x, y) ==>
        events_strictly_sorted(#[trigger] st.tracks[x].channels[y]) && ticks_valid(st.tracks[x].channels[y])
}

/// A shift later of the channels `coords` whose moves can be reversed
/// exactly.
pub open spec fn forward_reversible(ts: Seq<TrackView>, coords: Seq<(int, int)>, start: Timespan, d: Timespan) -> bool {
    &&& forward_shift(start, d)
    &&& forall|k: int| 0 <= k < coords.len() ==> shift_reversible(ts[(#[trigger] coords[k]).0].channels[coords[k].1], start, d)
}

/// A shift earlier of the channels `coords`, whose ticks are valid, whose
/// moves can be reversed exactly.
pub open spec fn backward_reversible(ts: Seq<TrackView>, coords: Seq<(int, int)>, start: Timespan, d: Timespan) -> bool {
    &&& backward_shift(start, d)
    &&& forall|k: int| 0 <= k < coords.len() ==> kept_reversible(ts[(#[trigger] coords[k]).0].channels[coords[k].1], start, d)
        && ticks_valid(ts[coords[k].0].channels[coords[k].1])
}

/// Events that go back into shifted channels, in the span that a shift
/// later by `d` from `start` opens.
pub open spec fn reinsert_in_gap(ts: Seq<TrackView>, coords: Seq<(int, int)>, start: Timespan, d: Timespan, insert: Seq<LocatedEvent>) -> bool {
    &&& located_valid(ts, insert)
    &&& forall|i: int| 0 <= i < insert.len() ==> coords.contains(((#[trigger] insert[i]).track as int, insert[i].channel as int))
        && in_gap(insert[i].event, start, d)
}

/// A shift by zero from a nonnegative start.
pub open spec fn zero_shift(start: Timespan, d: Timespan) -> bool {
    &&& d@ == zero_view()
    &&& is_reduced(start@)
    &&& !less_value(start@, zero_view())
}

/// A shift that also puts events back.
pub open spec fn puts_back<P>(e: EditView<P>) -> bool {
    match e {
        EditView::ShiftEvents { insert, .. } => insert.len() > 0,
        _ => false,
    }
}

/// Edits whose undo gives the state back: those of `exactly_reverted`;
/// pattern data edits whose touched channels and added events have valid
/// ticks, with no event left at the added events' positions once the
/// deletion is done; shifts of distinct channels, later or earlier, whose
/// moves can be reversed exactly, a later one possibly putting events back
/// into the span it opens, or by zero from a nonnegative start; and
/// replacements at distinct positions.
pub open spec fn undo_restores<P>(st: ModuleState<P>, e: EditView<P>) -> bool {
    let ts = st.tracks;
    match e {
        EditView::PatternData { remove, add } => {
            &&& positions_valid(ts, remove)
            &&& located_valid(ts, add)
            &&& forall|x: int, y: int| valid_channel(ts, x, y) && pattern_touches(remove, add, x, y) ==>
                ticks_valid(#[trigger] ts[x].channels[y])
            &&& forall|k: int| 0 <= k < add.len() ==> (#[trigger] add[k]).event.tick@.1 > 0
            &&& positions_free(delete_all(ts, remove).0, add)
        },
        EditView::ShiftEvents { channels, start, distance, insert } => {
            &&& coords_distinct(ts, channels)
            &&& forall|k: int| 0 <= k < channels.len() ==> ticks_reduced(ts[(#[trigger] channels[k]).0].channels[channels[k].1])
            &&& if insert.len() == 0 {
                ||| forward_reversible(ts, channels, start, distance)
                ||| backward_reversible(ts, channels, start, distance)
                ||| zero_shift(start, distance)
            } else {
                forward_reversible(ts, channels, start, distance) && reinsert_in_gap(ts, channels, start, distance, insert)
            }
        },
        EditView::ReplaceEvents(es) => positions_distinct(es),
        _ => exactly_reverted(st, e),
    }
}

/// Undo gives back the state: for every edit of `undo_restores`, the edit
/// applies, and its inverse applies to the new state and gives back the
/// kit, the patches, every channel the edit does not touch, and every
/// channel it touches with the same events (in order where it differs).
/// Where the touched channels hold events in strict order of position, the
/// undo gives back the state exactly, and the inverse of the inverse does to
/// it what the edit did, so that a redo repeats the edit (for a shift that
/// puts events back, where the shifted channels are in strict order after
/// the edit too).
pub proof fn lemma_undo_restores<P>(st: ModuleState<P>, e: EditView<P>)
    requires
        st.tracks.len() <= usize::MAX,
        forall|x: int| 0 <= x < st.tracks.len() ==> (#[trigger] st.tracks[x]).channels.len() <= usize::MAX,
        edit_ok(st, e),
        undo_restores(st, e),
    ensures
        ({
            let (st1, inv) = apply_edit(st, e);
            let st2 = apply_edit(st1, inv).0;
            &&& edit_ok(st1, inv)
            &&& st2.kit == st.kit
            &&& st2.patches == st.patches
            &&& tracks_restored(st.tracks, st2.tracks, |x: int, y: int| edit_touches(e, x, y))
            &&& touched_ordered(st, e) ==> st2 == st
            &&& touched_ordered(st, e) && (puts_back(e) ==> touched_ordered(st1, e)) ==>
                apply_edit(st, apply_edit(st1, inv).1).0 == st1
        }),
{
    let touched = |x: int, y: int| edit_touches(e, x, y);
    match e {
        EditView::PatternData { remove, add } => {
            lemma_pattern_data_reverted(st, remove, add);
            let st2 = apply_edit(apply_edit(st, e).0, apply_edit(st, e).1).0;
            let pt = |x: int, y: int| pattern_touches(remove, add, x, y);
            assert(tracks_restored(st.tracks, st2.tracks, pt));
            assert forall|x: int, y: int| #[trigger] touched(x, y) == pt(x, y) by {}
            assert(tracks_restored(st.tracks, st2.tracks, touched));
        },
        EditView::ShiftEvents { channels, start, distance, insert } => {
            let st2 = apply_edit(apply_edit(st, e).0, apply_edit(st, e).1).0;
            let ct = |x: int, y: int| channels.contains((x, y));
            if insert.len() > 0 {
                assert forall|k: int| 0 <= k < channels.len() implies ticks_reduced(st.tracks[(#[trigger] channels[k]).0].channels[channels[k].1])
                    && shift_reversible(st.tracks[channels[k].0].channels[channels[k].1], start, distance) by {}
                lemma_reinserting_shift_reverted(st, channels, start, distance, insert);
                assert(tracks_restored(st.tracks, st2.tracks, ct));
                assert forall|x: int, y: int| #[trigger] touched(x, y) == ct(x, y) by {}
                assert(tracks_restored(st.tracks, st2.tracks, touched));
                let st1 = apply_edit(st, e).0;
                if touched_ordered(st, e) {
                    assert forall|k: int| 0 <= k < channels.len() implies
                        events_strictly_sorted(#[trigger] st.tracks[channels[k].0].channels[channels[k].1]) by {
                        assert(valid_channel(st.tracks, channels[k].0, channels[k].1));
                        assert(channels.contains(channels[k]));
                        assert(touched(channels[k].0, channels[k].1));
                    }
                    if touched_ordered(st1, e) {
                        assert forall|k: int| 0 <= k < channels.len() implies
                            events_strictly_sorted(#[trigger] st1.tracks[channels[k].0].channels[channels[k].1]) by {
                            assert(channels.contains(channels[k]));
                            assert(touched(channels[k].0, channels[k].1));
                            assert(valid_channel(st1.tracks, channels[k].0, channels[k].1));
                        }
                    }
                }
            } else if zero_shift(start, distance) {
                assert(insert =~= Seq::<LocatedEvent>::empty());
                lemma_zero_shift_reverted(st, channels, start, distance);
                lemma_restored_same(st.tracks, touched);
            } else if forward_reversible(st.tracks, channels, start, distance) {
                assert(insert =~= Seq::<LocatedEvent>::empty());
                lemma_shift_reverted(st, channels, start, distance);
                lemma_restored_same(st.tracks, touched);
            } else {
                assert forall|k: int| 0 <= k < channels.len() implies {
                    let ch = st.tracks[(#[trigger] channels[k]).0].channels[channels[k].1];
                    &&& ticks_reduced(ch)
                    &&& kept_reversible(ch, start, distance)
                    &&& ticks_valid(ch)
                } by {
                    assert(valid_channel(st.tracks, channels[k].0, channels[k].1));
                }
                assert(insert =~= Seq::<LocatedEvent>::empty());
                lemma_backward_shift_reverted(st, channels, start, distance);
                let st2 = apply_edit(apply_edit(st, e).0, apply_edit(st, e).1).0;
                let ct = |x: int, y: int| channels.contains((x, y));
                assert(tracks_restored(st.tracks, st2.tracks, ct));
                assert forall|x: int, y: int| #[trigger] touched(x, y) == ct(x, y) by {}
                assert(tracks_restored(st.tracks, st2.tracks, touched));
                if touched_ordered(st, e) {
                    assert forall|k: int| 0 <= k < channels.len() implies
                        events_strictly_sorted(#[trigger] st.tracks[channels[k].0].channels[channels[k].1]) by {
                        assert(valid_channel(st.tracks, channels[k].0, channels[k].1));
                        assert(channels.contains(channels[k]));
                        assert(touched(channels[k].0, channels[k].1));
                    }
                }
            }
        },
        EditView::ReplaceEvents(es) => {
            lemma_replace_reverted(st, es);
            lemma_restored_same(st.tracks, touched);
        },
        _ => {
            lemma_edit_inverse(st, e);
            lemma_restored_same(st.tracks, touched);
        },
    }
}

} // verus!
