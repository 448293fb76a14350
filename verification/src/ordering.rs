//! Sorting channel events by position: the result is in order and holds
//! the same events.

use vstd::prelude::*;

verus! {

use crate::module::{Event, event_key_le, insert_sorted, sort_events_spec, insert_by_tick, sort_by_tick_spec};
use crate::timespan::{less_value, same_value};

/// Every tick has a positive denominator, as every timespan value does.
pub open spec fn ticks_valid(s: Seq<Event>) -> bool {
    forall|i: int| 0 <= i < s.len() ==> (#[trigger] s[i]).tick@.1 > 0
}

/// Events in order of position.
pub open spec fn events_sorted(s: Seq<Event>) -> bool {
    forall|i: int, j: int| 0 <= i < j < s.len() ==> event_key_le(#[trigger] s[i], #[trigger] s[j])
}

/// Any two events are ordered one way or the other.
pub(crate) proof fn lemma_key_total(a: Event, b: Event)
    requires
        a.tick@.1 > 0,
        b.tick@.1 > 0,
    ensures
        event_key_le(a, b) || event_key_le(b, a),
{
    let x = a.tick@;
    let y = b.tick@;
    if !less_value(x, y) && !less_value(y, x) {
        assert(same_value(x, y) && same_value(y, x));
    }
}

/// The order of events is transitive.
pub(crate) proof fn lemma_key_trans(a: Event, b: Event, c: Event)
    requires
        a.tick@.1 > 0,
        b.tick@.1 > 0,
        c.tick@.1 > 0,
        event_key_le(a, b),
        event_key_le(b, c),
    ensures
        event_key_le(a, c),
{
    let x = a.tick@;
    let y = b.tick@;
    let z = c.tick@;
    assert(x.0 * z.1 <= z.0 * x.1) by (nonlinear_arith)
        requires
            x.0 * y.1 <= y.0 * x.1,
            y.0 * z.1 <= z.0 * y.1,
            x.1 > 0,
            y.1 > 0,
            z.1 > 0,
    ;
    if !less_value(x, z) {
        assert(same_value(x, y) && same_value(y, z)) by (nonlinear_arith)
            requires
                x.0 * y.1 <= y.0 * x.1,
                y.0 * z.1 <= z.0 * y.1,
                x.0 * z.1 == z.0 * x.1,
                x.1 > 0,
                y.1 > 0,
                z.1 > 0,
        ;
    }
}

/// Inserting keeps the events and adds `e`.
proof fn lemma_insert_sorted_multiset(s: Seq<Event>, e: Event)
    ensures
        insert_sorted(s, e).to_multiset() == s.to_multiset().insert(e),
        insert_sorted(s, e).len() == s.len() + 1,
    decreases s.len(),
{
    broadcast use vstd::seq_lib::group_to_multiset_ensures;
    if s.len() == 0 {
        assert(seq![e] =~= Seq::<Event>::empty().push(e));
    } else if event_key_le(s.last(), e) {
    } else {
        let t = s.drop_last();
        lemma_insert_sorted_multiset(t, e);
        assert(s =~= t.push(s.last()));
        assert(insert_sorted(t, e).push(s.last()).to_multiset()
            =~= t.to_multiset().insert(e).insert(s.last()));
        assert(s.to_multiset() =~= t.to_multiset().insert(s.last()));
    }
}

/// Inserting into sorted events keeps them sorted.
proof fn lemma_insert_sorted_sorted(s: Seq<Event>, e: Event)
    requires
        events_sorted(s),
        ticks_valid(s),
        e.tick@.1 > 0,
    ensures
        events_sorted(insert_sorted(s, e)),
        ticks_valid(insert_sorted(s, e)),
    decreases s.len(),
{
    broadcast use vstd::seq_lib::group_to_multiset_ensures;
    lemma_insert_sorted_multiset(s, e);
    let r = insert_sorted(s, e);
    if s.len() == 0 {
    } else if event_key_le(s.last(), e) {
        assert forall|i: int, j: int| 0 <= i < j < r.len() implies event_key_le(#[trigger] r[i], #[trigger] r[j]) by {
            if j == s.len() {
                if i < s.len() - 1 {
                    lemma_key_trans(s[i], s.last(), e);
                }
            } else {
                assert(r[i] == s[i] && r[j] == s[j]);
            }
        }
    } else {
        let t = s.drop_last();
        assert(events_sorted(t)) by {
            assert forall|i: int, j: int| 0 <= i < j < t.len() implies event_key_le(#[trigger] t[i], #[trigger] t[j]) by {
                assert(t[i] == s[i] && t[j] == s[j]);
            }
        }
        assert(ticks_valid(t)) by {
            assert forall|i: int| 0 <= i < t.len() implies (#[trigger] t[i]).tick@.1 > 0 by {
                assert(t[i] == s[i]);
            }
        }
        lemma_insert_sorted_sorted(t, e);
        lemma_insert_sorted_multiset(t, e);
        let u = insert_sorted(t, e);
        let l = s.last();
        assert(s[s.len() - 1] == l);
        lemma_key_total(l, e);
        assert forall|k: int| 0 <= k < u.len() implies event_key_le(#[trigger] u[k], l) by {
            let x = u[k];
            assert(u.to_multiset().count(x) > 0);
            if x == e {
            } else {
                assert(t.to_multiset().count(x) > 0);
                let m = choose|m: int| 0 <= m < t.len() && t[m] == x;
                assert(s[m] == x);
            }
        }
        assert forall|i: int, j: int| 0 <= i < j < r.len() implies event_key_le(#[trigger] r[i], #[trigger] r[j]) by {
            if j == u.len() {
                assert(r[i] == u[i]);
            } else {
                assert(r[i] == u[i] && r[j] == u[j]);
            }
        }
        assert forall|k: int| 0 <= k < r.len() implies (#[trigger] r[k]).tick@.1 > 0 by {
            if k < u.len() {
                assert(r[k] == u[k]);
            }
        }
    }
    assert forall|k: int| 0 <= k < r.len() implies (#[trigger] r[k]).tick@.1 > 0 by {
        let x = r[k];
        assert(r.to_multiset().count(x) > 0);
        if x != e {
            assert(s.to_multiset().count(x) > 0);
            let m = choose|m: int| 0 <= m < s.len() && s[m] == x;
        }
    }
}

/// Sorting a channel's events puts them in order of position and keeps
/// exactly the same events.
pub proof fn lemma_sort_events(s: Seq<Event>)
    requires
        ticks_valid(s),
    ensures
        events_sorted(sort_events_spec(s)),
        sort_events_spec(s).to_multiset() == s.to_multiset(),
    decreases s.len(),
{
    broadcast use vstd::seq_lib::group_to_multiset_ensures;
    if s.len() > 0 {
        let t = s.drop_last();
        assert(ticks_valid(t)) by {
            assert forall|i: int| 0 <= i < t.len() implies (#[trigger] t[i]).tick@.1 > 0 by {
                assert(t[i] == s[i]);
            }
        }
        lemma_sort_events(t);
        let u = sort_events_spec(t);
        assert(ticks_valid(u)) by {
            assert forall|k: int| 0 <= k < u.len() implies (#[trigger] u[k]).tick@.1 > 0 by {
                let x = u[k];
                assert(u.to_multiset().count(x) > 0);
                let m = choose|m: int| 0 <= m < t.len() && t[m] == x;
            }
        }
        assert(s[s.len() - 1] == s.last());
        lemma_insert_sorted_sorted(u, s.last());
        lemma_insert_sorted_multiset(u, s.last());
        assert(s =~= t.push(s.last()));
    }
}

/// Events in order of tick.
pub open spec fn ticks_sorted(s: Seq<Event>) -> bool {
    forall|i: int, j: int| 0 <= i < j < s.len() ==> !less_value((#[trigger] s[j]).tick@, (#[trigger] s[i]).tick@)
}

/// The order of ticks is transitive.
proof fn lemma_tick_trans(a: Event, b: Event, c: Event)
    requires
        a.tick@.1 > 0,
        b.tick@.1 > 0,
        c.tick@.1 > 0,
        !less_value(b.tick@, a.tick@),
        !less_value(c.tick@, b.tick@),
    ensures
        !less_value(c.tick@, a.tick@),
{
    crate::timespan::lemma_le_trans(a.tick@, b.tick@, c.tick@);
}

/// Inserting by tick keeps the events and adds `e`.
proof fn lemma_insert_by_tick_multiset(s: Seq<Event>, e: Event)
    ensures
        insert_by_tick(s, e).to_multiset() == s.to_multiset().insert(e),
        insert_by_tick(s, e).len() == s.len() + 1,
    decreases s.len(),
{
    broadcast use vstd::seq_lib::group_to_multiset_ensures;
    if s.len() == 0 {
        assert(seq![e] =~= Seq::<Event>::empty().push(e));
    } else if !less_value(e.tick@, s.last().tick@) {
    } else {
        let t = s.drop_last();
        lemma_insert_by_tick_multiset(t, e);
        assert(s =~= t.push(s.last()));
        assert(insert_by_tick(t, e).push(s.last()).to_multiset()
            =~= t.to_multiset().insert(e).insert(s.last()));
        assert(s.to_multiset() =~= t.to_multiset().insert(s.last()));
    }
}

/// Inserting by tick into events in tick order keeps them in order.
proof fn lemma_insert_by_tick_sorted(s: Seq<Event>, e: Event)
    requires
        ticks_sorted(s),
        ticks_valid(s),
        e.tick@.1 > 0,
    ensures
        ticks_sorted(insert_by_tick(s, e)),
        ticks_valid(insert_by_tick(s, e)),
    decreases s.len(),
{
    broadcast use vstd::seq_lib::group_to_multiset_ensures;
    lemma_insert_by_tick_multiset(s, e);
    let r = insert_by_tick(s, e);
    if s.len() == 0 {
    } else if !less_value(e.tick@, s.last().tick@) {
        assert forall|i: int, j: int| 0 <= i < j < r.len() implies !less_value((#[trigger] r[j]).tick@, (#[trigger] r[i]).tick@) by {
            if j == s.len() {
                if i < s.len() - 1 {
                    lemma_tick_trans(s[i], s.last(), e);
                }
            } else {
                assert(r[i] == s[i] && r[j] == s[j]);
            }
        }
    } else {
        let t = s.drop_last();
        assert(ticks_sorted(t)) by {
            assert forall|i: int, j: int| 0 <= i < j < t.len() implies !less_value((#[trigger] t[j]).tick@, (#[trigger] t[i]).tick@) by {
                assert(t[i] == s[i] && t[j] == s[j]);
            }
        }
        assert(ticks_valid(t)) by {
            assert forall|i: int| 0 <= i < t.len() implies (#[trigger] t[i]).tick@.1 > 0 by {
                assert(t[i] == s[i]);
            }
        }
        lemma_insert_by_tick_sorted(t, e);
        lemma_insert_by_tick_multiset(t, e);
        let u = insert_by_tick(t, e);
        let l = s.last();
        assert(s[s.len() - 1] == l);
        assert forall|k: int| 0 <= k < u.len() implies !less_value(l.tick@, (#[trigger] u[k]).tick@) by {
            let x = u[k];
            assert(u.to_multiset().count(x) > 0);
            if x == e {
                assert(!less_value(l.tick@, e.tick@)) by (nonlinear_arith)
                    requires
                        e.tick@.0 * l.tick@.1 < l.tick@.0 * e.tick@.1,
                ;
            } else {
                assert(t.to_multiset().count(x) > 0);
                let m = choose|m: int| 0 <= m < t.len() && t[m] == x;
                assert(s[m] == x);
            }
        }
        assert forall|i: int, j: int| 0 <= i < j < r.len() implies !less_value((#[trigger] r[j]).tick@, (#[trigger] r[i]).tick@) by {
            if j == u.len() {
                assert(r[i] == u[i]);
            } else {
                assert(r[i] == u[i] && r[j] == u[j]);
            }
        }
    }
    assert forall|k: int| 0 <= k < r.len() implies (#[trigger] r[k]).tick@.1 > 0 by {
        let x = r[k];
        assert(r.to_multiset().count(x) > 0);
        if x != e {
            assert(s.to_multiset().count(x) > 0);
            let m = choose|m: int| 0 <= m < s.len() && s[m] == x;
        }
    }
}

/// Sorting events by tick puts them in tick order and keeps exactly the
/// same events.
pub proof fn lemma_sort_by_tick(s: Seq<Event>)
    requires
        ticks_valid(s),
    ensures
        ticks_sorted(sort_by_tick_spec(s)),
        sort_by_tick_spec(s).to_multiset() == s.to_multiset(),
    decreases s.len(),
{
    broadcast use vstd::seq_lib::group_to_multiset_ensures;
    if s.len() > 0 {
        let t = s.drop_last();
        assert(ticks_valid(t)) by {
            assert forall|i: int| 0 <= i < t.len() implies (#[trigger] t[i]).tick@.1 > 0 by {
                assert(t[i] == s[i]);
            }
        }
        lemma_sort_by_tick(t);
        let u = sort_by_tick_spec(t);
        assert(ticks_valid(u)) by {
            assert forall|k: int| 0 <= k < u.len() implies (#[trigger] u[k]).tick@.1 > 0 by {
                let x = u[k];
                assert(u.to_multiset().count(x) > 0);
                let m = choose|m: int| 0 <= m < t.len() && t[m] == x;
            }
        }
        assert(s[s.len() - 1] == s.last());
        lemma_insert_by_tick_sorted(u, s.last());
        lemma_insert_by_tick_multiset(u, s.last());
        assert(s =~= t.push(s.last()));
    }
}

} // verus!
