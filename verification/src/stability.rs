//! The events at one position: sorting keeps their order, and deleting at
//! the position takes the first of them.

use vstd::prelude::*;

verus! {

use crate::module::{Event, event_is_at, event_key_le, first_event_at, insert_sorted, sort_events_spec, spatial_column_spec};
use crate::ordering::{ticks_valid, events_sorted, lemma_sort_events};
use crate::timespan::Timespan;
use crate::entry::{lemma_insert_split, lemma_first_event_at_result};

/// The events of `s` at `tick` in logical column `column`, in order.
pub open spec fn events_at(s: Seq<Event>, tick: Timespan, column: u8) -> Seq<Event>
    decreases s.len(),
{
    if s.len() == 0 {
        s
    } else {
        let p = events_at(s.drop_last(), tick, column);
        if event_is_at(s.last(), tick, column) { p.push(s.last()) } else { p }
    }
}

/// The events at a position of a concatenation are those of each part.
pub proof fn lemma_events_at_append(a: Seq<Event>, b: Seq<Event>, tick: Timespan, column: u8)
    ensures
        events_at(a + b, tick, column) == events_at(a, tick, column) + events_at(b, tick, column),
    decreases b.len(),
{
    if b.len() == 0 {
        assert(a + b =~= a);
        assert(events_at(a, tick, column) + events_at(b, tick, column) =~= events_at(a, tick, column));
    } else {
        lemma_events_at_append(a, b.drop_last(), tick, column);
        assert((a + b).drop_last() =~= a + b.drop_last());
        assert((a + b).last() == b.last());
        assert(events_at(a + b, tick, column) =~= events_at(a, tick, column) + events_at(b, tick, column));
    }
}

/// Where no event is at the position, none is listed there; where some
/// are, the first listed is an event of `s` at the position.
pub proof fn lemma_events_at_none(s: Seq<Event>, tick: Timespan, column: u8)
    ensures
        (forall|j: int| 0 <= j < s.len() ==> !event_is_at(#[trigger] s[j], tick, column))
            ==> events_at(s, tick, column).len() == 0,
        forall|j: int| 0 <= j < events_at(s, tick, column).len() ==>
            event_is_at(#[trigger] events_at(s, tick, column)[j], tick, column),
    decreases s.len(),
{
    if s.len() > 0 {
        lemma_events_at_none(s.drop_last(), tick, column);
        if forall|j: int| 0 <= j < s.len() ==> !event_is_at(#[trigger] s[j], tick, column) {
            assert forall|j: int| 0 <= j < s.drop_last().len() implies !event_is_at(#[trigger] s.drop_last()[j], tick, column) by {
                assert(s.drop_last()[j] == s[j]);
            }
            assert(!event_is_at(s[s.len() - 1], tick, column));
        }
        let p = events_at(s.drop_last(), tick, column);
        if event_is_at(s.last(), tick, column) {
            assert forall|j: int| 0 <= j < p.push(s.last()).len() implies
                event_is_at(#[trigger] p.push(s.last())[j], tick, column) by {
                if j < p.len() {
                    assert(p.push(s.last())[j] == p[j]);
                }
            }
        }
    }
}

/// Deleting the first event at the position removes the first of the
/// events listed there, and the first listed is the one deleted; deleting
/// an event elsewhere leaves the list alone.
pub proof fn lemma_events_at_remove(s: Seq<Event>, i: int, tick: Timespan, column: u8)
    requires
        0 <= i < s.len(),
    ensures
        event_is_at(s[i], tick, column) && i == first_event_at(s, tick, column) ==> {
            &&& events_at(s, tick, column).len() > 0
            &&& events_at(s, tick, column)[0] == s[i]
            &&& events_at(s.remove(i), tick, column) == events_at(s, tick, column).skip(1)
        },
        !event_is_at(s[i], tick, column) ==> events_at(s.remove(i), tick, column) == events_at(s, tick, column),
{
    let a = s.take(i);
    let b = s.skip(i + 1);
    let m = seq![s[i]];
    assert(s =~= a + m + b);
    assert(s.remove(i) =~= a + b);
    lemma_events_at_append(a + m, b, tick, column);
    lemma_events_at_append(a, m, tick, column);
    lemma_events_at_append(a, b, tick, column);
    assert(m.drop_last() =~= Seq::<Event>::empty());
    assert(events_at(m.drop_last(), tick, column) =~= Seq::<Event>::empty());
    assert(m.last() == s[i]);
    if event_is_at(s[i], tick, column) && i == first_event_at(s, tick, column) {
        lemma_first_event_at_result(s, tick, column);
        assert forall|j: int| 0 <= j < a.len() implies !event_is_at(#[trigger] a[j], tick, column) by {
            assert(a[j] == s[j]);
        }
        lemma_events_at_none(a, tick, column);
        assert(events_at(m, tick, column) =~= seq![s[i]]);
        assert(events_at(s, tick, column) =~= seq![s[i]] + events_at(b, tick, column));
        assert(events_at(s, tick, column).skip(1) =~= events_at(b, tick, column));
        assert(events_at(s.remove(i), tick, column) =~= events_at(b, tick, column));
    } else if !event_is_at(s[i], tick, column) {
        assert(events_at(m, tick, column) =~= Seq::<Event>::empty());
        assert(events_at(s, tick, column) =~= events_at(a, tick, column) + events_at(b, tick, column));
    }
}

/// Where some events are at the position, the first of them is found.
pub proof fn lemma_first_event_listed(s: Seq<Event>, tick: Timespan, column: u8)
    requires
        events_at(s, tick, column).len() > 0,
    ensures
        0 <= first_event_at(s, tick, column) < s.len(),
        event_is_at(s[first_event_at(s, tick, column)], tick, column),
        events_at(s, tick, column)[0] == s[first_event_at(s, tick, column)],
{
    lemma_first_event_at_result(s, tick, column);
    if first_event_at(s, tick, column) < 0 {
        lemma_events_at_none(s, tick, column);
    }
    let i = first_event_at(s, tick, column);
    lemma_events_at_remove(s, i, tick, column);
}

/// Two events at one position have the same key.
proof fn lemma_at_same_key(a: Event, b: Event, tick: Timespan, column: u8)
    requires
        event_is_at(a, tick, column),
        event_is_at(b, tick, column),
    ensures
        event_key_le(a, b),
{
    assert(spatial_column_spec(a.data) == spatial_column_spec(b.data));
}

/// Sorting is stable: the events at one position come out in the order
/// they went in.
#[verifier::rlimit(40)]
pub proof fn lemma_sort_stable(s: Seq<Event>, tick: Timespan, column: u8)
    requires
        ticks_valid(s),
    ensures
        events_at(sort_events_spec(s), tick, column) == events_at(s, tick, column),
    decreases s.len(),
{
    if s.len() > 0 {
        let t = s.drop_last();
        let e = s.last();
        assert(ticks_valid(t)) by {
            assert forall|i: int| 0 <= i < t.len() implies (#[trigger] t[i]).tick@.1 > 0 by {
                assert(t[i] == s[i]);
            }
        }
        assert(s[s.len() - 1] == e);
        lemma_sort_stable(t, tick, column);
        lemma_sort_events(t);
        let u = sort_events_spec(t);
        assert(ticks_valid(u)) by {
            broadcast use vstd::seq_lib::group_to_multiset_ensures;
            assert forall|k: int| 0 <= k < u.len() implies (#[trigger] u[k]).tick@.1 > 0 by {
                let x = u[k];
                assert(u.to_multiset().count(x) > 0);
                let m = choose|m: int| 0 <= m < t.len() && t[m] == x;
            }
        }
        let k = lemma_insert_split(u, e);
        let a = u.take(k);
        let b = u.skip(k);
        assert(u =~= a + b);
        lemma_events_at_append(a, b, tick, column);
        lemma_events_at_append(a.push(e), b, tick, column);
        assert(a.push(e).drop_last() =~= a);
        if event_is_at(e, tick, column) {
            assert forall|j: int| 0 <= j < b.len() implies !event_is_at(#[trigger] b[j], tick, column) by {
                assert(b[j] == u[k + j]);
                if event_is_at(b[j], tick, column) {
                    lemma_at_same_key(b[j], e, tick, column);
                }
            }
            lemma_events_at_none(b, tick, column);
            assert(events_at(b, tick, column) =~= Seq::<Event>::empty());
            assert(events_at(insert_sorted(u, e), tick, column) =~= events_at(a, tick, column).push(e));
            assert(events_at(u, tick, column) =~= events_at(a, tick, column));
        } else {
            assert(events_at(insert_sorted(u, e), tick, column) =~= events_at(u, tick, column));
        }
    }
}

} // verus!
