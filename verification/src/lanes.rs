//! The scan for the lanes that still have pending rows.

use crate::heap::EventHeap;
use crate::model::{has_lane, lane, lanes, strictly_ascending, EventModel, Row};
use std::collections::BTreeSet;
use vstd::prelude::*;
use vstd::std_specs::cmp::OrdSpec;
use vstd::std_specs::iter::IteratorSpec;

verus! {

/// Some row among the first `upto` rows of `batch` is on lane `l`.
spec fn lane_among_rows(batch: Seq<Row>, upto: int, l: usize) -> bool {
    exists|j: int| 0 <= j < upto && lane(#[trigger] batch[j]) == l
}

/// Some row of the first `upto` events of `layout` is on lane `l`.
spec fn lane_among_events(layout: Seq<EventModel>, upto: int, l: usize) -> bool {
    exists|i: int|
        0 <= i < upto && #[trigger] lane_among_rows(layout[i].1, layout[i].1.len() as int, l)
}

/// The lanes of a layout are the lanes of the events it holds.
proof fn lemma_lanes_of_layout(layout: Seq<EventModel>, l: usize)
    ensures
        has_lane(layout.to_multiset(), l) <==> lane_among_events(layout, layout.len() as int, l),
{
    broadcast use vstd::seq_lib::group_to_multiset_ensures;
    let events = layout.to_multiset();
    if has_lane(events, l) {
        let (e, j) = choose|e: EventModel, j: int|
            #![trigger events.count(e), e.1[j]]
            events.count(e) > 0 && 0 <= j < e.1.len() && lane(e.1[j]) == l;
        assert(layout.contains(e));
        let i = choose|i: int| 0 <= i < layout.len() && layout[i] == e;
        assert(lane_among_rows(layout[i].1, layout[i].1.len() as int, l));
    }
    if lane_among_events(layout, layout.len() as int, l) {
        let i = choose|i: int|
            0 <= i < layout.len() && #[trigger] lane_among_rows(
                layout[i].1,
                layout[i].1.len() as int,
                l,
            );
        let j = choose|j: int| 0 <= j < layout[i].1.len() && lane(#[trigger] layout[i].1[j]) == l;
        assert(layout.contains(layout[i]));
        assert(events.count(layout[i]) > 0);
        assert(lane(layout[i].1[j]) == l);
    }
}

/// Extending the rows looked at by one adds the lane of that row.
proof fn lemma_one_more_row(batch: Seq<Row>, upto: int, l: usize)
    requires
        0 <= upto < batch.len(),
    ensures
        lane_among_rows(batch, upto + 1, l) <==> (lane_among_rows(batch, upto, l) || l == lane(
            batch[upto],
        )),
{
    if lane_among_rows(batch, upto + 1, l) {
        let k = choose|k: int| 0 <= k < upto + 1 && lane(#[trigger] batch[k]) == l;
        if k < upto {
            assert(lane_among_rows(batch, upto, l));
        }
    }
    if lane_among_rows(batch, upto, l) {
        let k = choose|k: int| 0 <= k < upto && lane(#[trigger] batch[k]) == l;
        assert(lane(batch[k]) == l);
    }
}

/// Extending the events looked at by one adds the lanes of that event.
proof fn lemma_one_more_event(layout: Seq<EventModel>, upto: int, l: usize)
    requires
        0 <= upto < layout.len(),
    ensures
        lane_among_events(layout, upto + 1, l) <==> (lane_among_events(layout, upto, l)
            || lane_among_rows(layout[upto].1, layout[upto].1.len() as int, l)),
{
    if lane_among_events(layout, upto + 1, l) {
        let k = choose|k: int|
            0 <= k < upto + 1 && #[trigger] lane_among_rows(
                layout[k].1,
                layout[k].1.len() as int,
                l,
            );
        if k < upto {
            assert(lane_among_events(layout, upto, l));
        }
    }
    if lane_among_events(layout, upto, l) {
        let k = choose|k: int|
            0 <= k < upto && #[trigger] lane_among_rows(layout[k].1, layout[k].1.len() as int, l);
        assert(lane_among_rows(layout[k].1, layout[k].1.len() as int, l));
    }
}

/// The lanes of all rows stored in `store`, as a set.
pub fn pending_lanes(store: &EventHeap) -> (seen: BTreeSet<usize>)
    ensures
        seen@ == lanes(store@),
{
    let mut seen: BTreeSet<usize> = BTreeSet::new();
    let ghost layout = store.layout();
    let n: usize = store.len();
    let mut i: usize = 0;
    while i < n
        invariant
            i <= n,
            n == layout.len(),
            layout == store.layout(),
            forall|l: usize| seen@.contains(l) <==> lane_among_events(layout, i as int, l),
        decreases n - i,
    {
        let batch = store.batch_at(i);
        let rows: usize = batch.len();
        let mut j: usize = 0;
        while j < rows
            invariant
                i < n,
                n == layout.len(),
                j <= rows,
                rows == batch@.len(),
                batch@ == layout[i as int].1,
                forall|l: usize|
                    seen@.contains(l) <==> (lane_among_events(layout, i as int, l)
                        || lane_among_rows(batch@, j as int, l)),
            decreases rows - j,
        {
            seen.insert(batch[j][2]);
            proof {
                assert forall|l: usize|
                    seen@.contains(l) <==> (lane_among_events(layout, i as int, l)
                        || lane_among_rows(batch@, j + 1, l)) by {
                    lemma_one_more_row(batch@, j as int, l);
                }
            }
            j += 1;
        }
        proof {
            assert forall|l: usize|
                seen@.contains(l) <==> lane_among_events(layout, i + 1, l) by {
                lemma_one_more_event(layout, i as int, l);
            }
        }
        i += 1;
    }
    proof {
        assert forall|l: usize| seen@.contains(l) <==> lanes(store@).contains(l) by {
            lemma_lanes_of_layout(layout, l);
        }
        assert(seen@ =~= lanes(store@));
    }
    seen
}

/// The members of `seen`, smallest first.
pub fn in_ascending_order(seen: &BTreeSet<usize>) -> (out: Vec<usize>)
    ensures
        strictly_ascending(out@),
        out@.to_set() == seen@,
{
    let mut out: Vec<usize> = Vec::new();
    let ghost all = seen.iter().remaining();
    for l in it: seen.iter()
        invariant
            it.seq() == all,
            out@ == all.unref().take(it.index()),
    {
        out.push(*l);
        assert(out@ =~= all.unref().take(it.index() + 1));
    }
    proof {
        broadcast use vstd::laws_cmp::group_laws_cmp;
        assert(out@ =~= all.unref());
        vstd::std_specs::btree::axiom_increasing_seq_meaning::<&usize>(all);
        assert forall|i: int, j: int| 0 <= i < j < out@.len() implies out@[i] < out@[j] by {
            assert(OrdSpec::cmp_spec(&all[i], &all[j]) is Less);
        }
    }
    out
}

} // verus!
