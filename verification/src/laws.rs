//! What holds of pushing and popping whatever the state, stated over the
//! model and proved once.

use crate::model::{
    at_key, distinct_keys, has_key, is_merge_of, is_min_key, lemma_keys_finite,
    lemma_keys_insert, lemma_keys_without, merged, without_key, EventModel, Pending, Row,
    TimeKey,
};
use vstd::prelude::*;

verus! {

/// Merging one more event appends its rows.
proof fn lemma_merged_push(order: Seq<EventModel>, e: EventModel)
    ensures
        merged(order.push(e)) == merged(order) + e.1,
{
    broadcast use Seq::lemma_flatten_push;
    assert(order.push(e).map_values(|x: EventModel| x.1) =~= order.map_values(
        |x: EventModel| x.1,
    ).push(e.1));
}

/// The rows of a merge are those of one of its events and those of the rest.
proof fn lemma_rows_without(order: Seq<EventModel>, i: int)
    requires
        0 <= i < order.len(),
    ensures
        merged(order).to_multiset() == merged(order.remove(i)).to_multiset().add(
            order[i].1.to_multiset(),
        ),
    decreases order.len(),
{
    broadcast use vstd::seq_lib::lemma_multiset_commutative;
    broadcast use vstd::multiset::group_multiset_axioms;
    let front = order.drop_last();
    let last = order.last();
    assert(order =~= front.push(last));
    lemma_merged_push(front, last);
    if i == order.len() - 1 {
        assert(order.remove(i) =~= front);
    } else {
        lemma_rows_without(front, i);
        assert(order.remove(i) =~= front.remove(i).push(last));
        lemma_merged_push(front.remove(i), last);
        assert(merged(order).to_multiset() =~= merged(order.remove(i)).to_multiset().add(
            order[i].1.to_multiset(),
        ));
    }
}

/// Two orders of the same events merge to the same rows, up to order.
proof fn lemma_rows_permute(a: Seq<EventModel>, b: Seq<EventModel>)
    requires
        a.to_multiset() == b.to_multiset(),
    ensures
        merged(a).to_multiset() == merged(b).to_multiset(),
    decreases a.len(),
{
    broadcast use vstd::seq_lib::group_to_multiset_ensures;
    broadcast use vstd::seq_lib::lemma_multiset_commutative;
    broadcast use vstd::multiset::group_multiset_axioms;
    if a.len() == 0 {
        vstd::seq_lib::to_multiset_len(a);
        vstd::seq_lib::to_multiset_len(b);
        assert(a =~= b);
    } else {
        let front = a.drop_last();
        let last = a.last();
        assert(a =~= front.push(last));
        assert(a.contains(last));
        assert(b.to_multiset().count(last) > 0);
        let i = choose|i: int| 0 <= i < b.len() && b[i] == last;
        assert(b.remove(i).to_multiset() =~= front.to_multiset());
        lemma_rows_permute(front, b.remove(i));
        lemma_rows_without(b, i);
        lemma_merged_push(front, last);
    }
}

/// Every row of a merge is a row of one of the merged events.
proof fn lemma_row_origin(order: Seq<EventModel>, row: Row)
    requires
        merged(order).contains(row),
    ensures
        exists|k: int, i: int|
            0 <= k < order.len() && 0 <= i < order[k].1.len() && #[trigger] order[k].1[i] == row,
    decreases order.len(),
{
    if order.len() == 0 {
        assert(order.map_values(|x: EventModel| x.1) =~= Seq::<Seq<Row>>::empty());
        assert(merged(order) =~= Seq::<Row>::empty());
    } else {
        let front = order.drop_last();
        let last = order.last();
        assert(order =~= front.push(last));
        lemma_merged_push(front, last);
        let at = choose|at: int| 0 <= at < merged(order).len() && merged(order)[at] == row;
        if at < merged(front).len() {
            assert(merged(front)[at] == row);
            lemma_row_origin(front, row);
            let (k, i) = choose|k: int, i: int|
                0 <= k < front.len() && 0 <= i < front[k].1.len() && #[trigger] front[k].1[i]
                    == row;
            assert(order[k].1[i] == row);
        } else {
            let i = at - merged(front).len();
            assert(order[order.len() - 1].1[i] == row);
        }
    }
}

/// The smallest pending key is unique: a pop has no choice of key.
pub proof fn law_min_key_unique(events: Pending, a: TimeKey, b: TimeKey)
    requires
        is_min_key(events, a),
        is_min_key(events, b),
    ensures
        a == b,
{
}

/// Monotonic drain: of two pops in a row the second never delivers a smaller
/// key than the first, whatever was pushed between them, as long as no push
/// went back before the key that the first had delivered. Where every push
/// between them was for a later key, or none was made, the second key is
/// strictly greater.
pub proof fn law_drain_is_monotonic(
    events: Pending,
    first: TimeKey,
    pushed: Pending,
    second: TimeKey,
)
    requires
        is_min_key(events, first),
        forall|e: EventModel| pushed.count(e) > 0 ==> first <= e.0,
        is_min_key(without_key(events, first).add(pushed), second),
    ensures
        first <= second,
        (forall|e: EventModel| pushed.count(e) > 0 ==> first < e.0) ==> first < second,
{
    broadcast use vstd::multiset::group_multiset_axioms;
    let rest = without_key(events, first);
    let batch = choose|batch: Seq<Row>| #[trigger] rest.add(pushed).count((second, batch)) > 0;
    if pushed.count((second, batch)) == 0 {
        assert(rest.count((second, batch)) > 0);
        assert(events.count((second, batch)) > 0);
        assert(has_key(events, second));
    }
}

/// A pop takes the events of its key whole: none of that key stays behind,
/// and what stays and what leaves make up what was pending.
pub proof fn law_group_leaves_whole(events: Pending, key: TimeKey)
    ensures
        !has_key(without_key(events, key), key),
        at_key(without_key(events, key), key) == Pending::empty(),
        without_key(events, key).add(at_key(events, key)) == events,
{
    broadcast use vstd::multiset::group_multiset_axioms;
    assert(at_key(without_key(events, key), key) =~= Pending::empty());
    assert(without_key(events, key).add(at_key(events, key)) =~= events);
}

/// Whatever order a pop merges a group in, it delivers the same rows, each
/// as often.
pub proof fn law_merges_agree(first: Seq<Row>, second: Seq<Row>, group: Pending)
    requires
        is_merge_of(first, group),
        is_merge_of(second, group),
    ensures
        first.to_multiset() == second.to_multiset(),
{
    let a = choose|a: Seq<EventModel>| #[trigger] a.to_multiset() == group && first == merged(a);
    let b = choose|b: Seq<EventModel>| #[trigger] b.to_multiset() == group && second == merged(b);
    lemma_rows_permute(a, b);
}

/// A merge delivers every row of every event of its group.
pub proof fn law_merge_holds_every_row(rows: Seq<Row>, group: Pending, e: EventModel, i: int)
    requires
        is_merge_of(rows, group),
        group.count(e) > 0,
        0 <= i < e.1.len(),
    ensures
        rows.contains(e.1[i]),
{
    broadcast use vstd::seq_lib::group_to_multiset_ensures;
    broadcast use vstd::multiset::group_multiset_axioms;
    let order = choose|order: Seq<EventModel>| #[trigger]
        order.to_multiset() == group && rows == merged(order);
    assert(order.contains(e));
    let k = choose|k: int| 0 <= k < order.len() && order[k] == e;
    lemma_rows_without(order, k);
    assert(e.1.contains(e.1[i]));
    assert(e.1.to_multiset().count(e.1[i]) > 0);
    assert(rows.to_multiset().count(e.1[i]) > 0);
}

/// A merge delivers no row but those of the events of its group.
pub proof fn law_merge_holds_no_other_row(rows: Seq<Row>, group: Pending, row: Row)
    requires
        is_merge_of(rows, group),
        rows.contains(row),
    ensures
        exists|e: EventModel, i: int|
            #![trigger group.count(e), e.1[i]]
            group.count(e) > 0 && 0 <= i < e.1.len() && e.1[i] == row,
{
    broadcast use vstd::seq_lib::group_to_multiset_ensures;
    let order = choose|order: Seq<EventModel>| #[trigger]
        order.to_multiset() == group && rows == merged(order);
    lemma_row_origin(order, row);
    let (k, i) = choose|k: int, i: int|
        0 <= k < order.len() && 0 <= i < order[k].1.len() && #[trigger] order[k].1[i] == row;
    assert(order.contains(order[k]));
    assert(group.count(order[k]) > 0);
    assert(order[k].1[i] == row);
}

/// Where a single event carries the popped key, the pop delivers exactly
/// its rows, in their order.
pub proof fn law_single_event_merge(rows: Seq<Row>, e: EventModel)
    requires
        is_merge_of(rows, Pending::singleton(e)),
    ensures
        rows == e.1,
{
    broadcast use vstd::seq_lib::group_to_multiset_ensures;
    broadcast use vstd::multiset::group_multiset_axioms;
    let order = choose|order: Seq<EventModel>| #[trigger]
        order.to_multiset() == Pending::singleton(e) && rows == merged(order);
    assert(order.to_multiset().len() == 1);
    assert(order.contains(order[0]));
    assert(order[0] == e);
    assert(order.map_values(|x: EventModel| x.1) =~= seq![e.1]);
    seq![e.1].lemma_flatten_one_element();
}

/// Events of pairwise distinct keys count as many distinct keys as there are
/// events.
pub proof fn law_distinct_keys_count(events: Seq<EventModel>)
    requires
        forall|i: int, j: int| 0 <= i < j < events.len() ==> events[i].0 != events[j].0,
    ensures
        distinct_keys(events.to_multiset()).finite(),
        distinct_keys(events.to_multiset()).len() == events.len(),
    decreases events.len(),
{
    broadcast use vstd::seq_lib::group_to_multiset_ensures;
    broadcast use vstd::multiset::group_multiset_axioms;
    lemma_keys_finite(events.to_multiset());
    if events.len() == 0 {
        assert(distinct_keys(events.to_multiset()) =~= Set::<TimeKey>::empty());
    } else {
        let front = events.drop_last();
        let last = events.last();
        assert(events =~= front.push(last));
        law_distinct_keys_count(front);
        lemma_keys_insert(front.to_multiset(), last.0, last.1);
        assert((last.0, last.1) == last);
        if has_key(front.to_multiset(), last.0) {
            let batch = choose|batch: Seq<Row>| #[trigger]
                front.to_multiset().count((last.0, batch)) > 0;
            assert(front.contains((last.0, batch)));
            let i = choose|i: int| 0 <= i < front.len() && front[i] == (last.0, batch);
            assert(events[i].0 == events[events.len() - 1].0);
        }
        assert(!distinct_keys(front.to_multiset()).contains(last.0));
    }
}

/// A push raises the count of distinct keys by one for a key that was not
/// pending, and leaves it for one that was.
pub proof fn law_push_counts_a_key_once(events: Pending, key: TimeKey, batch: Seq<Row>)
    ensures
        distinct_keys(events.insert((key, batch))).len() == distinct_keys(events).len() + (if has_key(
            events,
            key,
        ) {
            0nat
        } else {
            1nat
        }),
{
    lemma_keys_finite(events);
    lemma_keys_insert(events, key, batch);
}

/// A pop lowers the count of distinct keys by exactly one.
pub proof fn law_pop_counts_one_key(events: Pending, key: TimeKey)
    requires
        has_key(events, key),
    ensures
        distinct_keys(without_key(events, key)).len() + 1 == distinct_keys(events).len(),
{
    lemma_keys_finite(events);
    lemma_keys_without(events, key);
}

/// Nothing is pending exactly where no key is pending.
pub proof fn law_empty_iff_no_keys(events: Pending)
    ensures
        events.len() == 0 <==> distinct_keys(events).len() == 0,
{
    broadcast use vstd::multiset::group_multiset_axioms;
    lemma_keys_finite(events);
    if events.len() == 0 {
        assert forall|key: TimeKey| !has_key(events, key) by {
            if has_key(events, key) {
                let batch = choose|batch: Seq<Row>| #[trigger] events.count((key, batch)) > 0;
                assert(events.count((key, batch)) <= events.len());
            }
        }
        assert(distinct_keys(events) =~= Set::<TimeKey>::empty());
    } else {
        let e = events.choose();
        assert(events.count((e.0, e.1)) > 0);
        assert(distinct_keys(events).contains(e.0));
    }
}

} // verus!
