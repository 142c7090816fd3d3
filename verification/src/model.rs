//! The mathematical model of the scheduler: pending events as a multiset,
//! and the notions the contracts are phrased in.

use vstd::multiset::Multiset;
use vstd::prelude::*;

verus! {

/// Discrete ordering key of an event: a quantized time.
pub type TimeKey = u64;

/// One coordinate update `[i, j, lane]`. Only the lane is interpreted.
pub type Row = [usize; 3];

/// An event as contracts see it: its key and its rows in insertion order.
pub type EventModel = (TimeKey, Seq<Row>);

/// The pending events of a scheduler. Several events may share a key.
pub type Pending = Multiset<EventModel>;

/// The lane of a row: its third component.
pub open spec fn lane(row: Row) -> usize {
    row[2]
}

/// A sequence of keyed batches as a sequence of events.
pub open spec fn event_models(events: Seq<(TimeKey, Vec<Row>)>) -> Seq<EventModel> {
    events.map_values(|e: (TimeKey, Vec<Row>)| (e.0, e.1@))
}

/// Some pending event carries `key`.
pub open spec fn has_key(events: Pending, key: TimeKey) -> bool {
    exists|batch: Seq<Row>| #[trigger] events.count((key, batch)) > 0
}

/// The distinct keys among the pending events.
pub open spec fn distinct_keys(events: Pending) -> Set<TimeKey> {
    Set::new(|key: TimeKey| has_key(events, key))
}

/// `key` is pending and no pending key is smaller.
pub open spec fn is_min_key(events: Pending, key: TimeKey) -> bool {
    &&& has_key(events, key)
    &&& forall|other: TimeKey| has_key(events, other) ==> key <= other
}

/// The pending events that carry `key`.
pub open spec fn at_key(events: Pending, key: TimeKey) -> Pending {
    events.filter(|e: EventModel| e.0 == key)
}

/// The pending events that do not carry `key`.
pub open spec fn without_key(events: Pending, key: TimeKey) -> Pending {
    events.filter(|e: EventModel| e.0 != key)
}

/// The rows of the events of `order`, batch after batch.
pub open spec fn merged(order: Seq<EventModel>) -> Seq<Row> {
    order.map_values(|e: EventModel| e.1).flatten()
}

/// `rows` is the concatenation of the batches of `group`, each batch whole
/// and in its own order, the batches in some order.
pub open spec fn is_merge_of(rows: Seq<Row>, group: Pending) -> bool {
    exists|order: Seq<EventModel>| #[trigger] order.to_multiset() == group && rows == merged(order)
}

/// Some row of some pending event is on lane `l`.
pub open spec fn has_lane(events: Pending, l: usize) -> bool {
    exists|e: EventModel, i: int|
        #![trigger events.count(e), e.1[i]]
        events.count(e) > 0 && 0 <= i < e.1.len() && lane(e.1[i]) == l
}

/// The lanes that still have pending rows.
pub open spec fn lanes(events: Pending) -> Set<usize> {
    Set::new(|l: usize| has_lane(events, l))
}

/// Strictly ascending, hence free of duplicates.
pub open spec fn strictly_ascending(s: Seq<usize>) -> bool {
    forall|i: int, j: int| 0 <= i < j < s.len() ==> s[i] < s[j]
}

/// The distinct keys of any pending events are finitely many.
pub proof fn lemma_keys_finite(events: Pending)
    ensures
        distinct_keys(events).finite(),
{
    broadcast use vstd::multiset::group_multiset_axioms;
    let first = |e: EventModel| e.0;
    let image = events.dom().map(first);
    events.dom().lemma_map_finite(first);
    assert forall|key: TimeKey| distinct_keys(events).contains(key) implies image.contains(
        key,
    ) by {
        let batch = choose|batch: Seq<Row>| #[trigger] events.count((key, batch)) > 0;
        assert(events.dom().contains((key, batch)));
        assert(first((key, batch)) == key);
    }
    vstd::set_lib::lemma_len_subset(distinct_keys(events), image);
}

/// Inserting an event adds its key to the distinct keys and changes no other.
pub proof fn lemma_keys_insert(events: Pending, key: TimeKey, batch: Seq<Row>)
    ensures
        distinct_keys(events.insert((key, batch))) == distinct_keys(events).insert(key),
{
    broadcast use vstd::multiset::group_multiset_axioms;
    let after = events.insert((key, batch));
    assert forall|k: TimeKey| has_key(after, k) <==> (has_key(events, k) || k == key) by {
        if has_key(after, k) && k != key {
            let b = choose|b: Seq<Row>| #[trigger] after.count((k, b)) > 0;
            assert(events.count((k, b)) > 0);
        }
        if has_key(events, k) {
            let b = choose|b: Seq<Row>| #[trigger] events.count((k, b)) > 0;
            assert(after.count((k, b)) > 0);
        }
        if k == key {
            assert(after.count((key, batch)) > 0);
        }
    }
    assert(distinct_keys(after) =~= distinct_keys(events).insert(key));
}

/// Dropping every event of one key removes that key and no other.
pub proof fn lemma_keys_without(events: Pending, key: TimeKey)
    ensures
        distinct_keys(without_key(events, key)) == distinct_keys(events).remove(key),
{
    broadcast use vstd::multiset::group_multiset_axioms;
    let after = without_key(events, key);
    assert forall|k: TimeKey| has_key(after, k) <==> (has_key(events, k) && k != key) by {
        if has_key(after, k) {
            let b = choose|b: Seq<Row>| #[trigger] after.count((k, b)) > 0;
            assert(events.count((k, b)) > 0);
        }
        if has_key(events, k) && k != key {
            let b = choose|b: Seq<Row>| #[trigger] events.count((k, b)) > 0;
            assert(after.count((k, b)) > 0);
        }
    }
    assert(distinct_keys(after) =~= distinct_keys(events).remove(key));
}

/// A split of the pending events into a part where every key is `key` and a
/// part where none is, is the split by `key`.
pub proof fn lemma_split_by_key(whole: Pending, rest: Pending, group: Pending, key: TimeKey)
    requires
        whole == rest.add(group),
        forall|e: EventModel| group.count(e) > 0 ==> e.0 == key,
        forall|e: EventModel| rest.count(e) > 0 ==> e.0 != key,
    ensures
        rest == without_key(whole, key),
        group == at_key(whole, key),
{
    broadcast use vstd::multiset::group_multiset_axioms;
    assert(rest =~= without_key(whole, key));
    assert(group =~= at_key(whole, key));
}

} // verus!
