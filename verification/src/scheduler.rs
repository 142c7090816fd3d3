//! The scheduler: an event store with distinct-key accounting and a
//! coalescing pop.

use crate::heap::EventHeap;
use crate::lanes::{in_ascending_order, pending_lanes};
use crate::model::{
    at_key, distinct_keys, event_models, has_key, is_merge_of, is_min_key, lanes,
    lemma_keys_finite, lemma_keys_insert, lemma_keys_without, lemma_split_by_key, merged,
    strictly_ascending, without_key, EventModel, Pending, Row, TimeKey,
};
use std::collections::HashSet;
use vstd::prelude::*;

verus! {

/// Keys per unit of time where the caller names no other scale.
pub const DEFAULT_PRECISION: u64 = 10;

/// A discrete-event scheduler over quantized times.
///
/// Events are kept apart as they are pushed; `pop` merges those that share
/// the smallest key. The number of distinct pending keys is kept at hand.
pub struct Scheduler {
    store: EventHeap,
    keys: HashSet<TimeKey>,
    precision: u64,
}

/// Whether the smallest key stored is `key`.
fn smallest_is(store: &EventHeap, key: TimeKey) -> (b: bool)
    requires
        store.wf(),
    ensures
        b <==> is_min_key(store@, key),
{
    match store.min_key() {
        Some(smallest) => smallest == key,
        None => {
            proof {
                broadcast use vstd::multiset::group_multiset_axioms;
            }
            false
        },
    }
}

impl View for Scheduler {
    type V = Pending;

    /// The pending events.
    closed spec fn view(&self) -> Pending {
        self.store@
    }
}

impl Scheduler {
    /// The store is in heap order, the key set holds exactly the distinct
    /// pending keys, and the scale is positive.
    pub closed spec fn wf(&self) -> bool {
        &&& self.store.wf()
        &&& self.keys@ == distinct_keys(self.store@)
        &&& self.precision > 0
    }

    /// The scale that was bound at construction.
    pub closed spec fn spec_precision(&self) -> u64 {
        self.precision
    }

    /// An empty scheduler whose keys count `precision` steps per unit of time.
    pub fn new(precision: u64) -> (s: Self)
        requires
            precision > 0,
        ensures
            s.wf(),
            s@ == Pending::empty(),
            s.precision() == precision,
    {
        let s = Scheduler { store: EventHeap::new(), keys: HashSet::new(), precision };
        proof {
            broadcast use vstd::multiset::group_multiset_axioms;
            assert(s.keys@ =~= distinct_keys(s.store@));
        }
        s
    }

    /// The scale that was bound at construction. No operation changes it.
    #[verifier::when_used_as_spec(spec_precision)]
    pub fn precision(&self) -> (p: u64)
        requires
            self.wf(),
        ensures
            p == self.precision(),
            p > 0,
    {
        self.precision
    }

    /// Number of distinct pending keys.
    pub fn len(&self) -> (n: usize)
        requires
            self.wf(),
        ensures
            n == distinct_keys(self@).len(),
    {
        self.keys.len()
    }

    /// Whether no event is pending.
    pub fn is_empty(&self) -> (b: bool)
        requires
            self.wf(),
        ensures
            b == (self@.len() == 0),
    {
        self.store.is_empty()
    }

    /// The lanes that still have pending rows, ascending and without
    /// duplicates. The scheduler is left as it is.
    pub fn active(&self) -> (out: Vec<usize>)
        requires
            self.wf(),
        ensures
            strictly_ascending(out@),
            out@.to_set() == lanes(self@),
    {
        let seen = pending_lanes(&self.store);
        in_ascending_order(&seen)
    }

    /// Stores `batch` as one event under `key`. Events of equal key are not
    /// merged here; the count of distinct keys grows only for a new key.
    pub fn push(&mut self, batch: Vec<Row>, key: TimeKey)
        requires
            old(self).wf(),
        ensures
            final(self).wf(),
            final(self).precision() == old(self).precision(),
            final(self)@ == old(self)@.insert((key, batch@)),
            distinct_keys(final(self)@) == distinct_keys(old(self)@).insert(key),
    {
        proof {
            lemma_keys_insert(self.store@, key, batch@);
        }
        self.store.push(key, batch);
        self.keys.insert(key);
    }

    /// Stores each keyed batch as an event of its own, in the order given.
    pub fn push_all(&mut self, events: Vec<(TimeKey, Vec<Row>)>)
        requires
            old(self).wf(),
        ensures
            final(self).wf(),
            final(self).precision() == old(self).precision(),
            final(self)@ == old(self)@.add(event_models(events@).to_multiset()),
    {
        let ghost all = events@;
        proof {
            broadcast use vstd::seq_lib::group_to_multiset_ensures;
            broadcast use vstd::multiset::group_multiset_axioms;
            assert(event_models(all.take(0)) =~= Seq::<EventModel>::empty());
            assert(self@ =~= old(self)@.add(event_models(all.take(0)).to_multiset()));
        }
        for item in it: events
            invariant
                it.seq() == all,
                self.wf(),
                self.precision() == old(self).precision(),
                self@ == old(self)@.add(event_models(all.take(it.index())).to_multiset()),
        {
            let ghost done = it.index();
            let (key, batch) = item;
            proof {
                broadcast use vstd::seq_lib::group_to_multiset_ensures;
                assert(event_models(all.take(done + 1)) =~= event_models(all.take(done)).push(
                    (key, batch@),
                ));
            }
            self.push(batch, key);
            proof {
                broadcast use vstd::multiset::group_multiset_axioms;
                assert(self@ =~= old(self)@.add(
                    event_models(all.take(done + 1)).to_multiset(),
                ));
            }
        }
        proof {
            assert(all.take(all.len() as int) =~= all);
        }
    }

    /// Removes every pending event of the smallest key and delivers their
    /// rows as one batch, or `None` where nothing is pending.
    ///
    /// Each event's rows stay together and in their order. The order of the
    /// events among themselves is not fixed: callers must not rely on it.
    /// The count of distinct keys falls by exactly one.
    pub fn pop(&mut self) -> (event: Option<(TimeKey, Vec<Row>)>)
        requires
            old(self).wf(),
        ensures
            final(self).wf(),
            final(self).precision() == old(self).precision(),
            event is None <==> old(self)@.len() == 0,
            event is None ==> final(self)@ == old(self)@,
            event matches Some((key, rows)) ==> {
                &&& is_min_key(old(self)@, key)
                &&& is_merge_of(rows@, at_key(old(self)@, key))
                &&& final(self)@ == without_key(old(self)@, key)
                &&& distinct_keys(final(self)@) == distinct_keys(old(self)@).remove(key)
                &&& distinct_keys(final(self)@).len() + 1 == distinct_keys(old(self)@).len()
            },
    {
        let first = self.store.pop_min();
        let (key, mut rows) = match first {
            None => {
                return None;
            },
            Some(entry) => entry,
        };
        let ghost mut order: Seq<EventModel> = seq![(key, rows@)];
        proof {
            broadcast use vstd::seq_lib::group_to_multiset_ensures;
            broadcast use vstd::multiset::group_multiset_axioms;
            assert(order.map_values(|e: EventModel| e.1) =~= seq![rows@]);
            seq![rows@].lemma_flatten_one_element();
            assert(order =~= Seq::<EventModel>::empty().push((key, rows@)));
            assert(self.store@.add(order.to_multiset()) =~= old(self).store@);
        }
        while smallest_is(&self.store, key)
            invariant
                self.store.wf(),
                self.store@.add(order.to_multiset()) == old(self).store@,
                forall|i: int| 0 <= i < order.len() ==> (#[trigger] order[i]).0 == key,
                rows@ == merged(order),
                self.keys == old(self).keys,
                self.precision == old(self).precision,
            decreases self.store@.len(),
        {
            let taken = self.store.pop_min();
            if let Some((_, mut batch)) = taken {
                proof {
                    broadcast use vstd::seq_lib::group_to_multiset_ensures;
                    broadcast use vstd::multiset::group_multiset_axioms;
                    broadcast use Seq::lemma_flatten_push;
                    let grown = order.push((key, batch@));
                    assert(grown.map_values(|e: EventModel| e.1) =~= order.map_values(
                        |e: EventModel| e.1,
                    ).push(batch@));
                    assert(self.store@.add(grown.to_multiset()) =~= old(self).store@);
                    order = grown;
                }
                rows.append(&mut batch);
            }
        }
        self.keys.remove(&key);
        proof {
            broadcast use vstd::seq_lib::group_to_multiset_ensures;
            broadcast use vstd::multiset::group_multiset_axioms;
            assert forall|e: EventModel| order.to_multiset().count(e) > 0 implies e.0 == key by {
                assert(order.contains(e));
            }
            assert forall|e: EventModel| self.store@.count(e) > 0 implies e.0 != key by {
                if e.0 == key {
                    assert(self.store@.count((key, e.1)) > 0);
                    assert forall|other: TimeKey| has_key(self.store@, other) implies key
                        <= other by {
                        let b = choose|b: Seq<Row>| #[trigger] self.store@.count((other, b)) > 0;
                        assert(old(self).store@.count((other, b)) > 0);
                        assert(has_key(old(self).store@, other));
                    }
                }
            }
            lemma_split_by_key(old(self).store@, self.store@, order.to_multiset(), key);
            lemma_keys_without(old(self).store@, key);
            lemma_keys_finite(old(self).store@);
        }
        Some((key, rows))
    }
}

impl Default for Scheduler {
    /// An empty scheduler with the default scale.
    fn default() -> (s: Self)
        ensures
            s.wf(),
            s@ == Pending::empty(),
            s.precision() == DEFAULT_PRECISION,
    {
        Scheduler::new(DEFAULT_PRECISION)
    }
}

} // verus!
