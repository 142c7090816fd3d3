//! A binary min-heap of events, ordered by time key.
//!
//! Entries with equal keys are kept apart; which of them sits nearer the
//! root is not fixed.

use crate::model::{has_key, is_min_key, EventModel, Pending, Row, TimeKey};
use vstd::prelude::*;

verus! {

/// One stored event.
struct Entry {
    key: TimeKey,
    batch: Vec<Row>,
}

impl Entry {
    spec fn model(self) -> EventModel {
        (self.key, self.batch@)
    }
}

/// The entries as the contracts see them, in storage order.
spec fn models(entries: Seq<Entry>) -> Seq<EventModel> {
    entries.map_values(|e: Entry| e.model())
}

/// Index of the parent of slot `i`.
spec fn parent(i: int) -> int {
    (i - 1) / 2
}

/// The entry at slot `i` is not smaller than its parent.
spec fn at_least_parent(s: Seq<Entry>, i: int) -> bool {
    s[parent(i)].key <= s[i].key
}

/// Heap order: every entry but the root is at least its parent.
spec fn ordered(s: Seq<Entry>) -> bool {
    forall|i: int| 0 < i < s.len() ==> #[trigger] at_least_parent(s, i)
}

/// Heap order but possibly between slot `i` and its parent, with the children
/// of `i` already no smaller than the parent of `i`.
spec fn ordered_but_above(s: Seq<Entry>, i: int) -> bool {
    &&& forall|j: int| 0 < j < s.len() && j != i ==> #[trigger] at_least_parent(s, j)
    &&& forall|j: int|
        #![trigger s[j]]
        0 < j < s.len() && parent(j) == i && i > 0 ==> s[parent(i)].key <= s[j].key
}

/// Heap order but possibly between slot `i` and its children, with the
/// children of `i` already no smaller than the parent of `i`.
spec fn ordered_but_below(s: Seq<Entry>, i: int) -> bool {
    &&& forall|j: int| 0 < j < s.len() && parent(j) != i ==> #[trigger] at_least_parent(s, j)
    &&& forall|j: int|
        #![trigger s[j]]
        0 < j < s.len() && parent(j) == i && i > 0 ==> s[parent(i)].key <= s[j].key
}

/// In heap order no entry is smaller than the root.
proof fn lemma_root_le(s: Seq<Entry>, i: int)
    requires
        ordered(s),
        0 <= i < s.len(),
    ensures
        s[0].key <= s[i].key,
    decreases i,
{
    if i > 0 {
        assert(at_least_parent(s, i));
        lemma_root_le(s, parent(i));
    }
}

/// In heap order the root carries the smallest key.
proof fn lemma_root_is_min(s: Seq<Entry>)
    requires
        ordered(s),
        s.len() > 0,
    ensures
        is_min_key(models(s).to_multiset(), s[0].key),
{
    broadcast use vstd::seq_lib::group_to_multiset_ensures;
    let m = models(s);
    let events = m.to_multiset();
    assert(m[0] == (s[0].key, s[0].batch@));
    assert(m.contains(m[0]));
    assert(events.count((s[0].key, s[0].batch@)) > 0);
    assert forall|other: TimeKey| has_key(events, other) implies s[0].key <= other by {
        let b = choose|b: Seq<Row>| #[trigger] events.count((other, b)) > 0;
        assert(m.contains((other, b)));
        let j = choose|j: int| 0 <= j < m.len() && m[j] == (other, b);
        assert(s[j].key == other);
        lemma_root_le(s, j);
    }
}

/// Exchanges the entries in slots `i` and `j`.
fn swap_entries(v: &mut Vec<Entry>, i: usize, j: usize)
    requires
        i < old(v).len(),
        j < old(v).len(),
    ensures
        final(v)@ == old(v)@.update(i as int, old(v)@[j as int]).update(j as int, old(v)@[i as int]),
        models(final(v)@).to_multiset() == models(old(v)@).to_multiset(),
{
    if i != j {
        let mut held = Entry { key: 0, batch: Vec::new() };
        core::mem::swap(&mut held, &mut v[i]);
        core::mem::swap(&mut held, &mut v[j]);
        core::mem::swap(&mut held, &mut v[i]);
    }
    proof {
        broadcast use vstd::seq_lib::group_to_multiset_ensures;
        broadcast use vstd::multiset::group_multiset_axioms;
        let m = models(old(v)@);
        let step = m.update(i as int, m[j as int]);
        assert(models(v@) =~= step.update(j as int, m[i as int]));
        assert(models(v@).to_multiset() =~= m.to_multiset());
    }
}

/// Moves the entry at `start` towards the root until heap order holds.
fn sift_up(v: &mut Vec<Entry>, start: usize)
    requires
        start < old(v).len(),
        ordered_but_above(old(v)@, start as int),
    ensures
        ordered(final(v)@),
        models(final(v)@).to_multiset() == models(old(v)@).to_multiset(),
{
    let mut i: usize = start;
    loop
        invariant_except_break
            ordered_but_above(v@, i as int),
        invariant
            i < v.len(),
            models(v@).to_multiset() == models(old(v)@).to_multiset(),
        ensures
            ordered(v@),
        decreases i,
    {
        if i == 0 {
            break;
        }
        let p: usize = (i - 1) / 2;
        if v[p].key <= v[i].key {
            assert(at_least_parent(v@, i as int));
            break;
        }
        let ghost before = v@;
        swap_entries(v, i, p);
        proof {
            let after = v@;
            assert forall|j: int| 0 < j < after.len() && j != p implies #[trigger]
                at_least_parent(after, j) by {
                if j != i {
                    assert(at_least_parent(before, j));
                    if parent(j) == i {
                        assert(before[parent(i as int)].key <= before[j].key);
                    }
                }
            }
            let above = parent(p as int);
            assert forall|j: int|
                #![trigger after[j]]
                0 < j < after.len() && parent(j) == p && p > 0 implies after[above].key
                <= after[j].key by {
                assert(at_least_parent(before, p as int));
                if j != i {
                    assert(at_least_parent(before, j));
                }
            }
        }
        i = p;
    }
}

/// Moves the entry at `start` away from the root until heap order holds.
fn sift_down(v: &mut Vec<Entry>, start: usize)
    requires
        start < old(v).len(),
        ordered_but_below(old(v)@, start as int),
    ensures
        ordered(final(v)@),
        models(final(v)@).to_multiset() == models(old(v)@).to_multiset(),
{
    let n: usize = v.len();
    let mut i: usize = start;
    loop
        invariant_except_break
            ordered_but_below(v@, i as int),
        invariant
            n == v.len(),
            i < n,
            models(v@).to_multiset() == models(old(v)@).to_multiset(),
        ensures
            ordered(v@),
        decreases n - i,
    {
        if i >= n / 2 {
            assert forall|j: int| 0 < j < v@.len() implies #[trigger] at_least_parent(v@, j) by {
                assert(parent(j) != i);
            }
            break;
        }
        let left: usize = 2 * i + 1;
        let right: usize = left + 1;
        let least: usize = if right < n && v[right].key < v[left].key {
            right
        } else {
            left
        };
        if v[i].key <= v[least].key {
            assert forall|j: int| 0 < j < v@.len() implies #[trigger] at_least_parent(v@, j) by {
                if parent(j) == i {
                    assert(j == left || j == right);
                }
            }
            break;
        }
        let ghost before = v@;
        swap_entries(v, i, least);
        proof {
            let after = v@;
            assert forall|j: int| 0 < j < after.len() && parent(j) != least implies #[trigger]
                at_least_parent(after, j) by {
                if parent(j) == i {
                    assert(j == left || j == right);
                } else if j == i {
                    assert(before[parent(i as int)].key <= before[least as int].key);
                } else {
                    assert(at_least_parent(before, j));
                }
            }
            assert forall|j: int|
                #![trigger after[j]]
                0 < j < after.len() && parent(j) == least implies after[i as int].key
                <= after[j].key by {
                assert(at_least_parent(before, j));
            }
        }
        i = least;
    }
}

/// A min-heap of events keyed by time.
pub struct EventHeap {
    entries: Vec<Entry>,
}

impl View for EventHeap {
    type V = Pending;

    /// The stored events, without regard to where they are stored.
    open spec fn view(&self) -> Pending {
        self.layout().to_multiset()
    }
}

impl EventHeap {
    /// The stored events in storage order.
    pub closed spec fn layout(&self) -> Seq<EventModel> {
        models(self.entries@)
    }

    /// The entries are in heap order.
    pub closed spec fn wf(&self) -> bool {
        ordered(self.entries@)
    }

    /// An empty heap.
    pub fn new() -> (heap: Self)
        ensures
            heap.wf(),
            heap.layout() == Seq::<EventModel>::empty(),
            heap@ == Pending::empty(),
    {
        let heap = EventHeap { entries: Vec::new() };
        proof {
            broadcast use vstd::seq_lib::group_to_multiset_ensures;
            assert(heap.layout() =~= Seq::<EventModel>::empty());
            assert(heap@ =~= Pending::empty());
        }
        heap
    }

    /// Number of stored events, counting equal keys separately.
    pub fn len(&self) -> (n: usize)
        ensures
            n == self.layout().len(),
            n == self@.len(),
    {
        proof {
            broadcast use vstd::seq_lib::group_to_multiset_ensures;
        }
        self.entries.len()
    }

    /// Whether no event is stored.
    pub fn is_empty(&self) -> (b: bool)
        ensures
            b == (self@.len() == 0),
    {
        proof {
            broadcast use vstd::seq_lib::group_to_multiset_ensures;
        }
        self.entries.len() == 0
    }

    /// The rows of the event in slot `i` of the storage order.
    pub fn batch_at(&self, i: usize) -> (batch: &Vec<Row>)
        requires
            i < self.layout().len(),
        ensures
            batch@ == self.layout()[i as int].1,
    {
        &self.entries[i].batch
    }

    /// Stores one event. Events of equal key are not merged.
    pub fn push(&mut self, key: TimeKey, batch: Vec<Row>)
        requires
            old(self).wf(),
        ensures
            final(self).wf(),
            final(self)@ == old(self)@.insert((key, batch@)),
    {
        let ghost before = self.entries@;
        self.entries.push(Entry { key, batch });
        let last: usize = self.entries.len() - 1;
        proof {
            broadcast use vstd::seq_lib::group_to_multiset_ensures;
            assert(models(self.entries@) =~= models(before).push((key, batch@)));
            assert forall|j: int| 0 < j < self.entries@.len() && j != last implies #[trigger]
                at_least_parent(self.entries@, j) by {
                assert(at_least_parent(before, j));
            }
        }
        sift_up(&mut self.entries, last);
    }

    /// The smallest stored key, if any event is stored.
    pub fn min_key(&self) -> (found: Option<TimeKey>)
        requires
            self.wf(),
        ensures
            found is None <==> self@.len() == 0,
            found matches Some(key) ==> is_min_key(self@, key),
    {
        proof {
            broadcast use vstd::seq_lib::group_to_multiset_ensures;
        }
        if self.entries.len() == 0 {
            None
        } else {
            proof {
                lemma_root_is_min(self.entries@);
            }
            Some(self.entries[0].key)
        }
    }

    /// Removes one event of the smallest key, if any event is stored.
    pub fn pop_min(&mut self) -> (taken: Option<(TimeKey, Vec<Row>)>)
        requires
            old(self).wf(),
        ensures
            final(self).wf(),
            taken is None <==> old(self)@.len() == 0,
            taken is None ==> final(self)@ == old(self)@,
            taken matches Some((key, batch)) ==> {
                &&& is_min_key(old(self)@, key)
                &&& old(self)@.count((key, batch@)) > 0
                &&& final(self)@ == old(self)@.remove((key, batch@))
            },
    {
        proof {
            broadcast use vstd::seq_lib::group_to_multiset_ensures;
        }
        if self.entries.len() == 0 {
            return None;
        }
        let ghost before = self.entries@;
        proof {
            lemma_root_is_min(before);
        }
        let root = self.entries.swap_remove(0);
        proof {
            broadcast use vstd::multiset::group_multiset_axioms;
            let m = models(before);
            let moved = m.update(0, m.last());
            assert(models(self.entries@) =~= moved.remove(m.len() - 1));
            assert(moved[m.len() - 1] == m.last());
            assert(models(self.entries@).to_multiset() =~= m.to_multiset().remove(m[0]));
            assert(m.contains(m[0]));
        }
        if self.entries.len() > 0 {
            proof {
                assert forall|j: int|
                    0 < j < self.entries@.len() && parent(j) != 0 implies #[trigger]
                    at_least_parent(self.entries@, j) by {
                    assert(at_least_parent(before, j));
                }
            }
            sift_down(&mut self.entries, 0);
        }
        Some((root.key, root.batch))
    }
}

} // verus!
