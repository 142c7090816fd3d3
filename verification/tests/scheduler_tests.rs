use propagator_scheduler::{Row, Scheduler, TimeKey, DEFAULT_PRECISION};
use std::collections::{BTreeMap, BTreeSet};

/// Nearest key to `time * precision`.
fn quantize(time: f64, precision: u64) -> TimeKey {
    (time * precision as f64).round() as TimeKey
}

/// The time a key stands for.
fn dequantize(key: TimeKey, precision: u64) -> f64 {
    key as f64 / precision as f64
}

/// A small deterministic generator, so that runs repeat.
struct Lcg(u64);

impl Lcg {
    fn next(&mut self) -> u64 {
        self.0 = self
            .0
            .wrapping_mul(6364136223846793005)
            .wrapping_add(1442695040888963407);
        self.0 >> 33
    }
}

#[test]
fn empty_scheduler_reports_nothing() {
    let mut s = Scheduler::new(10);
    assert!(s.is_empty());
    assert_eq!(s.len(), 0);
    assert!(s.pop().is_none());
    assert!(s.is_empty());
    assert_eq!(s.len(), 0);
    assert_eq!(s.active(), Vec::<usize>::new());
}

#[test]
fn precision_is_bound_at_construction() {
    let mut s = Scheduler::new(7);
    assert_eq!(s.precision(), 7);
    s.push(vec![[1, 1, 1]], 4);
    assert_eq!(s.precision(), 7);
    s.pop();
    assert_eq!(s.precision(), 7);
    s.push_all(vec![(1, vec![[0, 0, 0]])]);
    assert_eq!(s.precision(), 7);
}

#[test]
fn default_scheduler_has_precision_ten() {
    let s = Scheduler::default();
    assert_eq!(DEFAULT_PRECISION, 10);
    assert_eq!(s.precision(), 10);
    assert!(s.is_empty());
    assert_eq!(s.len(), 0);
}

#[test]
fn near_simultaneous_times_coalesce() {
    let mut s = Scheduler::new(10);
    let p = s.precision();
    assert_eq!(quantize(0.31, p), 3);
    assert_eq!(quantize(0.34, p), 3);
    s.push(vec![[1, 2, 3]], quantize(0.31, p));
    s.push(vec![[4, 5, 6]], quantize(0.34, p));
    assert_eq!(s.len(), 1);
    assert!(!s.is_empty());
    let (key, mut rows) = s.pop().expect("one event is pending");
    assert_eq!(key, 3);
    assert!((dequantize(key, p) - 0.3).abs() < 1e-12);
    rows.sort();
    assert_eq!(rows, vec![[1, 2, 3], [4, 5, 6]]);
    assert!(s.pop().is_none());
    assert!(s.is_empty());
    assert_eq!(s.len(), 0);
}

#[test]
fn push_all_then_two_pops() {
    let mut s = Scheduler::new(10);
    let p = s.precision();
    s.push_all(vec![
        (quantize(0.1, p), vec![[0, 0, 1]]),
        (quantize(0.2, p), vec![[0, 0, 2]]),
    ]);
    assert_eq!(s.len(), 2);
    let (k1, rows1) = s.pop().expect("two events are pending");
    assert_eq!(k1, 1);
    assert!((dequantize(k1, p) - 0.1).abs() < 1e-12);
    assert_eq!(rows1, vec![[0, 0, 1]]);
    let (k2, rows2) = s.pop().expect("one event is pending");
    assert_eq!(k2, 2);
    assert!((dequantize(k2, p) - 0.2).abs() < 1e-12);
    assert_eq!(rows2, vec![[0, 0, 2]]);
    assert!(s.pop().is_none());
}

#[test]
fn distinct_keys_count_and_one_pop() {
    let n: usize = 25;
    let mut s = Scheduler::new(10);
    for i in 0..n {
        // Pushed in an order that is neither ascending nor descending.
        let key = ((i * 7) % n) as TimeKey;
        s.push(vec![[i, i, i]], key);
    }
    assert_eq!(s.len(), n);
    let (key, rows) = s.pop().expect("events are pending");
    assert_eq!(key, 0);
    assert_eq!(rows, vec![[0, 0, 0]]);
    assert_eq!(s.len(), n - 1);
}

#[test]
fn len_counts_keys_not_events() {
    let mut s = Scheduler::new(10);
    s.push(vec![[0, 0, 0]], 5);
    assert_eq!(s.len(), 1);
    s.push(vec![[0, 0, 1]], 5);
    assert_eq!(s.len(), 1);
    s.push(vec![[0, 0, 2]], 6);
    assert_eq!(s.len(), 2);
    s.push(vec![[0, 0, 3]], 5);
    assert_eq!(s.len(), 2);
    s.push(vec![[0, 0, 4]], 4);
    assert_eq!(s.len(), 3);
    assert!(s.pop().is_some());
    assert_eq!(s.len(), 2);
    assert!(s.pop().is_some());
    assert_eq!(s.len(), 1);
    assert!(s.pop().is_some());
    assert_eq!(s.len(), 0);
    assert!(s.is_empty());
}

#[test]
fn pops_come_in_strictly_rising_keys() {
    let mut s = Scheduler::new(10);
    let mut rng = Lcg(17);
    for i in 0..500usize {
        let key = rng.next() % 60;
        s.push(vec![[i, 0, i % 9]], key);
    }
    let mut last: Option<TimeKey> = None;
    let mut rows_seen = 0usize;
    while let Some((key, rows)) = s.pop() {
        if let Some(prev) = last {
            assert!(prev < key);
            assert!(dequantize(prev, 10) < dequantize(key, 10));
        }
        last = Some(key);
        rows_seen += rows.len();
    }
    assert_eq!(rows_seen, 500);
    assert!(s.is_empty());
}

#[test]
fn one_pop_takes_every_event_of_the_key() {
    let mut s = Scheduler::new(10);
    s.push(vec![[1, 0, 0], [1, 1, 0]], 2);
    s.push(vec![[9, 9, 9]], 8);
    s.push(vec![[2, 0, 0]], 2);
    s.push(vec![], 2);
    s.push(vec![[3, 0, 0], [3, 1, 0], [3, 2, 0]], 2);
    s.push(vec![[7, 7, 7]], 1);
    assert_eq!(s.len(), 3);

    let (k, rows) = s.pop().expect("events are pending");
    assert_eq!(k, 1);
    assert_eq!(rows, vec![[7, 7, 7]]);

    let (k, rows) = s.pop().expect("events are pending");
    assert_eq!(k, 2);
    assert_eq!(rows.len(), 6);
    // Each batch stays whole and in its own order.
    let at = |row: Row| rows.iter().position(|r| *r == row).expect("row was delivered");
    assert_eq!(at([1, 1, 0]), at([1, 0, 0]) + 1);
    assert_eq!(at([3, 1, 0]), at([3, 0, 0]) + 1);
    assert_eq!(at([3, 2, 0]), at([3, 0, 0]) + 2);
    let mut sorted = rows.clone();
    sorted.sort();
    assert_eq!(
        sorted,
        vec![[1, 0, 0], [1, 1, 0], [2, 0, 0], [3, 0, 0], [3, 1, 0], [3, 2, 0]]
    );

    let (k, rows) = s.pop().expect("events are pending");
    assert_eq!(k, 8);
    assert_eq!(rows, vec![[9, 9, 9]]);
    assert!(s.pop().is_none());
}

#[test]
fn a_drained_key_can_be_pushed_again() {
    let mut s = Scheduler::new(10);
    s.push(vec![[1, 1, 1]], 3);
    s.push(vec![[2, 2, 2]], 3);
    let (k, rows) = s.pop().expect("events are pending");
    assert_eq!(k, 3);
    assert_eq!(rows.len(), 2);
    assert_eq!(s.len(), 0);
    s.push(vec![[3, 3, 3]], 3);
    assert_eq!(s.len(), 1);
    let (k, rows) = s.pop().expect("one event is pending");
    assert_eq!(k, 3);
    assert_eq!(rows, vec![[3, 3, 3]]);
    assert!(s.pop().is_none());
}

#[test]
fn an_earlier_key_pushed_late_comes_first() {
    let mut s = Scheduler::new(10);
    s.push(vec![[0, 0, 5]], 50);
    s.push(vec![[0, 0, 7]], 70);
    assert_eq!(s.pop().map(|e| e.0), Some(50));
    s.push(vec![[0, 0, 6]], 60);
    s.push(vec![[0, 0, 1]], 10);
    assert_eq!(s.pop().map(|e| e.0), Some(10));
    assert_eq!(s.pop().map(|e| e.0), Some(60));
    assert_eq!(s.pop().map(|e| e.0), Some(70));
    assert_eq!(s.pop().map(|e| e.0), None);
}

#[test]
fn an_empty_batch_is_still_an_event() {
    let mut s = Scheduler::new(10);
    s.push(vec![], 4);
    assert!(!s.is_empty());
    assert_eq!(s.len(), 1);
    assert_eq!(s.active(), Vec::<usize>::new());
    let (k, rows) = s.pop().expect("one event is pending");
    assert_eq!(k, 4);
    assert!(rows.is_empty());
    assert!(s.is_empty());
}

#[test]
fn extreme_keys_are_ordered() {
    let mut s = Scheduler::new(10);
    s.push(vec![[0, 0, 2]], TimeKey::MAX);
    s.push(vec![[0, 0, 1]], 0);
    s.push(vec![[0, 0, 3]], TimeKey::MAX);
    assert_eq!(s.len(), 2);
    assert_eq!(s.pop(), Some((0, vec![[0, 0, 1]])));
    let (k, mut rows) = s.pop().expect("events are pending");
    assert_eq!(k, TimeKey::MAX);
    rows.sort();
    assert_eq!(rows, vec![[0, 0, 2], [0, 0, 3]]);
    assert!(s.pop().is_none());
}

#[test]
fn push_all_of_nothing_changes_nothing() {
    let mut s = Scheduler::new(10);
    s.push_all(Vec::new());
    assert!(s.is_empty());
    s.push(vec![[1, 2, 3]], 1);
    s.push_all(Vec::new());
    assert_eq!(s.len(), 1);
    assert_eq!(s.pop(), Some((1, vec![[1, 2, 3]])));
}

#[test]
fn push_all_keeps_equal_keys_for_one_pop() {
    let mut s = Scheduler::new(10);
    s.push_all(vec![
        (9, vec![[0, 0, 9]]),
        (2, vec![[0, 0, 2]]),
        (9, vec![[1, 0, 9]]),
        (2, vec![[1, 0, 2]]),
    ]);
    assert_eq!(s.len(), 2);
    let (k, mut rows) = s.pop().expect("events are pending");
    assert_eq!(k, 2);
    rows.sort();
    assert_eq!(rows, vec![[0, 0, 2], [1, 0, 2]]);
    let (k, mut rows) = s.pop().expect("events are pending");
    assert_eq!(k, 9);
    rows.sort();
    assert_eq!(rows, vec![[0, 0, 9], [1, 0, 9]]);
}

#[test]
fn active_is_sorted_and_free_of_duplicates() {
    let mut s = Scheduler::new(10);
    s.push(vec![[0, 0, 5], [0, 1, 3], [9, 9, 5]], 7);
    s.push(vec![[1, 1, 8]], 2);
    s.push(vec![[2, 2, 3], [2, 3, 0]], 7);
    assert_eq!(s.active(), vec![0, 3, 5, 8]);
    // Reading the lanes changes nothing.
    assert_eq!(s.len(), 2);
    assert_eq!(s.active(), vec![0, 3, 5, 8]);
}

#[test]
fn active_reads_only_the_third_component() {
    let mut s = Scheduler::new(10);
    s.push(vec![[100, 200, 1], [300, 400, 1]], 1);
    assert_eq!(s.active(), vec![1]);
}

#[test]
fn active_forgets_popped_rows() {
    let mut s = Scheduler::new(10);
    s.push(vec![[0, 0, 4]], 1);
    s.push(vec![[0, 0, 2], [0, 0, 6]], 2);
    s.push(vec![[0, 0, 4], [0, 0, 1]], 3);
    assert_eq!(s.active(), vec![1, 2, 4, 6]);
    s.pop();
    assert_eq!(s.active(), vec![1, 2, 4, 6]);
    s.pop();
    assert_eq!(s.active(), vec![1, 4]);
    s.pop();
    assert_eq!(s.active(), Vec::<usize>::new());
}

#[test]
fn size_tracks_distinct_keys_through_pushes_and_pops() {
    let mut s = Scheduler::new(10);
    let mut model: BTreeMap<TimeKey, Vec<Row>> = BTreeMap::new();
    let mut rng = Lcg(2024);
    for step in 0..4000usize {
        if rng.next() % 3 == 0 {
            let got = s.pop();
            let want = model.pop_first();
            match (got, want) {
                (None, None) => {}
                (Some((k, mut rows)), Some((wk, mut wrows))) => {
                    assert_eq!(k, wk);
                    rows.sort();
                    wrows.sort();
                    assert_eq!(rows, wrows);
                }
                (got, want) => panic!("pop gave {:?}, the model {:?}", got, want),
            }
        } else {
            let key = rng.next() % 40;
            let count = (rng.next() % 4) as usize;
            let batch: Vec<Row> = (0..count)
                .map(|r| [step, r, (rng.next() % 12) as usize])
                .collect();
            model.entry(key).or_default().extend(batch.iter().copied());
            s.push(batch, key);
        }
        assert_eq!(s.len(), model.len());
        assert_eq!(s.is_empty(), model.is_empty());
        if step % 97 == 0 {
            let lanes: BTreeSet<usize> = model.values().flatten().map(|row| row[2]).collect();
            assert_eq!(s.active(), lanes.into_iter().collect::<Vec<usize>>());
        }
    }
}

#[test]
fn times_within_half_a_step_share_a_key() {
    let mut s = Scheduler::new(100);
    let p = s.precision();
    for (i, t) in [1.2345_f64, 1.2251, 1.2349, 1.2351].iter().enumerate() {
        let key = quantize(*t, p);
        assert!((dequantize(key, p) - *t).abs() <= 0.5 / p as f64 + 1e-12);
        s.push(vec![[i, 0, 0]], key);
    }
    assert_eq!(s.len(), 2);
    let (k, rows) = s.pop().expect("events are pending");
    assert_eq!(k, 123);
    assert_eq!(rows.len(), 3);
    let (k, rows) = s.pop().expect("events are pending");
    assert_eq!(k, 124);
    assert_eq!(rows, vec![[3, 0, 0]]);
}
