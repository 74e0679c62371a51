use metrics::{CounterInner, MetricRow};

const A: [(&str, &str); 3] = [("key2", "value2"), ("key1", "value1"), ("key3", "value3")];
const B: [(&str, &str); 3] = [("key1", "value1"), ("key2", "value2"), ("key3", "value3")];
const C: [(&str, &str); 3] = [("key1", "value1"), ("key3", "value3"), ("key2", "value2")];

fn rows(store: &CounterInner) -> Vec<MetricRow> {
    store.snapshot()
}

#[test]
fn three_orderings_make_one_metric() {
    let mut store = CounterInner::new();
    store.add("counter", &A);
    store.add("counter", &B);
    store.add("counter", &C);
    store.add("counter", &A);
    store.add("counter", &B);
    let r = rows(&store);
    assert_eq!(r.len(), 1);
    assert_eq!(r[0].attributes, B.to_vec());
    assert_eq!(r[0].sum, 5);
    assert_eq!(store.count(&C), 5);
    assert_eq!(store.zero_attribute_count(), 0);
}

#[test]
fn permutations_count_together() {
    let mut store = CounterInner::new();
    let p1 = [("b", "2"), ("a", "1")];
    let p2 = [("a", "1"), ("b", "2")];
    store.add("n", &p1);
    store.add("n", &p2);
    store.add("n", &p1);
    let r = rows(&store);
    assert_eq!(r.len(), 1);
    assert_eq!(r[0].sum, 3);
    assert_eq!(store.count(&p2), 3);
}

#[test]
fn empty_attributes_count_apart() {
    let mut store = CounterInner::new();
    store.add("n", &[]);
    store.add("n", &[("k", "v")]);
    store.add("n", &[]);
    store.add("n", &[("k", "w")]);
    store.add("n", &[]);
    assert_eq!(store.zero_attribute_count(), 3);
    assert!(!store.contains_key(&[]));
    assert_eq!(store.count(&[]), 0);
    assert_eq!(rows(&store).len(), 2);
}

#[test]
fn only_empty_attributes_leave_no_rows() {
    let mut store = CounterInner::new();
    for _ in 0..7 {
        store.add("n", &[]);
    }
    assert_eq!(store.zero_attribute_count(), 7);
    assert!(rows(&store).is_empty());
}

#[test]
fn cleanup_resets_everything() {
    let mut store = CounterInner::new();
    store.add("n", &A);
    store.add("n", &B);
    store.add("n", &[]);
    store.add("n", &[("x", "y")]);
    store.cleanup();
    assert_eq!(store.zero_attribute_count(), 0);
    assert!(rows(&store).is_empty());
    assert!(!store.contains_key(&A));
    store.add("n", &A);
    let r = rows(&store);
    assert_eq!(r.len(), 1);
    assert_eq!(r[0].sum, 1);
    assert_eq!(store.zero_attribute_count(), 0);
    assert_eq!(store.count(&[("x", "y")]), 0);
}

#[test]
fn interleaved_orderings_add_up() {
    let mut store = CounterInner::new();
    let orderings = [A, B, C];
    for round in 0..50 {
        for ordering in orderings.iter() {
            store.add("t", ordering);
        }
        store.add("t", &orderings[round % 3]);
    }
    assert_eq!(store.count(&A), 200);
    assert_eq!(rows(&store).len(), 1);
}

#[test]
fn distinct_sets_stay_apart() {
    let mut store = CounterInner::new();
    let x = [("a", "b")];
    let y = [("b", "a")];
    let z = [("ab", "")];
    store.add("n", &x);
    store.add("n", &x);
    store.add("n", &y);
    store.add("n", &z);
    assert_eq!(store.count(&x), 2);
    assert_eq!(store.count(&y), 1);
    assert_eq!(store.count(&z), 1);
    assert_eq!(rows(&store).len(), 3);
}

#[test]
fn subsets_and_repeats_stay_apart() {
    let mut store = CounterInner::new();
    store.add("n", &[("k", "v")]);
    store.add("n", &[("k", "v"), ("k", "v")]);
    store.add("n", &[("k", "v"), ("j", "v")]);
    assert_eq!(store.count(&[("k", "v")]), 1);
    assert_eq!(store.count(&[("k", "v"), ("k", "v")]), 1);
    assert_eq!(store.count(&[("j", "v"), ("k", "v")]), 1);
    assert_eq!(rows(&store).len(), 3);
}

#[test]
fn name_does_not_split_counters() {
    let mut store = CounterInner::new();
    store.add("requests", &B);
    store.add("errors", &B);
    assert_eq!(store.count(&B), 2);
    assert_eq!(rows(&store).len(), 1);
}

#[test]
fn new_set_is_keyed_by_both_orderings() {
    let mut store = CounterInner::new();
    store.add("n", &A);
    assert!(store.contains_key(&A));
    assert!(store.contains_key(&B));
    assert!(!store.contains_key(&C));
    store.add("n", &C);
    assert!(!store.contains_key(&C));
    assert_eq!(store.count(&C), 2);
}

#[test]
fn sorted_first_report_makes_one_key() {
    let mut store = CounterInner::new();
    store.add("n", &B);
    assert!(store.contains_key(&B));
    assert!(!store.contains_key(&A));
    store.add("n", &A);
    assert_eq!(store.count(&A), 2);
    assert!(!store.contains_key(&A));
}

#[test]
fn snapshot_lists_canonical_attributes() {
    let mut store = CounterInner::new();
    store.add("n", &[("zeta", "1"), ("alpha", "2")]);
    store.add("n", &[("m", "1")]);
    let mut r = rows(&store);
    r.sort_by(|p, q| p.attributes.cmp(&q.attributes));
    assert_eq!(r.len(), 2);
    assert_eq!(r[0].attributes, vec![("alpha", "2"), ("zeta", "1")]);
    assert_eq!(r[0].sum, 1);
    assert_eq!(r[1].attributes, vec![("m", "1")]);
}
