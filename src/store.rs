//! The counter store: one counter per attribute set, found through the
//! attribute orderings that have been reported, plus a count of reports
//! without attributes.

use std::collections::HashMap;
use vstd::prelude::*;
use crate::attributes::{MetricAttributes, copy_attributes};
use crate::order::{Attr, AttrBytes, canonical, key_of, lemma_canonical, lemma_canonical_idempotent};
use crate::point::{MetricPoint, wrapping_sum};

verus! {

broadcast use vstd::std_specs::hash::group_hash_axioms;

/// What a store holds, seen from outside.
pub struct CounterView {
    /// The number of reports without attributes.
    pub zero: u64,
    /// The attribute orderings that lead to a counter.
    pub keys: Set<Seq<AttrBytes>>,
    /// The counter of each attribute set, under its canonical form.
    pub metrics: Map<Seq<AttrBytes>, u64>,
}

impl CounterView {
    /// A store that has seen nothing.
    pub open spec fn empty() -> CounterView {
        CounterView { zero: 0, keys: Set::empty(), metrics: Map::empty() }
    }

    /// How often the attribute set of `k` was reported: the same for every
    /// ordering of it.
    pub open spec fn count(self, k: Seq<AttrBytes>) -> u64 {
        if self.metrics.contains_key(canonical(k)) {
            self.metrics[canonical(k)]
        } else {
            0
        }
    }

    /// The store after one report with the attribute list `k`.
    ///
    /// An empty list counts apart. Otherwise the counter of the set goes up
    /// by one, or is made with sum one; a new counter is reached from `k`
    /// and from its canonical form. An ordering whose set already has a
    /// counter is not added as a key.
    pub open spec fn added(self, k: Seq<AttrBytes>) -> CounterView {
        if k.len() == 0 {
            CounterView { zero: wrapping_sum(self.zero, 1), ..self }
        } else {
            let c = canonical(k);
            CounterView {
                zero: self.zero,
                keys: if self.keys.contains(k) || self.keys.contains(c) {
                    self.keys
                } else {
                    self.keys.insert(k).insert(c)
                },
                metrics: self.metrics.insert(
                    c,
                    if self.metrics.contains_key(c) {
                        wrapping_sum(self.metrics[c], 1)
                    } else {
                        1
                    },
                ),
            }
        }
    }

    /// The store after a clear: nothing is left.
    pub open spec fn cleared(self) -> CounterView {
        CounterView::empty()
    }

    /// The store after reports with each list of `calls`, in that order.
    pub open spec fn added_all(self, calls: Seq<Seq<AttrBytes>>) -> CounterView
        decreases calls.len(),
    {
        if calls.len() == 0 {
            self
        } else {
            self.added_all(calls.drop_last()).added(calls.last())
        }
    }

    /// The shape every store keeps: no empty key, the canonical form of each
    /// key is a key too, and counters stand exactly under the canonical keys.
    pub open spec fn wf(self) -> bool {
        &&& forall|k: Seq<AttrBytes>| #[trigger]
            self.keys.contains(k) ==> k.len() > 0 && self.keys.contains(canonical(k))
        &&& forall|k: Seq<AttrBytes>| #[trigger]
            self.metrics.contains_key(k) <==> self.keys.contains(k) && canonical(k) == k
    }
}

/// One line of a snapshot: an attribute set, in canonical order, and its count.
pub struct MetricRow {
    pub attributes: Vec<Attr>,
    pub sum: u64,
}

/// The counter store.
///
/// Each key (an attribute list in one ordering) stands in `keys` and leads
/// to a counter in `points`; the keys of one attribute set all lead to the
/// same counter. `index` finds keys by their hash.
pub struct CounterInner {
    index: HashMap<u64, Vec<usize>>,
    keys: Vec<MetricAttributes>,
    key_points: Vec<usize>,
    points: Vec<MetricPoint>,
    point_keys: Vec<usize>,
    zero_attribute_point: u64,
}

impl CounterInner {
    spec fn key_at(&self, i: int) -> Seq<AttrBytes> {
        self.keys@[i]@
    }

    spec fn point_at(&self, i: int) -> int {
        self.key_points@[i] as int
    }

    spec fn canonical_of_point(&self, p: int) -> int {
        self.point_keys@[p] as int
    }

    spec fn has_key(&self, k: Seq<AttrBytes>) -> bool {
        exists|i: int| 0 <= i < self.keys@.len() && #[trigger] self.key_at(i) == k
    }

    spec fn position_of(&self, k: Seq<AttrBytes>) -> int {
        choose|i: int| 0 <= i < self.keys@.len() && #[trigger] self.key_at(i) == k
    }

    spec fn sum_under(&self, k: Seq<AttrBytes>) -> u64 {
        self.points@[self.point_at(self.position_of(k))]@
    }

    /// The store's own invariant.
    pub closed spec fn inv(&self) -> bool {
        &&& self.keys@.len() == self.key_points@.len()
        &&& self.keys@.len() <= usize::MAX
        &&& self.points@.len() == self.point_keys@.len()
        &&& forall|i: int|
            0 <= i < self.keys@.len() ==> {
                &&& (#[trigger] self.keys@[i]).wf()
                &&& self.key_at(i).len() > 0
                &&& 0 <= self.point_at(i) < self.points@.len()
                &&& self.key_at(self.canonical_of_point(self.point_at(i))) == canonical(
                    self.key_at(i),
                )
                &&& self.index@.contains_key(self.keys@[i].spec_hash())
                &&& self.index@[self.keys@[i].spec_hash()]@.contains(i as usize)
            }
        &&& forall|i: int, j: int|
            0 <= i < self.keys@.len() && 0 <= j < self.keys@.len() && i != j ==> #[trigger]
                self.key_at(i) != #[trigger] self.key_at(j)
        &&& forall|p: int|
            0 <= p < self.points@.len() ==> {
                &&& 0 <= #[trigger] self.canonical_of_point(p) < self.keys@.len()
                &&& self.point_at(self.canonical_of_point(p)) == p
                &&& canonical(self.key_at(self.canonical_of_point(p))) == self.key_at(
                    self.canonical_of_point(p),
                )
            }
        &&& forall|h: u64, j: int|
            self.index@.contains_key(h) && 0 <= j < self.index@[h]@.len() ==> #[trigger]
                self.index@[h]@[j] < self.keys@.len()
    }

    spec fn key_set(&self) -> Set<Seq<AttrBytes>> {
        Set::new(|k: Seq<AttrBytes>| self.has_key(k))
    }

    spec fn metric_map(&self) -> Map<Seq<AttrBytes>, u64> {
        Map::new(
            |k: Seq<AttrBytes>| self.has_key(k) && canonical(k) == k,
            |k: Seq<AttrBytes>| self.sum_under(k),
        )
    }
}

impl View for CounterInner {
    type V = CounterView;

    closed spec fn view(&self) -> CounterView {
        CounterView { zero: self.zero_attribute_point, keys: self.key_set(), metrics: self.metric_map() }
    }
}

impl CounterInner {
    /// An empty store.
    pub fn new() -> (r: CounterInner)
        ensures
            r.inv(),
            r@.wf(),
            r@ == CounterView::empty(),
    {
        let r = CounterInner {
            index: HashMap::new(),
            keys: Vec::new(),
            key_points: Vec::new(),
            points: Vec::new(),
            point_keys: Vec::new(),
            zero_attribute_point: 0,
        };
        assert(r@.keys =~= Set::empty());
        assert(r@.metrics =~= Map::empty());
        r
    }

    /// Drops every counter and sets the count without attributes to zero.
    pub fn cleanup(&mut self)
        ensures
            final(self).inv(),
            final(self)@.wf(),
            final(self)@ == old(self)@.cleared(),
    {
        self.index.clear();
        self.keys.clear();
        self.key_points.clear();
        self.points.clear();
        self.point_keys.clear();
        self.zero_attribute_point = 0;
        assert(self@.keys =~= Set::empty());
        assert(self@.metrics =~= Map::empty());
    }

    /// The position of `key` among the keys, if it is one.
    fn find(&self, key: &MetricAttributes) -> (r: Option<usize>)
        requires
            self.inv(),
            key.wf(),
        ensures
            match r {
                Some(i) => i < self.keys@.len() && self.key_at(i as int) == key@,
                None => !self.has_key(key@),
            },
    {
        let h = key.hash_value();
        match self.index.get(&h) {
            None => {
                assert forall|i: int| 0 <= i < self.keys@.len() implies #[trigger] self.key_at(i)
                    != key@ by {
                    assert(self.keys@[i].wf());
                }
                None
            },
            Some(bucket) => {
                let mut j: usize = 0;
                while j < bucket.len()
                    invariant
                        self.inv(),
                        key.wf(),
                        self.index@.contains_key(h),
                        bucket@ == self.index@[h]@,
                        h == key.spec_hash(),
                        j <= bucket@.len(),
                        forall|m: int| 0 <= m < j ==> #[trigger] self.key_at(bucket@[m] as int) != key@,
                    decreases bucket@.len() - j,
                {
                    let i = bucket[j];
                    assert(i < self.keys@.len());
                    if self.keys[i].same_key(key) {
                        return Some(i);
                    }
                    j = j + 1;
                }
                assert forall|i: int| 0 <= i < self.keys@.len() implies #[trigger] self.key_at(i)
                    != key@ by {
                    assert(self.keys@[i].wf());
                    if self.key_at(i) == key@ {
                        assert(self.keys@[i].spec_hash() == h);
                        assert(bucket@.contains(i as usize));
                        let m = choose|m: int| 0 <= m < bucket@.len() && bucket@[m] == i as usize;
                        assert(bucket@[m] as int == i);
                        assert(self.key_at(bucket@[m] as int) != key@);
                    }
                }
                None
            },
        }
    }

    proof fn lemma_position(&self, i: int)
        requires
            self.inv(),
            0 <= i < self.keys@.len(),
        ensures
            self.has_key(self.key_at(i)),
            self.position_of(self.key_at(i)) == i,
    {
        let k = self.key_at(i);
        assert(self.has_key(k));
        let e = self.position_of(k);
        if e != i {
            assert(self.key_at(e) != self.key_at(i));
        }
    }

    /// A store whose counters changed value, and nothing else, keeps the invariant.
    proof fn lemma_same_shape(pre: &CounterInner, post: &CounterInner)
        requires
            pre.inv(),
            post.keys == pre.keys,
            post.key_points == pre.key_points,
            post.point_keys == pre.point_keys,
            post.index == pre.index,
            post.points@.len() == pre.points@.len(),
        ensures
            post.inv(),
    {
        assert forall|i: int| 0 <= i < post.keys@.len() implies {
            &&& (#[trigger] post.keys@[i]).wf()
            &&& post.key_at(i).len() > 0
            &&& 0 <= post.point_at(i) < post.points@.len()
            &&& post.key_at(post.canonical_of_point(post.point_at(i))) == canonical(post.key_at(i))
            &&& post.index@.contains_key(post.keys@[i].spec_hash())
            &&& post.index@[post.keys@[i].spec_hash()]@.contains(i as usize)
        } by {
            assert(pre.keys@[i].wf());
        }
        assert forall|i: int, j: int|
            0 <= i < post.keys@.len() && 0 <= j < post.keys@.len() && i != j implies #[trigger]
            post.key_at(i) != #[trigger] post.key_at(j) by {
            assert(pre.key_at(i) != pre.key_at(j));
        }
        assert forall|p: int| 0 <= p < post.points@.len() implies {
            &&& 0 <= #[trigger] post.canonical_of_point(p) < post.keys@.len()
            &&& post.point_at(post.canonical_of_point(p)) == p
            &&& canonical(post.key_at(post.canonical_of_point(p))) == post.key_at(
                post.canonical_of_point(p),
            )
        } by {
            assert(0 <= pre.canonical_of_point(p) < pre.keys@.len());
        }
    }

    /// Stores with the same keys and counters have the same view.
    proof fn lemma_same_content(pre: &CounterInner, post: &CounterInner)
        requires
            pre.inv(),
            post.inv(),
            post.keys@ == pre.keys@,
            post.key_points@ == pre.key_points@,
            post.points@ == pre.points@,
        ensures
            post.key_set() == pre.key_set(),
            post.metric_map() == pre.metric_map(),
    {
        assert forall|k: Seq<AttrBytes>| post.has_key(k) == pre.has_key(k) by {
            if post.has_key(k) {
                let w = choose|w: int| 0 <= w < post.keys@.len() && #[trigger] post.key_at(w) == k;
                assert(pre.key_at(w) == k);
            }
            if pre.has_key(k) {
                let w = choose|w: int| 0 <= w < pre.keys@.len() && #[trigger] pre.key_at(w) == k;
                assert(post.key_at(w) == k);
            }
        }
        assert(post.key_set() =~= pre.key_set());
        assert forall|k: Seq<AttrBytes>| pre.has_key(k) implies #[trigger] post.sum_under(k)
            == pre.sum_under(k) by {
            let w = choose|w: int| 0 <= w < pre.keys@.len() && #[trigger] pre.key_at(w) == k;
            pre.lemma_position(w);
            assert(post.key_at(w) == k);
            post.lemma_position(w);
        }
        assert(post.metric_map() =~= pre.metric_map());
    }

    /// Adds one to the counter that the key at position `i` leads to.
    fn bump(&mut self, i: usize)
        requires
            old(self).inv(),
            i < old(self).keys@.len(),
        ensures
            final(self).inv(),
            old(self)@.metrics.contains_key(canonical(old(self).key_at(i as int))),
            final(self)@ == (CounterView {
                metrics: old(self)@.metrics.insert(
                    canonical(old(self).key_at(i as int)),
                    wrapping_sum(old(self)@.metrics[canonical(old(self).key_at(i as int))], 1),
                ),
                ..old(self)@
            }),
    {
        let ghost pre = *self;
        let ghost c = canonical(pre.key_at(i as int));
        let p = self.key_points[i];
        self.points[p].add(1);
        proof {
            CounterInner::lemma_same_shape(&pre, &*self);
            let e0 = pre.canonical_of_point(p as int);
            lemma_canonical_idempotent(pre.key_at(i as int));
            pre.lemma_position(e0);
            assert(pre.key_at(e0) == c);
            assert(pre@.metrics.contains_key(c));
            assert(self.key_set() =~= pre.key_set()) by {
                assert forall|k: Seq<AttrBytes>| self.has_key(k) == pre.has_key(k) by {
                    if self.has_key(k) {
                        let w = choose|w: int| 0 <= w < self.keys@.len() && #[trigger] self.key_at(w) == k;
                        assert(pre.key_at(w) == k);
                    }
                    if pre.has_key(k) {
                        let w = choose|w: int| 0 <= w < pre.keys@.len() && #[trigger] pre.key_at(w) == k;
                        assert(self.key_at(w) == k);
                    }
                }
            }
            assert forall|k: Seq<AttrBytes>| pre.has_key(k) implies #[trigger] self.position_of(k)
                == pre.position_of(k) by {
                let w = choose|w: int| 0 <= w < pre.keys@.len() && #[trigger] pre.key_at(w) == k;
                pre.lemma_position(w);
                assert(self.key_at(w) == k);
                self.lemma_position(w);
            }
            assert forall|k: Seq<AttrBytes>| pre.has_key(k) && canonical(k) == k && k != c implies #[trigger] self.sum_under(k)
                == pre.sum_under(k) by {
                let w = pre.position_of(k);
                let q = pre.point_at(w);
                if q == p as int {
                    assert(pre.key_at(pre.canonical_of_point(q)) == canonical(k));
                }
            }
            assert(pre.position_of(c) == e0);
            assert(self.position_of(c) == e0);
            assert(pre.point_at(e0) == p as int);
            assert(self.sum_under(c) == wrapping_sum(pre.sum_under(c), 1));
            assert forall|k: Seq<AttrBytes>| self.has_key(k) == pre.has_key(k) by {
                assert(self.key_set().contains(k) == pre.key_set().contains(k));
            }
            assert(self.metric_map() =~= pre.metric_map().insert(c, wrapping_sum(pre.sum_under(c), 1)));
        }
    }

    /// Records that the key at position `pos` has hash `h`.
    fn index_push(&mut self, h: u64, pos: usize)
        ensures
            final(self).keys == old(self).keys,
            final(self).key_points == old(self).key_points,
            final(self).points == old(self).points,
            final(self).point_keys == old(self).point_keys,
            final(self).zero_attribute_point == old(self).zero_attribute_point,
            final(self).index@.dom() == old(self).index@.dom().insert(h),
            final(self).index@[h]@ == (if old(self).index@.contains_key(h) {
                old(self).index@[h]@
            } else {
                Seq::empty()
            }).push(pos),
            forall|g: u64| g != h && #[trigger] old(self).index@.contains_key(g) ==> final(self).index@[g]
                == old(self).index@[g],
            forall|g: u64, x: usize|
                old(self).index@.contains_key(g) && #[trigger] old(self).index@[g]@.contains(x)
                    ==> final(self).index@.contains_key(g) && final(self).index@[g]@.contains(x),
            final(self).index@[h]@.contains(pos),
            forall|g: u64, j: int|
                final(self).index@.contains_key(g) && 0 <= j < final(self).index@[g]@.len() ==> {
                    ||| #[trigger] final(self).index@[g]@[j] == pos
                    ||| (old(self).index@.contains_key(g) && old(self).index@[g]@.contains(
                        final(self).index@[g]@[j],
                    ))
                },
    {
        let mut bucket = match self.index.remove(&h) {
            Some(b) => b,
            None => Vec::new(),
        };
        bucket.push(pos);
        self.index.insert(h, bucket);
        assert(self.index@.dom() =~= old(self).index@.dom().insert(h));
        assert(self.index@[h]@[self.index@[h]@.len() - 1] == pos);
        assert forall|g: u64, x: usize|
            old(self).index@.contains_key(g) && #[trigger] old(self).index@[g]@.contains(x)
                implies self.index@.contains_key(g) && self.index@[g]@.contains(x) by {
            if g == h {
                let j = choose|j: int| 0 <= j < old(self).index@[g]@.len() && old(self).index@[g]@[j] == x;
                assert(self.index@[g]@[j] == x);
            }
        }
        assert forall|g: u64, j: int|
            self.index@.contains_key(g) && 0 <= j < self.index@[g]@.len() implies {
                ||| #[trigger] self.index@[g]@[j] == pos
                ||| (old(self).index@.contains_key(g) && old(self).index@[g]@.contains(
                    self.index@[g]@[j],
                ))
            } by {
            if g != h {
                assert(old(self).index@[g]@[j] == self.index@[g]@[j]);
            } else if j < self.index@[g]@.len() - 1 {
                assert(old(self).index@[g]@[j] == self.index@[g]@[j]);
            }
        }
    }

    /// Makes a counter with sum one for an attribute set not seen before,
    /// reached from `key` and from its canonical form `sorted`.
    #[verifier::rlimit(40)]
    fn insert_new(&mut self, key: MetricAttributes, sorted: MetricAttributes)
        requires
            old(self).inv(),
            key.wf(),
            sorted.wf(),
            key@.len() > 0,
            sorted@ == canonical(key@),
            !old(self).has_key(key@),
            !old(self).has_key(sorted@),
        ensures
            final(self).inv(),
            final(self)@ == (CounterView {
                keys: old(self)@.keys.insert(key@).insert(sorted@),
                metrics: old(self)@.metrics.insert(sorted@, 1),
                ..old(self)@
            }),
    {
        let ghost pre = *self;
        let ghost kv = key@;
        let ghost sv = sorted@;
        proof {
            lemma_canonical_idempotent(kv);
            lemma_canonical(kv);
        }
        let q = self.points.len();
        self.points.push(MetricPoint::new());
        if key.same_key(&sorted) {
            let n = self.keys.len();
            self.index_push(sorted.hash_value(), n);
            self.keys.push(sorted);
            self.key_points.push(q);
            self.point_keys.push(n);
        } else {
            let n = self.keys.len();
            self.index_push(key.hash_value(), n);
            self.keys.push(key);
            self.key_points.push(q);
            let m = self.keys.len();
            self.index_push(sorted.hash_value(), m);
            self.keys.push(sorted);
            self.key_points.push(q);
            self.point_keys.push(m);
        }
        let total = self.keys.len();
        proof {
            let n = pre.keys@.len();
            let last = total - 1;
            assert(self.key_at(last) == sv);
            assert(forall|i: int| 0 <= i < n ==> #[trigger] self.keys@[i] == pre.keys@[i]);
            assert(forall|i: int| 0 <= i < n ==> #[trigger] self.key_points@[i] == pre.key_points@[i]);
            assert(forall|p: int| 0 <= p < q ==> #[trigger] self.point_keys@[p] == pre.point_keys@[p]);
            assert(forall|p: int| 0 <= p < q ==> #[trigger] self.points@[p] == pre.points@[p]);
            assert(forall|i: int| n <= i < total ==> #[trigger] self.key_at(i) == kv || self.key_at(i) == sv);
            assert(forall|i: int| n <= i < total ==> #[trigger] self.point_at(i) == q);
            assert(self.canonical_of_point(q as int) == last);
            assert forall|i: int| 0 <= i < total implies {
                &&& (#[trigger] self.keys@[i]).wf()
                &&& self.key_at(i).len() > 0
                &&& 0 <= self.point_at(i) < self.points@.len()
                &&& self.key_at(self.canonical_of_point(self.point_at(i))) == canonical(self.key_at(i))
                &&& self.index@.contains_key(self.keys@[i].spec_hash())
                &&& self.index@[self.keys@[i].spec_hash()]@.contains(i as usize)
            } by {
                if i < n {
                    assert(pre.keys@[i].wf());
                    assert(self.canonical_of_point(self.point_at(i)) == pre.canonical_of_point(pre.point_at(i)));
                }
            }
            assert forall|i: int, j: int|
                0 <= i < total && 0 <= j < total && i != j implies #[trigger]
                self.key_at(i) != #[trigger] self.key_at(j) by {
                if i < n && j < n {
                    assert(pre.key_at(i) != pre.key_at(j));
                } else if i < n {
                    assert(pre.key_at(i) == self.key_at(i));
                } else if j < n {
                    assert(pre.key_at(j) == self.key_at(j));
                }
            }
            assert forall|p: int| 0 <= p < self.points@.len() implies {
                &&& 0 <= #[trigger] self.canonical_of_point(p) < self.keys@.len()
                &&& self.point_at(self.canonical_of_point(p)) == p
                &&& canonical(self.key_at(self.canonical_of_point(p))) == self.key_at(
                    self.canonical_of_point(p),
                )
            } by {
                if p < q {
                    assert(0 <= pre.canonical_of_point(p) < pre.keys@.len());
                }
            }
            assert forall|h: u64, j: int|
                self.index@.contains_key(h) && 0 <= j < self.index@[h]@.len() implies #[trigger]
                self.index@[h]@[j] < self.keys@.len() by {
            }
            assert(self.keys@.len() == self.key_points@.len());
            assert(self.keys@.len() <= usize::MAX);
            assert(self.points@.len() == self.point_keys@.len());
            assert(self.inv());
            assert forall|k: Seq<AttrBytes>| #[trigger] self.has_key(k) == (pre.has_key(k) || k == kv || k == sv) by {
                if self.has_key(k) {
                    let w = choose|w: int| 0 <= w < self.keys@.len() && #[trigger] self.key_at(w) == k;
                    if w < n {
                        assert(pre.key_at(w) == k);
                    }
                }
                if pre.has_key(k) {
                    let w = choose|w: int| 0 <= w < pre.keys@.len() && #[trigger] pre.key_at(w) == k;
                    assert(self.key_at(w) == k);
                }
                if k == kv {
                    assert(self.key_at(n as int) == kv);
                }
                if k == sv {
                    assert(self.key_at(last) == sv);
                }
            }
            assert(self.key_set() =~= pre.key_set().insert(kv).insert(sv));
            assert forall|k: Seq<AttrBytes>| pre.has_key(k) implies #[trigger] self.sum_under(k)
                == pre.sum_under(k) by {
                let w = choose|w: int| 0 <= w < pre.keys@.len() && #[trigger] pre.key_at(w) == k;
                pre.lemma_position(w);
                assert(self.key_at(w) == k);
                self.lemma_position(w);
            }
            self.lemma_position(last);
            assert(self.sum_under(sv) == 1);
            assert(self.metric_map() =~= pre.metric_map().insert(sv, 1));
        }
    }

    /// Counts one report of `attributes`. The name takes no part in the key:
    /// reports under other names with the same attributes share a counter.
    ///
    /// The list as given is looked up first; only when it is not a key is it
    /// sorted, and its canonical form looked up. A set seen for the first
    /// time gets a counter with sum one, under both forms.
    pub fn add(&mut self, _name: &'static str, attributes: &[Attr])
        requires
            old(self).inv(),
        ensures
            final(self).inv(),
            final(self)@.wf(),
            final(self)@ == old(self)@.added(key_of(attributes@)),
    {
        let ghost k = key_of(attributes@);
        proof {
            old(self).lemma_wf();
        }
        if attributes.len() == 0 {
            self.zero_attribute_point = self.zero_attribute_point.wrapping_add(1);
            proof {
                CounterInner::lemma_same_shape(old(self), self);
                CounterInner::lemma_same_content(old(self), self);
                self.lemma_wf();
            }
            return;
        }
        let metric_attributes = MetricAttributes::new(attributes);
        match self.find(&metric_attributes) {
            Some(i) => {
                proof {
                    lemma_canonical_idempotent(k);
                    let e0 = self.canonical_of_point(self.point_at(i as int));
                    assert(self.key_at(e0) == canonical(k));
                    assert(self.has_key(canonical(k)));
                    assert(self.key_set().contains(k));
                }
                self.bump(i);
                proof {
                    self.lemma_wf();
                }
            },
            None => {
                let metric_attributes_sorted = MetricAttributes::new_sorted(attributes);
                match self.find(&metric_attributes_sorted) {
                    Some(j) => {
                        proof {
                            lemma_canonical_idempotent(k);
                            assert(self.key_set().contains(canonical(k)));
                        }
                        self.bump(j);
                        proof {
                            self.lemma_wf();
                        }
                    },
                    None => {
                        proof {
                            assert(!self.key_set().contains(k));
                            assert(!self.key_set().contains(canonical(k)));
                            assert(!self.metric_map().contains_key(canonical(k)));
                        }
                        self.insert_new(metric_attributes, metric_attributes_sorted);
                        proof {
                            self.lemma_wf();
                        }
                    },
                }
            },
        }
    }

    /// The invariant gives the view its shape.
    pub proof fn lemma_wf(&self)
        requires
            self.inv(),
        ensures
            self@.wf(),
    {
        assert forall|k: Seq<AttrBytes>| #[trigger] self@.keys.contains(k) implies k.len() > 0
            && self@.keys.contains(canonical(k)) by {
            let w = choose|w: int| 0 <= w < self.keys@.len() && #[trigger] self.key_at(w) == k;
            let e = self.canonical_of_point(self.point_at(w));
            assert(self.key_at(e) == canonical(k));
        }
    }

    /// How often the attribute set of `attributes` was reported, in any order.
    pub fn count(&self, attributes: &[Attr]) -> (r: u64)
        requires
            self.inv(),
        ensures
            r == self@.count(key_of(attributes@)),
    {
        let sorted = MetricAttributes::new_sorted(attributes);
        proof {
            lemma_canonical_idempotent(key_of(attributes@));
        }
        match self.find(&sorted) {
            Some(i) => {
                proof {
                    self.lemma_position(i as int);
                }
                self.points[self.key_points[i]].sum()
            },
            None => 0,
        }
    }

    /// Whether `attributes`, in the order given, is a key of the store.
    pub fn contains_key(&self, attributes: &[Attr]) -> (r: bool)
        requires
            self.inv(),
        ensures
            r == self@.keys.contains(key_of(attributes@)),
    {
        let key = MetricAttributes::new(attributes);
        match self.find(&key) {
            Some(_) => true,
            None => false,
        }
    }

    /// The number of reports without attributes.
    pub fn zero_attribute_count(&self) -> (r: u64)
        ensures
            r == self@.zero,
    {
        self.zero_attribute_point
    }

    /// One row for each attribute set: its attributes in canonical order and
    /// its count. A set reached from several orderings is listed once.
    pub fn snapshot(&self) -> (r: Vec<MetricRow>)
        requires
            self.inv(),
        ensures
            forall|i: int| 0 <= i < r@.len() ==> {
                &&& self@.metrics.contains_key(key_of(#[trigger] r@[i].attributes@))
                &&& self@.metrics[key_of(r@[i].attributes@)] == r@[i].sum
            },
            forall|k: Seq<AttrBytes>| #[trigger]
                self@.metrics.contains_key(k) ==> exists|i: int|
                    0 <= i < r@.len() && key_of(#[trigger] r@[i].attributes@) == k,
            forall|i: int, j: int|
                0 <= i < r@.len() && 0 <= j < r@.len() && i != j ==> key_of(
                    #[trigger] r@[i].attributes@,
                ) != key_of(#[trigger] r@[j].attributes@),
    {
        let mut rows: Vec<MetricRow> = Vec::new();
        let mut p: usize = 0;
        while p < self.points.len()
            invariant
                self.inv(),
                p <= self.points@.len(),
                rows@.len() == p,
                forall|m: int| 0 <= m < p ==> {
                    &&& key_of(#[trigger] rows@[m].attributes@) == self.key_at(self.canonical_of_point(m))
                    &&& rows@[m].sum == self.points@[m]@
                },
            decreases self.points@.len() - p,
        {
            let e = self.point_keys[p];
            assert(0 <= self.canonical_of_point(p as int) < self.keys@.len());
            let attributes = copy_attributes(self.keys[e].attributes().as_slice());
            rows.push(MetricRow { attributes, sum: self.points[p].sum() });
            p = p + 1;
        }
        proof {
            assert forall|i: int| 0 <= i < rows@.len() implies {
                &&& self@.metrics.contains_key(key_of(#[trigger] rows@[i].attributes@))
                &&& self@.metrics[key_of(rows@[i].attributes@)] == rows@[i].sum
            } by {
                let e = self.canonical_of_point(i);
                self.lemma_position(e);
            }
            assert forall|k: Seq<AttrBytes>| #[trigger]
                self@.metrics.contains_key(k) implies exists|i: int|
                    0 <= i < rows@.len() && key_of(#[trigger] rows@[i].attributes@) == k by {
                let w = choose|w: int| 0 <= w < self.keys@.len() && #[trigger] self.key_at(w) == k;
                let q = self.point_at(w);
                assert(key_of(rows@[q].attributes@) == k);
            }
            assert forall|i: int, j: int|
                0 <= i < rows@.len() && 0 <= j < rows@.len() && i != j implies key_of(
                    #[trigger] rows@[i].attributes@,
                ) != key_of(#[trigger] rows@[j].attributes@) by {
                let ei = self.canonical_of_point(i);
                let ej = self.canonical_of_point(j);
                if ei != ej {
                    assert(self.key_at(ei) != self.key_at(ej));
                }
            }
        }
        rows
    }
}

} // verus!
