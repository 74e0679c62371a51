//! The canonical order of attributes: by name, then by value, both compared
//! byte by byte.

use vstd::prelude::*;
use vstd::relations::{sorted_by, total_ordering};
use vstd::string::StringSliceAdditionalSpecFns;

verus! {

/// An attribute as a caller reports it: its name and its value.
pub type Attr = (&'static str, &'static str);

/// An attribute seen as the bytes of its name and of its value.
pub type AttrBytes = (Seq<u8>, Seq<u8>);

/// The bytes of an attribute; two attributes are the same exactly when these are.
pub open spec fn attr_bytes(a: Attr) -> AttrBytes {
    (a.0.spec_bytes(), a.1.spec_bytes())
}

/// An attribute list as a sequence of byte pairs, in the order given.
pub open spec fn key_of(attrs: Seq<Attr>) -> Seq<AttrBytes> {
    attrs.map_values(|a: Attr| attr_bytes(a))
}

/// Lexicographic order on byte strings (a prefix comes first).
pub open spec fn bytes_le(a: Seq<u8>, b: Seq<u8>) -> bool
    decreases a.len(),
{
    if a.len() == 0 {
        true
    } else if b.len() == 0 {
        false
    } else if a[0] != b[0] {
        a[0] < b[0]
    } else {
        bytes_le(a.drop_first(), b.drop_first())
    }
}

/// Attributes ordered by name, and by value where the names are equal.
pub open spec fn attr_le(p: AttrBytes, q: AttrBytes) -> bool {
    if p.0 == q.0 {
        bytes_le(p.1, q.1)
    } else {
        bytes_le(p.0, q.0)
    }
}

/// The order of `attr_le` as a relation value.
pub open spec fn attr_order() -> spec_fn(AttrBytes, AttrBytes) -> bool {
    |p: AttrBytes, q: AttrBytes| attr_le(p, q)
}

/// The canonical form of an attribute list: its attributes sorted.
pub open spec fn canonical(k: Seq<AttrBytes>) -> Seq<AttrBytes> {
    k.sort_by(attr_order())
}

/// Two lists that hold the same attributes, each as often, in any order.
pub open spec fn same_set(a: Seq<AttrBytes>, b: Seq<AttrBytes>) -> bool {
    a.to_multiset() == b.to_multiset()
}

proof fn lemma_bytes_le_refl(a: Seq<u8>)
    ensures
        bytes_le(a, a),
    decreases a.len(),
{
    if a.len() > 0 {
        lemma_bytes_le_refl(a.drop_first());
    }
}

proof fn lemma_bytes_le_antisym(a: Seq<u8>, b: Seq<u8>)
    requires
        bytes_le(a, b),
        bytes_le(b, a),
    ensures
        a == b,
    decreases a.len(),
{
    if a.len() > 0 && b.len() > 0 {
        lemma_bytes_le_antisym(a.drop_first(), b.drop_first());
        assert(a =~= seq![a[0]] + a.drop_first());
        assert(b =~= seq![b[0]] + b.drop_first());
    }
}

proof fn lemma_bytes_le_trans(a: Seq<u8>, b: Seq<u8>, c: Seq<u8>)
    requires
        bytes_le(a, b),
        bytes_le(b, c),
    ensures
        bytes_le(a, c),
    decreases a.len(),
{
    if a.len() > 0 && b.len() > 0 && c.len() > 0 && a[0] == b[0] && b[0] == c[0] {
        lemma_bytes_le_trans(a.drop_first(), b.drop_first(), c.drop_first());
    }
}

proof fn lemma_bytes_le_total(a: Seq<u8>, b: Seq<u8>)
    ensures
        bytes_le(a, b) || bytes_le(b, a),
    decreases a.len(),
{
    if a.len() > 0 && b.len() > 0 && a[0] == b[0] {
        lemma_bytes_le_total(a.drop_first(), b.drop_first());
    }
}

/// `attr_le` is a total order.
pub proof fn lemma_attr_order_total()
    ensures
        total_ordering(attr_order()),
{
    let r = attr_order();
    assert forall|x: AttrBytes| #[trigger] r(x, x) by {
        lemma_bytes_le_refl(x.1);
    }
    assert forall|x: AttrBytes, y: AttrBytes| #[trigger] r(x, y) && #[trigger] r(y, x) implies x
        == y by {
        if x.0 == y.0 {
            lemma_bytes_le_antisym(x.1, y.1);
        } else {
            lemma_bytes_le_antisym(x.0, y.0);
        }
    }
    assert forall|x: AttrBytes, y: AttrBytes, z: AttrBytes| #[trigger]
        r(x, y) && #[trigger] r(y, z) implies r(x, z) by {
        if x.0 == y.0 && y.0 == z.0 {
            lemma_bytes_le_trans(x.1, y.1, z.1);
        } else if x.0 == y.0 {
            assert(bytes_le(x.0, z.0));
        } else if y.0 == z.0 {
            assert(bytes_le(x.0, z.0));
        } else {
            lemma_bytes_le_trans(x.0, y.0, z.0);
            if x.0 == z.0 {
                lemma_bytes_le_antisym(x.0, y.0);
            }
        }
    }
    assert forall|x: AttrBytes, y: AttrBytes| #[trigger] r(x, y) || #[trigger] r(y, x) by {
        lemma_bytes_le_total(x.0, y.0);
        lemma_bytes_le_total(x.1, y.1);
    }
}


/// Two lists sorted by `attr_le` that hold the same attributes are equal.
proof fn lemma_sorted_unique(s: Seq<AttrBytes>, t: Seq<AttrBytes>)
    requires
        sorted_by(s, attr_order()),
        sorted_by(t, attr_order()),
        s.to_multiset() == t.to_multiset(),
    ensures
        s == t,
    decreases s.len(),
{
    broadcast use vstd::seq_lib::group_to_multiset_ensures;

    lemma_attr_order_total();
    s.to_multiset_ensures();
    t.to_multiset_ensures();
    if s.len() == 0 {
        assert(t.len() == 0);
        assert(s =~= t);
    } else {
        let a = s[0];
        let b = t[0];
        assert(s.to_multiset().count(a) > 0);
        assert(t.contains(a));
        let j = choose|j: int| 0 <= j < t.len() && t[j] == a;
        if j > 0 {
            assert(attr_order()(t[0], t[j]));
        }
        assert(attr_order()(b, a));
        assert(t.to_multiset().count(b) > 0);
        assert(s.contains(b));
        let k = choose|k: int| 0 <= k < s.len() && s[k] == b;
        if k > 0 {
            assert(attr_order()(s[0], s[k]));
        }
        assert(attr_order()(a, b));
        assert(a == b);
        vstd::seq_lib::to_multiset_remove(s, 0);
        vstd::seq_lib::to_multiset_remove(t, 0);
        assert(s.remove(0) =~= s.drop_first());
        assert(t.remove(0) =~= t.drop_first());
        assert forall|i: int, j: int|
            0 <= i < j < s.drop_first().len() implies #[trigger] attr_order()(
            s.drop_first()[i],
            s.drop_first()[j],
        ) by {
            assert(attr_order()(s[i + 1], s[j + 1]));
        }
        assert forall|i: int, j: int|
            0 <= i < j < t.drop_first().len() implies #[trigger] attr_order()(
            t.drop_first()[i],
            t.drop_first()[j],
        ) by {
            assert(attr_order()(t[i + 1], t[j + 1]));
        }
        lemma_sorted_unique(s.drop_first(), t.drop_first());
        assert(s =~= seq![a] + s.drop_first());
        assert(t =~= seq![b] + t.drop_first());
    }
}

/// The canonical form is a sorted rearrangement of the list.
pub proof fn lemma_canonical(k: Seq<AttrBytes>)
    ensures
        canonical(k).to_multiset() == k.to_multiset(),
        sorted_by(canonical(k), attr_order()),
        canonical(k).len() == k.len(),
{
    lemma_attr_order_total();
    k.lemma_sort_by_ensures(attr_order());
    k.to_multiset_ensures();
    canonical(k).to_multiset_ensures();
}

/// A sorted list is its own canonical form.
pub proof fn lemma_canonical_of_sorted(k: Seq<AttrBytes>)
    requires
        sorted_by(k, attr_order()),
    ensures
        canonical(k) == k,
{
    lemma_canonical(k);
    lemma_sorted_unique(canonical(k), k);
}

/// Two lists have the same canonical form exactly when they hold the same
/// attributes.
pub proof fn lemma_canonical_same_set(a: Seq<AttrBytes>, b: Seq<AttrBytes>)
    ensures
        canonical(a) == canonical(b) <==> same_set(a, b),
{
    lemma_canonical(a);
    lemma_canonical(b);
    if same_set(a, b) {
        lemma_sorted_unique(canonical(a), canonical(b));
    }
}

/// Taking the canonical form twice changes nothing.
pub proof fn lemma_canonical_idempotent(k: Seq<AttrBytes>)
    ensures
        canonical(canonical(k)) == canonical(k),
{
    lemma_canonical(k);
    lemma_canonical_of_sorted(canonical(k));
}

fn bytes_le_exec(a: &[u8], b: &[u8]) -> (r: bool)
    ensures
        r == bytes_le(a@, b@),
{
    let mut i: usize = 0;
    assert(a@.subrange(0, a@.len() as int) =~= a@);
    assert(b@.subrange(0, b@.len() as int) =~= b@);
    while i < a.len() && i < b.len()
        invariant
            i <= a@.len(),
            i <= b@.len(),
            bytes_le(a@, b@) == bytes_le(
                a@.subrange(i as int, a@.len() as int),
                b@.subrange(i as int, b@.len() as int),
            ),
        decreases a@.len() - i,
    {
        if a[i] != b[i] {
            return a[i] < b[i];
        }
        assert(a@.subrange(i as int, a@.len() as int).drop_first() =~= a@.subrange(
            i + 1,
            a@.len() as int,
        ));
        assert(b@.subrange(i as int, b@.len() as int).drop_first() =~= b@.subrange(
            i + 1,
            b@.len() as int,
        ));
        i = i + 1;
    }
    i == a.len()
}

fn bytes_eq_exec(a: &[u8], b: &[u8]) -> (r: bool)
    ensures
        r == (a@ == b@),
{
    if a.len() != b.len() {
        return false;
    }
    let mut i: usize = 0;
    while i < a.len()
        invariant
            i <= a@.len(),
            a@.len() == b@.len(),
            a@.subrange(0, i as int) == b@.subrange(0, i as int),
        decreases a@.len() - i,
    {
        if a[i] != b[i] {
            return false;
        }
        assert(a@.subrange(0, i + 1) =~= a@.subrange(0, i as int).push(a[i as int]));
        assert(b@.subrange(0, i + 1) =~= b@.subrange(0, i as int).push(b[i as int]));
        i = i + 1;
    }
    assert(a@ =~= a@.subrange(0, i as int));
    assert(b@ =~= b@.subrange(0, i as int));
    true
}

/// Whether two strings hold the same bytes.
pub fn str_eq(a: &str, b: &str) -> (r: bool)
    ensures
        r == (a.spec_bytes() == b.spec_bytes()),
{
    bytes_eq_exec(a.as_bytes(), b.as_bytes())
}

/// Whether `a` comes before `b` or equals it, byte by byte.
pub fn str_le(a: &str, b: &str) -> (r: bool)
    ensures
        r == bytes_le(a.spec_bytes(), b.spec_bytes()),
{
    bytes_le_exec(a.as_bytes(), b.as_bytes())
}

/// Whether attribute `p` comes before `q` or equals it in the canonical order.
pub fn attr_le_exec(p: &Attr, q: &Attr) -> (r: bool)
    ensures
        r == attr_le(attr_bytes(*p), attr_bytes(*q)),
{
    if str_eq(p.0, q.0) {
        str_le(p.1, q.1)
    } else {
        str_le(p.0, q.0)
    }
}


/// The attributes of `attrs` in canonical order.
pub fn sort_attributes(attrs: &[Attr]) -> (r: Vec<Attr>)
    ensures
        key_of(r@) == canonical(key_of(attrs@)),
        r@.len() == attrs@.len(),
{
    broadcast use vstd::seq_lib::group_to_multiset_ensures;

    proof {
        lemma_attr_order_total();
    }
    let mut r: Vec<Attr> = Vec::new();
    let mut i: usize = 0;
    while i < attrs.len()
        invariant
            total_ordering(attr_order()),
            i <= attrs@.len(),
            r@.len() == i,
            sorted_by(key_of(r@), attr_order()),
            key_of(r@).to_multiset() == key_of(attrs@.subrange(0, i as int)).to_multiset(),
        decreases attrs@.len() - i,
    {
        let x = attrs[i];
        let ghost bx = attr_bytes(x);
        let ghost kr = key_of(r@);
        let mut pos: usize = 0;
        let mut scanning = true;
        while scanning && pos < r.len()
            invariant
                total_ordering(attr_order()),
                pos <= r@.len(),
                kr == key_of(r@),
                bx == attr_bytes(x),
                forall|k: int| 0 <= k < pos ==> #[trigger] attr_order()(kr[k], bx),
                !scanning ==> pos < r@.len() && !attr_order()(kr[pos as int], bx),
            decreases r@.len() - pos + (if scanning { 1int } else { 0int }),
        {
            let le = attr_le_exec(&r[pos], &x);
            assert(kr[pos as int] == attr_bytes(r@[pos as int]));
            if le {
                pos = pos + 1;
            } else {
                scanning = false;
            }
        }
        proof {
            assert forall|k: int| pos <= k < kr.len() implies #[trigger] attr_order()(bx, kr[k]) by {
                assert(attr_order()(kr[pos as int], bx) || attr_order()(bx, kr[pos as int]));
                if k > pos {
                    assert(attr_order()(kr[pos as int], kr[k]));
                }
            }
        }
        r.insert(pos, x);
        proof {
            let n = kr.insert(pos as int, bx);
            assert(key_of(r@) =~= n);
            assert forall|a: int, b: int| 0 <= a < b < n.len() implies #[trigger] attr_order()(
                n[a],
                n[b],
            ) by {
                if b < pos {
                    assert(attr_order()(kr[a], kr[b]));
                } else if b == pos {
                    assert(attr_order()(kr[a], bx));
                } else if a < pos {
                    assert(attr_order()(kr[a], kr[b - 1]));
                } else if a == pos {
                    assert(attr_order()(bx, kr[b - 1]));
                } else {
                    assert(attr_order()(kr[a - 1], kr[b - 1]));
                }
            }
            vstd::seq_lib::to_multiset_insert(kr, pos as int, bx);
            assert(n.to_multiset() == kr.to_multiset().insert(bx));
            assert(key_of(attrs@.subrange(0, i + 1)) =~= key_of(attrs@.subrange(0, i as int)).push(
                bx,
            ));
            vstd::seq_lib::to_multiset_build(key_of(attrs@.subrange(0, i as int)), bx);
        }
        i = i + 1;
    }
    proof {
        assert(attrs@.subrange(0, i as int) =~= attrs@);
        lemma_canonical(key_of(attrs@));
        lemma_sorted_unique(key_of(r@), canonical(key_of(attrs@)));
    }
    r
}

} // verus!
