//! Attribute lists as store keys, each with its hash.

use std::hash::{Hash, Hasher};
use vstd::prelude::*;
use crate::order::{Attr, AttrBytes, canonical, key_of, sort_attributes, str_eq};

verus! {

/// The hash that ahash's fixed-key hasher gives an attribute list.
pub uninterp spec fn attribute_hash(k: Seq<(Seq<u8>, Seq<u8>)>) -> u64;

/// Relies on ahash's `AHasher::default()`: built without random seeding its
/// keys are fixed constants, and hashing a string feeds it the string's bytes,
/// so the result depends on the bytes of the attributes alone.
#[verifier::external_body]
fn calculate_hash(values: &[Attr]) -> (r: u64)
    ensures
        r == attribute_hash(key_of(values@)),
{
    let mut hasher = ahash::AHasher::default();
    for item in values.iter() {
        item.hash(&mut hasher);
    }
    hasher.finish()
}

/// A copy of an attribute list, in the same order.
pub fn copy_attributes(attributes: &[Attr]) -> (r: Vec<Attr>)
    ensures
        r@ == attributes@,
{
    let mut r: Vec<Attr> = Vec::new();
    let mut i: usize = 0;
    while i < attributes.len()
        invariant
            i <= attributes@.len(),
            r@ == attributes@.subrange(0, i as int),
        decreases attributes@.len() - i,
    {
        r.push(attributes[i]);
        assert(attributes@.subrange(0, i + 1) =~= attributes@.subrange(0, i as int).push(
            attributes@[i as int],
        ));
        i = i + 1;
    }
    assert(attributes@.subrange(0, i as int) =~= attributes@);
    r
}

/// An attribute list exactly as given, with its hash computed once.
/// Two lists with the same attributes in another order are other keys.
pub struct MetricAttributes {
    attributes: Vec<Attr>,
    hash_value: u64,
}

impl View for MetricAttributes {
    type V = Seq<AttrBytes>;

    closed spec fn view(&self) -> Seq<AttrBytes> {
        key_of(self.attributes@)
    }
}

impl MetricAttributes {
    /// The stored hash.
    pub closed spec fn spec_hash(&self) -> u64 {
        self.hash_value
    }

    /// The stored hash is the hash of the attributes.
    pub open spec fn wf(&self) -> bool {
        self.spec_hash() == attribute_hash(self@)
    }

    /// A key for `attributes`, in the order given.
    pub fn new(attributes: &[Attr]) -> (r: MetricAttributes)
        ensures
            r@ == key_of(attributes@),
            r.wf(),
    {
        MetricAttributes::new_from_vec(copy_attributes(attributes))
    }

    /// A key that takes over `attributes`, in the order they stand.
    pub fn new_from_vec(attributes: Vec<Attr>) -> (r: MetricAttributes)
        ensures
            r@ == key_of(attributes@),
            r.wf(),
    {
        let hash_value = calculate_hash(attributes.as_slice());
        MetricAttributes { attributes, hash_value }
    }

    /// A key for the canonical form of `attributes`: sorted by name, then
    /// by value.
    pub fn new_sorted(attributes: &[Attr]) -> (r: MetricAttributes)
        ensures
            r@ == canonical(key_of(attributes@)),
            r.wf(),
    {
        MetricAttributes::new_from_vec(sort_attributes(attributes))
    }

    /// The attributes, in the order given.
    pub fn attributes(&self) -> (r: &Vec<Attr>)
        ensures
            key_of(r@) == self@,
    {
        &self.attributes
    }

    /// The stored hash.
    pub fn hash_value(&self) -> (r: u64)
        ensures
            r == self.spec_hash(),
    {
        self.hash_value
    }

    /// Whether both keys hold the same attributes in the same order. Keys
    /// whose hashes differ are told apart without reading the attributes.
    pub fn same_key(&self, other: &MetricAttributes) -> (r: bool)
        requires
            self.wf(),
            other.wf(),
        ensures
            r == (self@ == other@),
    {
        if self.hash_value != other.hash_value {
            return false;
        }
        if self.attributes.len() != other.attributes.len() {
            assert(self@.len() != other@.len());
            return false;
        }
        let mut i: usize = 0;
        while i < self.attributes.len()
            invariant
                i <= self@.len(),
                self@.len() == other@.len(),
                self@.subrange(0, i as int) == other@.subrange(0, i as int),
            decreases self@.len() - i,
        {
            let a = &self.attributes[i];
            let b = &other.attributes[i];
            if !str_eq(a.0, b.0) || !str_eq(a.1, b.1) {
                assert(self@[i as int] != other@[i as int]);
                return false;
            }
            assert(self@.subrange(0, i + 1) =~= self@.subrange(0, i as int).push(self@[i as int]));
            assert(other@.subrange(0, i + 1) =~= other@.subrange(0, i as int).push(
                other@[i as int],
            ));
            i = i + 1;
        }
        assert(self@ =~= self@.subrange(0, i as int));
        assert(other@ =~= other@.subrange(0, i as int));
        true
    }
}

} // verus!
