//! One counter cell.

use vstd::prelude::*;

verus! {

/// The sum held by one counter cell.
pub struct MetricPointInner {
    sum: u64,
}

impl MetricPointInner {
    /// The sum held.
    pub closed spec fn spec_sum(&self) -> u64 {
        self.sum
    }

    /// A cell made for a first occurrence: its sum starts at one.
    pub fn new() -> (r: MetricPointInner)
        ensures
            r.spec_sum() == 1,
    {
        MetricPointInner { sum: 1 }
    }
}

/// A counter cell of the store. Every ordering of an attribute set leads to
/// the same cell, as an index into the store's list of cells.
pub struct MetricPoint {
    inner: MetricPointInner,
}

/// `a + b`, wrapped round at 2^64 as an unsigned 64-bit sum is.
pub open spec fn wrapping_sum(a: u64, b: int) -> u64 {
    ((a as int + b) % 0x1_0000_0000_0000_0000) as u64
}

impl View for MetricPoint {
    type V = u64;

    closed spec fn view(&self) -> u64 {
        self.inner.spec_sum()
    }
}

impl MetricPoint {
    /// A cell for a first occurrence, with sum one.
    pub fn new() -> (r: MetricPoint)
        ensures
            r@ == 1,
    {
        MetricPoint { inner: MetricPointInner::new() }
    }

    /// Adds `value` to the sum, wrapping round at 2^64.
    pub fn add(&mut self, value: u32)
        ensures
            final(self)@ == wrapping_sum(old(self)@, value as int),
    {
        self.inner.sum = self.inner.sum.wrapping_add(value as u64);
    }

    /// The sum, cut to its low 32 bits.
    pub fn get_sum(&self) -> (r: u32)
        ensures
            r as int == self@ as int % 0x1_0000_0000,
    {
        (self.inner.sum % 0x1_0000_0000) as u32
    }

    /// The whole sum.
    pub fn sum(&self) -> (r: u64)
        ensures
            r == self@,
    {
        self.inner.sum
    }
}

} // verus!
