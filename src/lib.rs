//! Counter metrics keyed by attribute lists.
//!
//! Callers report an event together with a list of name/value attributes.
//! Every distinct attribute set gets one counter, whatever order its
//! attributes were reported in; reports without attributes go to a separate
//! count.

pub mod attributes;
pub mod laws;
pub mod order;
pub mod point;
pub mod store;

pub use attributes::MetricAttributes;
pub use order::{Attr, sort_attributes};
pub use point::{MetricPoint, MetricPointInner};
pub use store::{CounterInner, MetricRow};
