//! The collector's query engine: pure functions over the in-memory history
//! of observations.

use vstd::prelude::*;

pub mod last;
pub mod long;
pub mod metrics;
pub mod query;
pub mod units;

verus! {

/// The snapshot history held by the collector: observations in arrival order.
pub struct Data {
    pub inner: Vec<crate::codec::Observation>,
}

} // verus!
