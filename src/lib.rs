//! The control loop of an operator that keeps an owned workload in step with
//! a desired-application resource: watch caches, an ownership index, a
//! deduplicating work queue with per-key backoff, the reconciler's diff of
//! desired against observed state, and the registration of the resource type.

use vstd::prelude::*;

pub mod key;
pub mod table;
pub mod backoff;
pub mod crds;
pub mod reconciler;
pub mod queue;
pub mod ownership;
pub mod cache;
pub mod controller;
pub mod registrar;
pub mod merge;

verus! {

} // verus!
