//! Observation: what is happening now, what is unhealthy, and how it got
//! there.
//!
//! A [`Snapshot`] is what a node publishes: the health of each scope of its
//! execution tree and the counts it keeps, read by the operator boundary. A
//! [`History`] keeps a bounded series of those observations per scope. The
//! moods are `Fine`, `Working`, `Stressed`, `Exhausted` and `Done`, with
//! `Holding` the rollup that only a parent shows.
pub mod history;
pub mod keyed;
pub mod scope;
pub mod snapshot;

pub use history::{History, DEFAULT_CAPACITY};
pub use snapshot::{Count, Counted, Health, HealthRecord, Snapshot};
