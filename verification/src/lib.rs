//! Maximally coalesced sets of half-open intervals.
//!
//! A [`store::CoalescedIntervals`] ingests half-open intervals `[start, limit)`
//! and keeps them merged into the fewest possible disjoint intervals: adding an
//! interval that overlaps or abuts stored ones fuses them into a single run,
//! and adding an interval already covered by a stored one changes nothing.

pub mod model;
pub mod store;

pub use store::CoalescedIntervals;
