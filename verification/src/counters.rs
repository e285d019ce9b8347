//! Counters that a heap file keeps of the pages read and written. They are
//! std's atomic counters, raised through shared references, perhaps by
//! several threads at once. They are there to be looked at: no contract
//! says what a counter holds, since nothing here can know it.
use vstd::prelude::*;
use std::sync::atomic::{AtomicU16, Ordering};

verus! {

/// A counter that starts at zero: `AtomicU16::new`.
pub(crate) fn new_counter() -> AtomicU16 {
    AtomicU16::new(0)
}

/// Counts one more, wrapping round at the greatest count:
/// `AtomicU16::fetch_add`.
pub(crate) fn count_one(counter: &AtomicU16) {
    let _ = counter.fetch_add(1, Ordering::Relaxed);
}

/// The present count: `AtomicU16::load`.
pub(crate) fn count_of(counter: &AtomicU16) -> u16 {
    counter.load(Ordering::Relaxed)
}

} // verus!
