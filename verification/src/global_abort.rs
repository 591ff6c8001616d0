//! Cooperative cancellation: a latch over a shared atomic flag.

use vstd::prelude::*;
use std::sync::atomic::{AtomicBool, Ordering};

verus! {

/// A view of a shared stop flag that never goes back: once a poll has seen
/// the flag raised, every later poll through the same handle reports it
/// raised too, whatever the shared flag does afterwards.
pub struct AbortFlag<'a> {
    source: &'a AtomicBool,
    seen: bool,
}

impl<'a> AbortFlag<'a> {
    /// Whether some poll through this handle has already seen the flag raised.
    pub closed spec fn seen(&self) -> bool {
        self.seen
    }

    /// A handle on `source` that has not seen it raised yet.
    pub fn new(source: &'a AtomicBool) -> (flag: Self)
        ensures
            !flag.seen(),
    {
        AbortFlag { source, seen: false }
    }

    /// Looks at the shared flag, unless it was seen raised before, and
    /// reports whether the run is to stop.
    pub fn poll(&mut self) -> (raised: bool)
        ensures
            raised == final(self).seen(),
            old(self).seen() ==> raised,
    {
        if !self.seen {
            self.seen = self.source.load(Ordering::Relaxed);
        }
        self.seen
    }

    /// What the last poll reported, without looking at the shared flag.
    pub fn was_raised(&self) -> (raised: bool)
        ensures
            raised == self.seen(),
    {
        self.seen
    }
}

} // verus!
