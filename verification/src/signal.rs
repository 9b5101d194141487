//! The flag by which a search is called off, with a count of how often the
//! search has found it set.

use vstd::prelude::*;
use std::sync::atomic::AtomicBool;
use std::sync::atomic::Ordering;
use std::sync::Arc;

verus! {

/// A flag that others may set, and the number of times that `poll` has found
/// it set.  Nothing but `poll` changes that number.
pub struct StopSignal {
    flag: Arc<AtomicBool>,
    seen: Ghost<nat>,
}

impl StopSignal {
    /// How often `poll` has found the flag set.
    pub closed spec fn stops(&self) -> nat {
        self.seen@
    }

    /// The flag itself.
    pub closed spec fn flag(&self) -> Arc<AtomicBool> {
        self.flag
    }

    /// A signal whose flag is not set and was never found set.
    pub fn new() -> (s: Self)
        ensures
            s.stops() == 0,
    {
        StopSignal { flag: Arc::new(AtomicBool::new(false)), seen: Ghost(0) }
    }

    /// A handle on the flag, for whoever is to set it.
    pub fn handle(&self) -> (h: Arc<AtomicBool>)
        ensures
            h == self.flag(),
    {
        self.flag.clone()
    }

    /// Whether the flag is set now.
    pub fn is_set(&self) -> (b: bool) {
        self.flag.load(Ordering::Relaxed)
    }

    /// Looks whether the flag is set, and counts it if so.
    pub fn poll(&mut self) -> (b: bool)
        ensures
            final(self).flag() == old(self).flag(),
            final(self).stops() == old(self).stops() + if b { 1nat } else { 0nat },
    {
        let b = self.is_set();
        if b {
            proof {
                self.seen = Ghost((self.seen@ + 1) as nat);
            }
        }
        b
    }
}

} // verus!
