//! The state behind a progress indicator: a position and a declared
//! length. The length is refreshed from the shared counter's latest
//! value before each copy; the position advances once per file handled.

use vstd::prelude::*;

verus! {

/// The (position, length) pair a progress indicator displays.
pub struct Progress {
    pub position: u64,
    pub length: u64,
}

impl Progress {
    /// A fresh indicator with the given declared length.
    pub fn new(length: u64) -> (r: Progress)
        ensures
            r.position == 0,
            r.length == length,
    {
        Progress { position: 0, length }
    }

    /// Adopts the counter's latest total as the declared length.
    pub fn set_length(&mut self, total: u64)
        ensures
            final(self).position == old(self).position,
            final(self).length == total,
    {
        self.length = total;
    }

    /// One more file handled.
    pub fn advance(&mut self)
        requires
            old(self).position < u64::MAX,
        ensures
            final(self).position == old(self).position + 1,
            final(self).length == old(self).length,
    {
        self.position = self.position + 1;
    }
}

} // verus!
