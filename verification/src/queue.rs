//! An in-memory message set, kept for callers of the earlier scheme.

use vstd::prelude::*;

verus! {

/// A bag of raw messages with no persistence.
#[derive(Default, Debug)]
pub struct Queue {
    pub message: std::collections::HashSet<Vec<u8>>,
}

impl Queue {
    /// An empty queue.
    pub fn new() -> (r: Queue)
        ensures
            r.message@.len() == 0,
    {
        Queue { message: std::collections::HashSet::new() }
    }
}

} // verus!
