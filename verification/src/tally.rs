//! The pass-through tally for the pre-aggregated paths: the producer has
//! already reduced its events, so the consumer only counts the aggregate
//! records it receives.

use crate::records::PreadQueryRecord;
use crate::window::sat_add64;
use vstd::prelude::*;

verus! {

/// A running total of aggregate records received.
pub struct PassThroughTally {
    total: u64,
}

impl View for PassThroughTally {
    type V = u64;

    closed spec fn view(&self) -> u64 {
        self.total
    }
}

impl PassThroughTally {
    /// A fresh tally of zero.
    pub fn new() -> (t: Self)
        ensures
            t@ == 0,
    {
        PassThroughTally { total: 0 }
    }

    /// The records tallied so far.
    pub fn total(&self) -> (n: u64)
        ensures
            n == self@,
    {
        self.total
    }

    /// Tally one batch: the total grows by exactly the batch's length.
    pub fn process_batch(&mut self, batch: &Vec<PreadQueryRecord>)
        ensures
            final(self)@ == sat_add64(old(self)@, batch@.len() as u64),
    {
        let n = batch.len() as u64;
        if self.total <= u64::MAX - n {
            self.total = self.total + n;
        } else {
            self.total = u64::MAX;
        }
    }
}

} // verus!
