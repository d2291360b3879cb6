//! One cycle of each consumption loop: a timed receive on the hand-off
//! channel, a check of the shutdown flag, and the processing of whatever
//! batch arrived. The caller runs the loop and reads the flag once per cycle;
//! each cycle here is verified for every batch the channel may hand back.

use crate::channel::recv_value_timeout_ms;
use crate::records::{PreadQueryRecord, RawPreadRecord};
use crate::tally::PassThroughTally;
use crate::window::{run, sat_add64, WindowAggregator};
use vstd::prelude::*;

verus! {

/// The bounded hand-off channel's capacity, in batches.
pub const HANDOFF_CAPACITY: usize = 1024;

/// How long each cycle waits for a batch before re-checking the shutdown
/// flag, in milliseconds.
pub const RECV_WAIT_MS: u64 = 100;

/// One cycle of the raw-record consumption loop: stop untouched if shutdown
/// was observed; otherwise wait briefly for a batch and fold it in. Whatever
/// the channel hands back, the aggregator advances by exactly that batch.
pub fn raw_consume_cycle(
    agg: &mut WindowAggregator,
    shutdown: bool,
    rx: &crossbeam::channel::Receiver<Vec<RawPreadRecord>>,
) -> (keep_going: bool)
    requires
        old(agg).wf(),
    ensures
        final(agg).wf(),
        keep_going == !shutdown,
        shutdown ==> final(agg)@ == old(agg)@,
        exists|batch: Seq<RawPreadRecord>| final(agg)@ == run(old(agg)@, batch),
{
    let ghost v0 = agg@;
    if shutdown {
        proof {
            assert(run(v0, Seq::<RawPreadRecord>::empty()) == v0);
        }
        return false;
    }
    match recv_value_timeout_ms(rx, RECV_WAIT_MS) {
        Some(batch) => {
            agg.process_batch(&batch);
            proof {
                assert(agg@ == run(v0, batch@));
            }
        },
        None => {
            proof {
                assert(run(v0, Seq::<RawPreadRecord>::empty()) == v0);
            }
        },
    }
    true
}

/// One cycle of the pre-aggregated consumption loop: stop untouched if
/// shutdown was observed; otherwise wait briefly for a batch and tally its
/// length. The total never decreases.
pub fn tally_consume_cycle(
    tally: &mut PassThroughTally,
    shutdown: bool,
    rx: &crossbeam::channel::Receiver<Vec<PreadQueryRecord>>,
) -> (keep_going: bool)
    ensures
        keep_going == !shutdown,
        shutdown ==> final(tally)@ == old(tally)@,
        final(tally)@ >= old(tally)@,
        exists|n: u64| final(tally)@ == sat_add64(old(tally)@, n),
{
    let ghost t0 = tally@;
    if shutdown {
        proof {
            assert(tally@ == sat_add64(t0, 0));
        }
        return false;
    }
    match recv_value_timeout_ms(rx, RECV_WAIT_MS) {
        Some(batch) => {
            tally.process_batch(&batch);
            proof {
                assert(tally@ == sat_add64(t0, batch@.len() as u64));
            }
        },
        None => {
            proof {
                assert(tally@ == sat_add64(t0, 0));
            }
        },
    }
    true
}

} // verus!
