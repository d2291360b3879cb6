//! The batch callback bridge: invoked with one raw byte buffer per readable
//! chunk of the producer's ring buffer, it validates the buffer's framing,
//! decodes it into a batch, and forwards the batch over the hand-off channel.

use crate::channel::send_value;
use crate::codec::{decode_batch, spec_decode_batch};
use crate::records::FromBytes;
use vstd::prelude::*;

verus! {

/// What the poll loop is told after each callback: keep polling, or stop.
#[derive(Clone, Copy, Debug, PartialEq, Eq, Structural)]
pub enum PollControl {
    Continue,
    Stop,
}

/// The bridge's decision about one buffer: stop the poll loop, or forward a
/// decoded batch.
#[derive(Debug)]
pub enum BridgeDecision<T> {
    Stop,
    Forward(Vec<T>),
}

/// Decide what to do with one ring-buffer chunk.
///
/// Once the shutdown flag is observed set, the buffer is not even inspected
/// and no batch is ever forwarded. A buffer whose length is not an exact
/// multiple of the record's wire size is an unrecoverable framing error:
/// nothing is decoded and the poll loop is stopped. Any other buffer decodes
/// to exactly its sequence of records.
pub fn decide_batch<T: FromBytes>(shutdown: bool, buf: &[u8]) -> (d: BridgeDecision<T>)
    ensures
        shutdown ==> d is Stop,
        !shutdown && buf@.len() as int % T::spec_size() != 0 ==> d is Stop,
        !shutdown && buf@.len() as int % T::spec_size() == 0 ==> (d matches BridgeDecision::Forward(
            batch,
        ) && batch@ == spec_decode_batch::<T>(buf@)),
{
    if shutdown {
        return BridgeDecision::Stop;
    }
    proof {
        T::lemma_size_positive();
    }
    let sz = T::wire_size();
    if buf.len() % sz != 0 {
        return BridgeDecision::Stop;
    }
    BridgeDecision::Forward(decode_batch(buf))
}

/// Handle one ring-buffer chunk: decide, and on a forwarding decision enqueue
/// the batch on the hand-off channel.
///
/// The poll loop is told to stop when the shutdown flag was set, when the
/// buffer's framing was wrong, or when the receiving side of the channel is
/// gone (the expected termination path once the consumer has exited).
pub fn handle_chunk<T: FromBytes>(
    shutdown: bool,
    buf: &[u8],
    tx: &crossbeam::channel::Sender<Vec<T>>,
) -> (r: PollControl)
    ensures
        shutdown ==> r == PollControl::Stop,
        !shutdown && buf@.len() as int % T::spec_size() != 0 ==> r == PollControl::Stop,
        r == PollControl::Continue ==> !shutdown && buf@.len() as int % T::spec_size() == 0,
{
    match decide_batch::<T>(shutdown, buf) {
        BridgeDecision::Stop => PollControl::Stop,
        BridgeDecision::Forward(batch) => {
            if send_value(tx, batch) {
                PollControl::Continue
            } else {
                PollControl::Stop
            }
        },
    }
}

} // verus!
