use probe_telemetry::bridge::{decide_batch, handle_chunk, BridgeDecision, PollControl};
use probe_telemetry::pipeline::HANDOFF_CAPACITY;
use probe_telemetry::records::RawPreadRecord;

fn le_bytes(values: &[u64]) -> Vec<u8> {
    let mut out = Vec::new();
    for v in values {
        out.extend_from_slice(&v.to_le_bytes());
    }
    out
}

#[test]
fn misframed_buffer_stops_and_enqueues_nothing() {
    let (tx, rx) = crossbeam::channel::bounded::<Vec<RawPreadRecord>>(HANDOFF_CAPACITY);
    // 33 bytes: not a multiple of the 32-byte wire size
    let mut buf = le_bytes(&[1, 2, 3, 4]);
    buf.push(0xff);
    let r = handle_chunk::<RawPreadRecord>(false, &buf, &tx);
    assert_eq!(r, PollControl::Stop);
    assert!(rx.try_recv().is_err());
}

#[test]
fn shutdown_stops_without_enqueuing() {
    let (tx, rx) = crossbeam::channel::bounded::<Vec<RawPreadRecord>>(HANDOFF_CAPACITY);
    // a perfectly well-framed buffer: shutdown wins regardless
    let buf = le_bytes(&[1, 2, 3, 4]);
    let r = handle_chunk::<RawPreadRecord>(true, &buf, &tx);
    assert_eq!(r, PollControl::Stop);
    assert!(rx.try_recv().is_err());
}

#[test]
fn well_framed_buffer_is_decoded_and_forwarded() {
    let (tx, rx) = crossbeam::channel::bounded::<Vec<RawPreadRecord>>(HANDOFF_CAPACITY);
    let buf = le_bytes(&[10, 1, 0, 512, 20, 1, 0, 256]);
    let r = handle_chunk::<RawPreadRecord>(false, &buf, &tx);
    assert_eq!(r, PollControl::Continue);
    let batch = rx.try_recv().expect("one batch should have been enqueued");
    assert_eq!(batch.len(), 2);
    assert_eq!(batch[0], RawPreadRecord { time: 10, fd: 1, cpu: 0, count: 512 });
    assert_eq!(batch[1], RawPreadRecord { time: 20, fd: 1, cpu: 0, count: 256 });
    assert!(rx.try_recv().is_err());
}

#[test]
fn gone_receiver_is_the_termination_path() {
    let (tx, rx) = crossbeam::channel::bounded::<Vec<RawPreadRecord>>(HANDOFF_CAPACITY);
    drop(rx);
    let buf = le_bytes(&[10, 1, 0, 512]);
    let r = handle_chunk::<RawPreadRecord>(false, &buf, &tx);
    assert_eq!(r, PollControl::Stop);
}

#[test]
fn empty_buffer_forwards_an_empty_batch() {
    let (tx, rx) = crossbeam::channel::bounded::<Vec<RawPreadRecord>>(HANDOFF_CAPACITY);
    let buf: Vec<u8> = Vec::new();
    let r = handle_chunk::<RawPreadRecord>(false, &buf, &tx);
    assert_eq!(r, PollControl::Continue);
    let batch = rx.try_recv().expect("the empty batch should still arrive");
    assert_eq!(batch.len(), 0);
}

#[test]
fn decide_batch_separates_stop_from_forward() {
    let good = le_bytes(&[1, 2, 3, 4]);
    match decide_batch::<RawPreadRecord>(false, &good) {
        BridgeDecision::Forward(batch) => {
            assert_eq!(batch.len(), 1);
            assert_eq!(batch[0].count, 4);
        }
        BridgeDecision::Stop => panic!("a well-framed buffer must be forwarded"),
    }
    let mut bad = le_bytes(&[1, 2, 3, 4]);
    bad.pop();
    assert!(matches!(decide_batch::<RawPreadRecord>(false, &bad), BridgeDecision::Stop));
    assert!(matches!(decide_batch::<RawPreadRecord>(true, &good), BridgeDecision::Stop));
}
