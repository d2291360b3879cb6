use probe_telemetry::pipeline::{raw_consume_cycle, tally_consume_cycle, HANDOFF_CAPACITY};
use probe_telemetry::records::{PreadQueryRecord, RawPreadRecord};
use probe_telemetry::tally::PassThroughTally;
use probe_telemetry::window::{AggregateState, WindowAggregator};

fn ev(time: u64, fd: u64, cpu: u64, count: u64) -> RawPreadRecord {
    RawPreadRecord { time, fd, cpu, count }
}

#[test]
fn raw_cycle_folds_a_waiting_batch_in() {
    let (tx, rx) = crossbeam::channel::bounded::<Vec<RawPreadRecord>>(HANDOFF_CAPACITY);
    tx.send(vec![ev(1, 1, 0, 5), ev(2, 1, 0, 3)]).unwrap();
    let mut agg = WindowAggregator::new();
    let keep_going = raw_consume_cycle(&mut agg, false, &rx);
    assert!(keep_going);
    assert_eq!(agg.events_total(), 2);
    assert_eq!(agg.lookup(1, 0), Some(AggregateState { count: 2, max: 5, sum: 8 }));
}

#[test]
fn raw_cycle_stops_untouched_on_shutdown() {
    let (tx, rx) = crossbeam::channel::bounded::<Vec<RawPreadRecord>>(HANDOFF_CAPACITY);
    tx.send(vec![ev(1, 1, 0, 5)]).unwrap();
    let mut agg = WindowAggregator::new();
    let keep_going = raw_consume_cycle(&mut agg, true, &rx);
    assert!(!keep_going);
    assert_eq!(agg.events_total(), 0);
    assert_eq!(agg.bucket_count(), 0);
}

#[test]
fn raw_cycle_continues_through_a_timeout() {
    let (_tx, rx) = crossbeam::channel::bounded::<Vec<RawPreadRecord>>(HANDOFF_CAPACITY);
    let mut agg = WindowAggregator::new();
    let keep_going = raw_consume_cycle(&mut agg, false, &rx);
    assert!(keep_going);
    assert_eq!(agg.events_total(), 0);
}

#[test]
fn tally_cycle_counts_a_waiting_batch() {
    let (tx, rx) = crossbeam::channel::bounded::<Vec<PreadQueryRecord>>(HANDOFF_CAPACITY);
    let rec = PreadQueryRecord { fd: 1, cpu: 0, count: 4, max_count: 9, avg_count: 5 };
    tx.send(vec![rec, rec, rec]).unwrap();
    let mut tally = PassThroughTally::new();
    let keep_going = tally_consume_cycle(&mut tally, false, &rx);
    assert!(keep_going);
    assert_eq!(tally.total(), 3);
}

#[test]
fn tally_cycle_stops_untouched_on_shutdown() {
    let (tx, rx) = crossbeam::channel::bounded::<Vec<PreadQueryRecord>>(HANDOFF_CAPACITY);
    let rec = PreadQueryRecord { fd: 1, cpu: 0, count: 4, max_count: 9, avg_count: 5 };
    tx.send(vec![rec]).unwrap();
    let mut tally = PassThroughTally::new();
    let keep_going = tally_consume_cycle(&mut tally, true, &rx);
    assert!(!keep_going);
    assert_eq!(tally.total(), 0);
}
