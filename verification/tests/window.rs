use probe_telemetry::records::RawPreadRecord;
use probe_telemetry::window::{AggregateState, WindowAggregator, WINDOW_NS};

fn ev(time: u64, fd: u64, cpu: u64, count: u64) -> RawPreadRecord {
    RawPreadRecord { time, fd, cpu, count }
}

#[test]
fn single_window_accumulates_true_statistics() {
    // all timestamps strictly increase and stay within one second of the
    // first: no flush, and each bucket holds count, max and sum exactly
    let mut agg = WindowAggregator::new();
    let events = vec![
        ev(100, 1, 0, 10),
        ev(200, 2, 1, 7),
        ev(300, 1, 0, 25),
        ev(400, 1, 0, 5),
        ev(500, 2, 1, 7),
    ];
    for e in &events {
        assert_eq!(agg.process_event(*e), None);
    }
    assert_eq!(agg.bucket_count(), 2);
    assert_eq!(agg.lookup(1, 0), Some(AggregateState { count: 3, max: 25, sum: 40 }));
    assert_eq!(agg.lookup(2, 1), Some(AggregateState { count: 2, max: 7, sum: 14 }));
    assert_eq!(agg.lookup(3, 0), None);
    assert_eq!(agg.events_total(), 5);
    assert_eq!(agg.samples_total(), 0);
}

#[test]
fn boundary_event_flushes_distinct_key_count() {
    let mut agg = WindowAggregator::new();
    assert_eq!(agg.process_event(ev(0, 1, 0, 1)), None);
    assert_eq!(agg.process_event(ev(1, 2, 0, 1)), None);
    assert_eq!(agg.process_event(ev(2, 3, 0, 1)), None);
    assert_eq!(agg.bucket_count(), 3);
    // exceeds window start (0) by more than one second: one flush of value 3,
    // then the event opens the next window alone
    let flushed = agg.process_event(ev(WINDOW_NS + 1, 9, 9, 4));
    assert_eq!(flushed, Some(3));
    assert_eq!(agg.bucket_count(), 1);
    assert_eq!(agg.lookup(9, 9), Some(AggregateState { count: 1, max: 4, sum: 4 }));
    assert_eq!(agg.lookup(1, 0), None);
    assert_eq!(agg.samples_total(), 3);
    assert_eq!(agg.window_start(), Some(WINDOW_NS + 1));
}

#[test]
fn exactly_one_second_does_not_flush() {
    // the boundary check is strict: t - start must exceed one second
    let mut agg = WindowAggregator::new();
    assert_eq!(agg.process_event(ev(1000, 1, 0, 1)), None);
    assert_eq!(agg.process_event(ev(1000 + WINDOW_NS, 1, 0, 1)), None);
    assert_eq!(agg.samples_total(), 0);
    assert_eq!(agg.lookup(1, 0), Some(AggregateState { count: 2, max: 1, sum: 2 }));
}

#[test]
fn clock_regression_never_flushes() {
    // a timestamp before the window start leaves the boundary unexceeded
    let mut agg = WindowAggregator::new();
    assert_eq!(agg.process_event(ev(5_000_000_000, 1, 0, 1)), None);
    assert_eq!(agg.process_event(ev(100, 2, 0, 8)), None);
    assert_eq!(agg.samples_total(), 0);
    assert_eq!(agg.bucket_count(), 2);
    assert_eq!(agg.window_start(), Some(5_000_000_000));
}

#[test]
fn empty_batch_changes_nothing() {
    let mut agg = WindowAggregator::new();
    agg.process_event(ev(1, 4, 2, 9));
    let empty: Vec<RawPreadRecord> = Vec::new();
    agg.process_batch(&empty);
    assert_eq!(agg.bucket_count(), 1);
    assert_eq!(agg.events_total(), 1);
    assert_eq!(agg.samples_total(), 0);
    assert_eq!(agg.window_start(), Some(1));
    assert_eq!(agg.lookup(4, 2), Some(AggregateState { count: 1, max: 9, sum: 9 }));
}

#[test]
fn three_event_scenario_flushes_one_key_then_tracks_the_next() {
    // two events in the first window share the key (1, 0); the third event
    // crosses the boundary, flushing the single distinct key, and the live
    // state afterwards holds only (2, 1)
    let mut agg = WindowAggregator::new();
    let f1 = agg.process_event(ev(0, 1, 0, 10));
    let f2 = agg.process_event(ev(500_000_000, 1, 0, 20));
    let f3 = agg.process_event(ev(1_500_000_000, 2, 1, 5));
    assert_eq!(f1, None);
    assert_eq!(f2, None);
    assert_eq!(f3, Some(1));
    assert_eq!(agg.bucket_count(), 1);
    assert_eq!(agg.lookup(2, 1), Some(AggregateState { count: 1, max: 5, sum: 5 }));
    assert_eq!(agg.lookup(1, 0), None);
    assert_eq!(agg.samples_total(), 1);
}

#[test]
fn process_batch_matches_event_by_event_processing() {
    let events = vec![
        ev(0, 3, 0, 2),
        ev(10, 1, 1, 4),
        ev(2_000_000_000, 1, 1, 6),
        ev(2_000_000_050, 3, 0, 1),
    ];
    let mut one_by_one = WindowAggregator::new();
    for e in &events {
        one_by_one.process_event(*e);
    }
    let mut batched = WindowAggregator::new();
    batched.process_batch(&events);
    assert_eq!(batched.bucket_count(), one_by_one.bucket_count());
    assert_eq!(batched.samples_total(), one_by_one.samples_total());
    assert_eq!(batched.events_total(), one_by_one.events_total());
    assert_eq!(batched.window_start(), one_by_one.window_start());
    assert_eq!(batched.lookup(1, 1), one_by_one.lookup(1, 1));
    assert_eq!(batched.lookup(3, 0), one_by_one.lookup(3, 0));
}

#[test]
fn counters_saturate_instead_of_wrapping() {
    let mut agg = WindowAggregator::new();
    agg.process_event(ev(1, 1, 0, u64::MAX));
    agg.process_event(ev(2, 1, 0, 3));
    let st = agg.lookup(1, 0).unwrap();
    assert_eq!(st.count, 2);
    assert_eq!(st.max, u64::MAX);
    assert_eq!(st.sum, u64::MAX);
}
