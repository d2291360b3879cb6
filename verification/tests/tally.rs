use probe_telemetry::records::PreadQueryRecord;
use probe_telemetry::tally::PassThroughTally;

fn agg_record(fd: u64) -> PreadQueryRecord {
    PreadQueryRecord { fd, cpu: 0, count: 12, max_count: 80, avg_count: 40 }
}

#[test]
fn five_records_raise_the_total_by_exactly_five() {
    let mut tally = PassThroughTally::new();
    let batch = vec![agg_record(1), agg_record(2), agg_record(3), agg_record(4), agg_record(5)];
    tally.process_batch(&batch);
    assert_eq!(tally.total(), 5);
}

#[test]
fn totals_accumulate_across_batches() {
    let mut tally = PassThroughTally::new();
    tally.process_batch(&vec![agg_record(1), agg_record(2)]);
    tally.process_batch(&vec![agg_record(3)]);
    assert_eq!(tally.total(), 3);
}

#[test]
fn empty_batch_leaves_the_total_alone() {
    let mut tally = PassThroughTally::new();
    tally.process_batch(&vec![agg_record(7)]);
    let empty: Vec<PreadQueryRecord> = Vec::new();
    tally.process_batch(&empty);
    assert_eq!(tally.total(), 1);
}
