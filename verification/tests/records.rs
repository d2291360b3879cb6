use probe_telemetry::codec::{decode_batch, encode_batch};
use probe_telemetry::records::{FromBytes, PreadQueryRecord, RawPreadRecord};

fn le_bytes(values: &[u64]) -> Vec<u8> {
    let mut out = Vec::new();
    for v in values {
        out.extend_from_slice(&v.to_le_bytes());
    }
    out
}

#[test]
fn raw_record_wire_size_is_32() {
    assert_eq!(RawPreadRecord::wire_size(), 32);
}

#[test]
fn query_record_wire_size_is_40() {
    assert_eq!(PreadQueryRecord::wire_size(), 40);
}

#[test]
fn raw_record_decodes_fields_in_order() {
    let buf = le_bytes(&[7, 11, 3, 4096]);
    let r = RawPreadRecord::from_bytes(&buf);
    assert_eq!(r.time, 7);
    assert_eq!(r.fd, 11);
    assert_eq!(r.cpu, 3);
    assert_eq!(r.count, 4096);
}

#[test]
fn query_record_decodes_fields_in_order() {
    let buf = le_bytes(&[5, 2, 100, 900, 450]);
    let r = PreadQueryRecord::from_bytes(&buf);
    assert_eq!(r.fd, 5);
    assert_eq!(r.cpu, 2);
    assert_eq!(r.count, 100);
    assert_eq!(r.max_count, 900);
    assert_eq!(r.avg_count, 450);
}

#[test]
fn raw_record_value_round_trip() {
    let r = RawPreadRecord { time: u64::MAX, fd: 0, cpu: 17, count: 1 << 40 };
    let bytes = r.to_bytes();
    assert_eq!(bytes.len(), 32);
    let back = RawPreadRecord::from_bytes(&bytes);
    assert_eq!(back, r);
}

#[test]
fn query_record_value_round_trip() {
    let r = PreadQueryRecord { fd: 9, cpu: 1, count: 3, max_count: u64::MAX, avg_count: 0 };
    let bytes = r.to_bytes();
    assert_eq!(bytes.len(), 40);
    let back = PreadQueryRecord::from_bytes(&bytes);
    assert_eq!(back, r);
}

#[test]
fn raw_batch_decode_then_encode_is_identity() {
    // two raw records back to back: 64 bytes, an exact multiple of 32
    let buf = le_bytes(&[1, 2, 3, 4, 5, 6, 7, 8]);
    let records: Vec<RawPreadRecord> = decode_batch(&buf);
    assert_eq!(records.len(), 2);
    assert_eq!(records[0], RawPreadRecord { time: 1, fd: 2, cpu: 3, count: 4 });
    assert_eq!(records[1], RawPreadRecord { time: 5, fd: 6, cpu: 7, count: 8 });
    let re = encode_batch(&records);
    assert_eq!(re, buf);
}

#[test]
fn query_batch_decode_then_encode_is_identity() {
    // three pre-aggregated records back to back: 120 bytes
    let mut values = Vec::new();
    for i in 0..15u64 {
        values.push(i * 1000 + 1);
    }
    let buf = le_bytes(&values);
    let records: Vec<PreadQueryRecord> = decode_batch(&buf);
    assert_eq!(records.len(), 3);
    assert_eq!(records[0].fd, 1);
    assert_eq!(records[2].avg_count, 14001);
    let re = encode_batch(&records);
    assert_eq!(re, buf);
}

#[test]
fn empty_buffer_decodes_to_empty_batch() {
    let buf: Vec<u8> = Vec::new();
    let records: Vec<RawPreadRecord> = decode_batch(&buf);
    assert_eq!(records.len(), 0);
    let re = encode_batch(&records);
    assert_eq!(re.len(), 0);
}

#[test]
fn default_records_are_zeroed() {
    let r = RawPreadRecord::default();
    assert_eq!(r, RawPreadRecord { time: 0, fd: 0, cpu: 0, count: 0 });
    let q = PreadQueryRecord::default();
    assert_eq!(q.count, 0);
    assert_eq!(q.max_count, 0);
}
