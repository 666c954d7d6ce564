use flock_core::batch::{RecordBatch, Schema};
use flock_core::codec::{decode, encode, CodecError, Compression};
use flock_core::rle::{rle_compress, rle_decompress};
use flock_core::task_id::TaskId;

fn schema2() -> Schema {
    Schema { fields: vec!["auction".to_string(), "price".to_string()] }
}

fn rows(n: u64) -> RecordBatch {
    RecordBatch { rows: (0..n).map(|i| vec![i, i * 10 + u64::MAX / 2]).collect() }
}

fn id() -> TaskId {
    TaskId { stage_name: "q0-ßtage".to_string(), fanout: 7, sequence_index: 2, total_fragments: 5 }
}

fn round_trip(batches: Vec<RecordBatch>) {
    for c in [Compression::Identity, Compression::RunLength] {
        round_trip_with(&batches, c);
    }
}

fn round_trip_with(batches: &Vec<RecordBatch>, c: Compression) {
    let bytes = encode(batches, &schema2(), &id(), c).unwrap();
    let p = decode(&bytes).unwrap();
    assert_eq!(p.task_id.stage_name, "q0-ßtage");
    assert_eq!(p.task_id.fanout, 7);
    assert_eq!(p.task_id.sequence_index, 2);
    assert_eq!(p.task_id.total_fragments, 5);
    assert_eq!(p.schema.fields, schema2().fields);
    assert_eq!(p.batches.len(), batches.len());
    for (a, b) in p.batches.iter().zip(batches.iter()) {
        assert_eq!(a.rows, b.rows);
    }
}

#[test]
fn codec_round_trip_zero_rows() {
    round_trip(vec![rows(0)]);
}

#[test]
fn codec_round_trip_one_row() {
    round_trip(vec![rows(1)]);
}

#[test]
fn codec_round_trip_many_rows_and_batches() {
    round_trip(vec![rows(100), rows(3), rows(0)]);
}

#[test]
fn codec_round_trip_no_batch() {
    round_trip(vec![]);
}

#[test]
fn codec_layout_is_exact() {
    let t = TaskId { stage_name: "a".to_string(), fanout: 1, sequence_index: 0, total_fragments: 1 };
    let s = Schema { fields: vec![] };
    let bytes = encode(&vec![], &s, &t, Compression::Identity).unwrap();
    let mut expected = vec![0u8];
    expected.extend_from_slice(&1u64.to_le_bytes());
    expected.push(b'a');
    expected.extend_from_slice(&1u64.to_le_bytes());
    expected.extend_from_slice(&0u64.to_le_bytes());
    expected.extend_from_slice(&1u64.to_le_bytes());
    expected.extend_from_slice(&0u64.to_le_bytes());
    expected.extend_from_slice(&0u64.to_le_bytes());
    assert_eq!(bytes, expected);
}

#[test]
fn codec_schema_mismatch() {
    let bad = RecordBatch { rows: vec![vec![1, 2], vec![3]] };
    assert_eq!(encode(&vec![bad], &schema2(), &id(), Compression::Identity).unwrap_err(), CodecError::SchemaMismatch);
}

#[test]
fn codec_unknown_compression() {
    assert_eq!(decode(&[]).err(), Some(CodecError::UnknownCompression));
    assert_eq!(decode(&[9, 0, 0]).err(), Some(CodecError::UnknownCompression));
}

#[test]
fn codec_corrupt_buffers() {
    let bytes = encode(&vec![rows(4)], &schema2(), &id(), Compression::Identity).unwrap();
    for cut in 1..bytes.len() {
        assert_eq!(decode(&bytes[..cut]).err(), Some(CodecError::Corrupt));
    }
    let mut longer = bytes.clone();
    longer.push(0);
    assert_eq!(decode(&longer).err(), Some(CodecError::Corrupt));
    let mut bad_text = bytes.clone();
    bad_text[9] = 0xff;
    assert_eq!(decode(&bad_text).err(), Some(CodecError::Corrupt));
}

#[test]
fn run_length_pairs() {
    assert_eq!(rle_compress(&vec![5, 5, 5, 7]), vec![3, 5, 1, 7]);
    assert_eq!(rle_compress(&vec![]), Vec::<u8>::new());
    let long = vec![9u8; 300];
    assert_eq!(rle_compress(&long), vec![255, 9, 45, 9]);
    assert_eq!(rle_decompress(&[255, 9, 45, 9]).unwrap(), long);
    assert_eq!(rle_decompress(&[2, 1, 0, 4, 1, 3]).unwrap(), vec![1, 1, 3]);
    assert!(rle_decompress(&[2, 1, 3]).is_none());
}

#[test]
fn run_length_payload_is_tagged_and_smaller() {
    let zeros = RecordBatch { rows: (0..50).map(|_| vec![0, 0]).collect() };
    let plain = encode(&vec![zeros], &schema2(), &id(), Compression::Identity).unwrap();
    let zeros = RecordBatch { rows: (0..50).map(|_| vec![0, 0]).collect() };
    let packed = encode(&vec![zeros], &schema2(), &id(), Compression::RunLength).unwrap();
    assert_eq!(plain[0], 0);
    assert_eq!(packed[0], 1);
    assert!(packed.len() < plain.len());
    assert_eq!(decode(&packed).unwrap().batches[0].rows.len(), 50);
    let mut odd = packed.clone();
    odd.push(3);
    assert_eq!(decode(&odd).err(), Some(CodecError::Corrupt));
}
