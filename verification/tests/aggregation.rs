use kinesis_aggregator::buffer::{PutRecord, StreamAggregator};
use kinesis_aggregator::codec::{AggregatedRecord, Record};
use kinesis_aggregator::sink::MockSink;

fn make_sample_record(partition_key: &str, explicit_hash_key: &str) -> PutRecord {
    PutRecord {
        stream_name: "test_stream".to_string(),
        partition_key: partition_key.to_string(),
        explicit_hash_key: Some(explicit_hash_key.to_string()),
        data: vec![1, 2, 3],
    }
}

fn captured_for<'a>(sink: &'a MockSink, stream: &str) -> Option<&'a Vec<u8>> {
    sink.captured_output
        .iter()
        .find(|(name, _)| name.as_str() == stream)
        .map(|(_, bytes)| bytes)
}

#[test]
fn test_insert_and_flush() {
    let mock_sink = MockSink::new();
    let mut aggregator = StreamAggregator::new(100, mock_sink);

    aggregator.insert(
        "stream1".to_string(),
        make_sample_record("key1", "hash1"),
        50,
    );
    aggregator.insert(
        "stream1".to_string(),
        make_sample_record("key2", "hash2"),
        60,
    ); // Triggers flush

    assert!(!aggregator.record_sink.captured_output.is_empty());

    let bytes = captured_for(&aggregator.record_sink, "stream1").unwrap();
    let aggregated_record =
        AggregatedRecord::decode(bytes).expect("Failed to decode protobuf bytes");

    assert_eq!(
        aggregated_record,
        AggregatedRecord {
            partition_key_table: vec!["key1".to_string()],
            explicit_hash_key_table: vec!["hash1".to_string()],
            records: vec![Record {
                partition_key_index: 0,
                explicit_hash_key_index: Some(0),
                data: vec![1, 2, 3],
                tags: vec![],
            }],
        }
    );
}

#[test]
fn test_that_the_aggregator_flushes_when_threshold_matches() {
    let mock_sink = MockSink::new();
    let mut aggregator = StreamAggregator::new(100, mock_sink);

    aggregator.insert(
        "stream1".to_string(),
        make_sample_record("key1", "hash1"),
        50,
    );
    aggregator.insert(
        "stream1".to_string(),
        make_sample_record("key2", "hash2"),
        50,
    );

    assert!(!aggregator.record_sink.captured_output.is_empty());

    let bytes = captured_for(&aggregator.record_sink, "stream1").unwrap();
    let aggregated_record =
        AggregatedRecord::decode(bytes).expect("Failed to decode protobuf bytes");

    assert_eq!(
        aggregated_record,
        AggregatedRecord {
            partition_key_table: vec!["key1".to_string(), "key2".to_string()],
            explicit_hash_key_table: vec!["hash1".to_string(), "hash2".to_string()],
            records: vec![
                Record {
                    partition_key_index: 0,
                    explicit_hash_key_index: Some(0),
                    data: vec![1, 2, 3],
                    tags: vec![],
                },
                Record {
                    partition_key_index: 1,
                    explicit_hash_key_index: Some(1),
                    data: vec![1, 2, 3],
                    tags: vec![],
                }
            ],
        }
    );
}

#[test]
fn test_that_the_aggregator_correctly_flushes_all() {
    let mock_sink = MockSink::new();
    let mut aggregator = StreamAggregator::new(1000, mock_sink);

    aggregator.insert(
        "stream1".to_string(),
        make_sample_record("key1", "hash1"),
        50,
    );
    aggregator.insert(
        "stream1".to_string(),
        make_sample_record("key2", "hash2"),
        50,
    );

    assert!(aggregator.record_sink.captured_output.is_empty());

    aggregator.flush_all();
    assert!(!aggregator.record_sink.captured_output.is_empty());
    let bytes = captured_for(&aggregator.record_sink, "stream1").unwrap();
    let aggregated_record =
        AggregatedRecord::decode(bytes).expect("Failed to decode protobuf bytes");

    assert_eq!(
        aggregated_record,
        AggregatedRecord {
            partition_key_table: vec!["key1".to_string(), "key2".to_string()],
            explicit_hash_key_table: vec!["hash1".to_string(), "hash2".to_string()],
            records: vec![
                Record {
                    partition_key_index: 0,
                    explicit_hash_key_index: Some(0),
                    data: vec![1, 2, 3],
                    tags: vec![],
                },
                Record {
                    partition_key_index: 1,
                    explicit_hash_key_index: Some(1),
                    data: vec![1, 2, 3],
                    tags: vec![],
                }
            ],
        }
    );
}

#[test]
fn over_limit_insert_flushes_prior_contents_and_rebuffers_the_new_record() {
    // max size 100: a 50-byte record, then a 60-byte one. The first flush
    // carries only the first record; the second record starts a fresh
    // buffer that still sits in the engine.
    let mut aggregator = StreamAggregator::new(100, MockSink::new());
    aggregator.insert("s1".to_string(), make_sample_record("k1", "h1"), 50);
    aggregator.insert("s1".to_string(), make_sample_record("k2", "h2"), 60);

    let bytes = captured_for(&aggregator.record_sink, "s1").unwrap();
    let msg = AggregatedRecord::decode(bytes).unwrap();
    assert_eq!(msg.partition_key_table, vec!["k1".to_string()]);
    assert_eq!(msg.explicit_hash_key_table, vec!["h1".to_string()]);
    assert_eq!(msg.records.len(), 1);

    assert_eq!(aggregator.aggregated_data.len(), 1);
    let (name, buffer) = &aggregator.aggregated_data[0];
    assert_eq!(name, "s1");
    assert_eq!(buffer.records.len(), 1);
    assert_eq!(buffer.partition_key_table, vec!["k2".to_string()]);
    assert_eq!(buffer.current_size, 60);
}

#[test]
fn exact_fill_flush_leaves_no_buffer_behind() {
    let mut aggregator = StreamAggregator::new(100, MockSink::new());
    aggregator.insert("s1".to_string(), make_sample_record("k1", "h1"), 50);
    aggregator.insert("s1".to_string(), make_sample_record("k2", "h2"), 50);
    assert_eq!(aggregator.record_sink.captured_output.len(), 1);
    assert!(aggregator.aggregated_data.is_empty());
}

#[test]
fn duplicate_partition_keys_share_one_table_entry() {
    let mut aggregator = StreamAggregator::new(1000, MockSink::new());
    aggregator.insert("s1".to_string(), make_sample_record("dup", "h"), 10);
    aggregator.insert("s1".to_string(), make_sample_record("dup", "h"), 10);
    aggregator.flush_all();

    let bytes = captured_for(&aggregator.record_sink, "s1").unwrap();
    let msg = AggregatedRecord::decode(bytes).unwrap();
    assert_eq!(msg.partition_key_table, vec!["dup".to_string()]);
    assert_eq!(msg.explicit_hash_key_table, vec!["h".to_string()]);
    assert_eq!(msg.records.len(), 2);
    assert_eq!(msg.records[0].partition_key_index, 0);
    assert_eq!(msg.records[1].partition_key_index, 0);
    assert_eq!(msg.records[0].explicit_hash_key_index, Some(0));
    assert_eq!(msg.records[1].explicit_hash_key_index, Some(0));
}

#[test]
fn an_oversized_record_into_an_empty_buffer_is_accepted_without_a_flush() {
    let mut aggregator = StreamAggregator::new(100, MockSink::new());
    aggregator.insert("s1".to_string(), make_sample_record("k1", "h1"), 150);
    assert!(aggregator.record_sink.captured_output.is_empty());
    assert_eq!(aggregator.aggregated_data.len(), 1);
    assert_eq!(aggregator.aggregated_data[0].1.current_size, 150);
    assert_eq!(aggregator.aggregated_data[0].1.records.len(), 1);
}

#[test]
fn flush_of_an_unknown_stream_is_a_silent_no_op() {
    let mut aggregator = StreamAggregator::new(100, MockSink::new());
    aggregator.flush("nothing_here".to_string());
    assert!(aggregator.record_sink.captured_output.is_empty());
    assert!(aggregator.aggregated_data.is_empty());
}

#[test]
fn flush_all_keeps_streams_apart() {
    // one message per stream, no cross-contamination of records
    let mut aggregator = StreamAggregator::new(1000, MockSink::new());
    aggregator.insert(
        "A".to_string(),
        PutRecord {
            stream_name: "A".to_string(),
            partition_key: "ka".to_string(),
            explicit_hash_key: None,
            data: vec![0xAA],
        },
        10,
    );
    aggregator.insert(
        "B".to_string(),
        PutRecord {
            stream_name: "B".to_string(),
            partition_key: "kb".to_string(),
            explicit_hash_key: None,
            data: vec![0xBB],
        },
        10,
    );
    aggregator.flush_all();

    assert_eq!(aggregator.record_sink.captured_output.len(), 2);
    let msg_a = AggregatedRecord::decode(captured_for(&aggregator.record_sink, "A").unwrap())
        .unwrap();
    let msg_b = AggregatedRecord::decode(captured_for(&aggregator.record_sink, "B").unwrap())
        .unwrap();
    assert_eq!(msg_a.partition_key_table, vec!["ka".to_string()]);
    assert_eq!(msg_a.records.len(), 1);
    assert_eq!(msg_a.records[0].data, vec![0xAA]);
    assert_eq!(msg_b.partition_key_table, vec!["kb".to_string()]);
    assert_eq!(msg_b.records.len(), 1);
    assert_eq!(msg_b.records[0].data, vec![0xBB]);
    assert!(aggregator.aggregated_data.is_empty());
}

#[test]
fn repeated_flushes_accumulate_bytes_under_one_destination_entry() {
    // two over-limit cycles on one stream publish twice; the capturing
    // sink keeps a single entry for the destination, holding both
    // messages' bytes back to back
    let mut aggregator = StreamAggregator::new(10, MockSink::new());
    aggregator.insert("s1".to_string(), make_sample_record("k1", "h1"), 8);
    aggregator.insert("s1".to_string(), make_sample_record("k2", "h2"), 8); // flushes k1
    aggregator.insert("s1".to_string(), make_sample_record("k3", "h3"), 8); // flushes k2

    let single = |pk: &str, ehk: &str| AggregatedRecord {
        partition_key_table: vec![pk.to_string()],
        explicit_hash_key_table: vec![ehk.to_string()],
        records: vec![Record {
            partition_key_index: 0,
            explicit_hash_key_index: Some(0),
            data: vec![1, 2, 3],
            tags: vec![],
        }],
    };
    let mut expected = single("k1", "h1").encode();
    expected.extend_from_slice(&single("k2", "h2").encode());

    assert_eq!(aggregator.record_sink.captured_output.len(), 1);
    assert_eq!(aggregator.record_sink.captured_output[0].0, "s1");
    assert_eq!(aggregator.record_sink.captured_output[0].1, expected);
}

#[test]
fn a_record_without_a_hash_key_gets_no_hash_table_entry() {
    let mut aggregator = StreamAggregator::new(1000, MockSink::new());
    aggregator.insert(
        "s1".to_string(),
        PutRecord {
            stream_name: "s1".to_string(),
            partition_key: "k".to_string(),
            explicit_hash_key: None,
            data: vec![9],
        },
        10,
    );
    aggregator.flush_all();
    let msg = AggregatedRecord::decode(captured_for(&aggregator.record_sink, "s1").unwrap())
        .unwrap();
    assert!(msg.explicit_hash_key_table.is_empty());
    assert_eq!(msg.records[0].explicit_hash_key_index, None);
}
