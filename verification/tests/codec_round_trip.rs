use kinesis_aggregator::codec::{AggregatedRecord, Record, Tag};

#[test]
fn round_trip_reproduces_tables_and_records_in_order() {
    let original = AggregatedRecord {
        partition_key_table: vec!["alpha".to_string(), "beta".to_string()],
        explicit_hash_key_table: vec!["h1".to_string()],
        records: vec![
            Record {
                partition_key_index: 0,
                explicit_hash_key_index: Some(0),
                data: vec![1, 2, 3, 4],
                tags: vec![],
            },
            Record {
                partition_key_index: 1,
                explicit_hash_key_index: None,
                data: vec![],
                tags: vec![Tag { key: "colour".to_string(), value: Some("red".to_string()) }, Tag {
                    key: "flag".to_string(),
                    value: None,
                }],
            },
        ],
    };
    let bytes = original.encode();
    let decoded = AggregatedRecord::decode(&bytes).expect("round trip must decode");
    assert_eq!(decoded, original);
}

#[test]
fn round_trip_keeps_multi_byte_keys() {
    // keys whose UTF-8 encoding is longer than their character count
    let original = AggregatedRecord {
        partition_key_table: vec!["clé-α".to_string()],
        explicit_hash_key_table: vec![],
        records: vec![Record {
            partition_key_index: 0,
            explicit_hash_key_index: None,
            data: vec![0xFF, 0x00],
            tags: vec![],
        }],
    };
    let bytes = original.encode();
    let decoded = AggregatedRecord::decode(&bytes).unwrap();
    assert_eq!(decoded, original);
}

#[test]
fn round_trip_handles_large_indices_and_long_payloads() {
    // a multi-byte varint index and a payload whose length header needs
    // more than one byte
    let original = AggregatedRecord {
        partition_key_table: vec!["k".to_string()],
        explicit_hash_key_table: vec![],
        records: vec![Record {
            partition_key_index: u64::MAX,
            explicit_hash_key_index: Some(300),
            data: vec![7u8; 1000],
            tags: vec![],
        }],
    };
    let bytes = original.encode();
    let decoded = AggregatedRecord::decode(&bytes).unwrap();
    assert_eq!(decoded, original);
}

#[test]
fn an_empty_message_encodes_to_no_bytes_and_back() {
    let original = AggregatedRecord {
        partition_key_table: vec![],
        explicit_hash_key_table: vec![],
        records: vec![],
    };
    let bytes = original.encode();
    assert!(bytes.is_empty());
    let decoded = AggregatedRecord::decode(&bytes).unwrap();
    assert_eq!(decoded, original);
}

#[test]
fn a_known_message_yields_exact_wire_bytes() {
    // field 1 "k" (0x0A 0x01 'k'), field 3: a record with index 0 and
    // payload [5]: record bytes are 0x08 0x00 0x1A 0x01 0x05
    let original = AggregatedRecord {
        partition_key_table: vec!["k".to_string()],
        explicit_hash_key_table: vec![],
        records: vec![Record {
            partition_key_index: 0,
            explicit_hash_key_index: None,
            data: vec![5],
            tags: vec![],
        }],
    };
    let bytes = original.encode();
    assert_eq!(
        bytes,
        vec![0x0A, 0x01, b'k', 0x1A, 0x05, 0x08, 0x00, 0x1A, 0x01, 0x05]
    );
}

#[test]
fn truncated_bytes_are_rejected() {
    // a length header that promises more bytes than follow
    let bytes = vec![0x0A, 0x05, b'k'];
    assert!(AggregatedRecord::decode(&bytes).is_err());
}

#[test]
fn an_unknown_field_is_rejected() {
    // field number 7, varint wire type: no field of the message schema
    let bytes = vec![0x38, 0x00];
    assert!(AggregatedRecord::decode(&bytes).is_err());
}

#[test]
fn a_dangling_varint_is_rejected() {
    // a continuation bit with nothing after it
    let bytes = vec![0xFF];
    assert!(AggregatedRecord::decode(&bytes).is_err());
}

#[test]
fn invalid_utf8_in_a_key_is_rejected() {
    // field 1 with a one-byte payload that is not valid UTF-8
    let bytes = vec![0x0A, 0x01, 0xFF];
    assert!(AggregatedRecord::decode(&bytes).is_err());
}
