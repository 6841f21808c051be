use bytes::BytesMut;
use unclek::parser::TopicWithPartitions;
use unclek::writer::{
    opt_size, to_bytes, ApiResponse, BrokerMetadata, ClusterMetadata, KafkaResponse,
    KafkaResponseHeader, PartitionMetadata, TopicMetadata,
};

fn encode(correlation_id: i32, req: ApiResponse) -> Vec<u8> {
    let msg = KafkaResponse { header: KafkaResponseHeader::new(correlation_id), req };
    let mut out = BytesMut::new();
    to_bytes(&msg, &mut out);
    out.to_vec()
}

fn body(req: ApiResponse) -> Vec<u8> {
    encode(7, req)[8..].to_vec()
}

#[test]
fn api_versions_probe_body() {
    let bytes = encode(1, ApiResponse::VersionsResponse);
    // length, correlation id, error code, count, 21 entries of three 16-bit integers
    assert_eq!(bytes.len(), 4 + 4 + 2 + 4 + 21 * 6);
    assert_eq!(&bytes[0..4], &[0, 0, 0, 136]);
    assert_eq!(&bytes[4..8], &[0, 0, 0, 1]);
    assert_eq!(&bytes[8..10], &[0, 0]);
    assert_eq!(&bytes[10..14], &[0, 0, 0, 21]);
    assert_eq!(&bytes[14..20], &[0, 0, 0, 0, 0, 2]);
    assert_eq!(&bytes[14 + 3 * 6..14 + 4 * 6], &[0, 3, 0, 0, 0, 2]);
    assert_eq!(&bytes[14 + 18 * 6..14 + 19 * 6], &[0, 18, 0, 0, 0, 0]);
}

#[test]
fn api_versions_table_lists_every_key_in_order() {
    let bytes = body(ApiResponse::VersionsResponse);
    let expected: [(u16, u16, u16); 21] = [
        (0, 0, 2), (1, 0, 3), (2, 0, 1), (3, 0, 2), (4, 0, 0), (5, 0, 0), (6, 0, 3),
        (7, 1, 1), (8, 0, 2), (9, 0, 2), (10, 0, 0), (11, 0, 1), (12, 0, 0), (13, 0, 0),
        (14, 0, 0), (15, 0, 0), (16, 0, 0), (17, 0, 0), (18, 0, 0), (19, 0, 1), (20, 0, 0),
    ];
    for (k, e) in expected.iter().enumerate() {
        let at = 6 + k * 6;
        let entry = &bytes[at..at + 6];
        assert_eq!(u16::from_be_bytes([entry[0], entry[1]]), e.0);
        assert_eq!(u16::from_be_bytes([entry[2], entry[3]]), e.1);
        assert_eq!(u16::from_be_bytes([entry[4], entry[5]]), e.2);
    }
}

#[test]
fn error_response_is_operation_not_attempted() {
    let bytes = encode(-2, ApiResponse::ErrorResponse);
    assert_eq!(bytes, vec![0, 0, 0, 6, 0xff, 0xff, 0xff, 0xfe, 0, 55]);
}

#[test]
fn response_is_appended_behind_what_the_buffer_holds() {
    let msg = KafkaResponse {
        header: KafkaResponseHeader::new(3),
        req: ApiResponse::HeartbeatResponse,
    };
    let mut out = BytesMut::new();
    out.extend_from_slice(&[9, 9]);
    to_bytes(&msg, &mut out);
    assert_eq!(out.to_vec(), vec![9, 9, 0, 0, 0, 6, 0, 0, 0, 3, 0, 0]);
}

#[test]
fn length_prefix_counts_what_follows_it() {
    let responses = vec![
        ApiResponse::VersionsResponse,
        ApiResponse::ErrorResponse,
        ApiResponse::metadata_healthy(2, &vec!["a".to_string(), "bc".to_string()], &"h".to_string()),
        ApiResponse::GroupCoordinatorResponse { hostname: "host".to_string() },
        ApiResponse::FetchResponse {
            version: 2,
            responses: vec![("t".to_string(), vec![(5, None, vec![1, 2, 3])])],
        },
    ];
    for r in responses {
        let bytes = encode(11, r);
        let declared = u32::from_be_bytes([bytes[0], bytes[1], bytes[2], bytes[3]]) as usize;
        assert_eq!(declared, bytes.len() - 4);
    }
}

#[test]
fn header_length_field_is_not_what_is_written() {
    let msg = KafkaResponse {
        header: KafkaResponseHeader { length: 1234, correlation_id: 1 },
        req: ApiResponse::LeaveGroupResponse,
    };
    let mut out = BytesMut::new();
    to_bytes(&msg, &mut out);
    assert_eq!(out.to_vec(), vec![0, 0, 0, 6, 0, 0, 0, 1, 0, 0]);
}

#[test]
fn new_header_has_length_zero() {
    let h = KafkaResponseHeader::new(42);
    assert_eq!(h.length, 0);
    assert_eq!(h.correlation_id, 42);
}

#[test]
fn metadata_of_no_topics() {
    let bytes = body(ApiResponse::metadata_healthy(2, &vec![], &"broker.example".to_string()));
    let mut expected = vec![0, 0, 0, 1]; // one broker
    expected.extend_from_slice(&[0, 0, 0, 0]); // node id
    expected.extend_from_slice(&[0, 14]);
    expected.extend_from_slice(b"broker.example");
    expected.extend_from_slice(&[0, 0, 0x23, 0x84]); // port 9092
    expected.extend_from_slice(&[0xff, 0xff]); // no rack
    expected.extend_from_slice(&[0, 6]);
    expected.extend_from_slice(b"UncleK");
    expected.extend_from_slice(&[0, 0, 0, 0]); // controller
    expected.extend_from_slice(&[0, 0, 0, 0]); // no topics
    assert_eq!(bytes, expected);
}

#[test]
fn metadata_reports_each_topic_with_one_healthy_partition() {
    let bytes = body(ApiResponse::metadata_healthy(2, &vec!["t".to_string()], &"h".to_string()));
    let topics_at = 4 + 4 + 3 + 4 + 2 + 8 + 4;
    let mut expected = vec![0, 0, 0, 1];
    expected.extend_from_slice(&[0, 0]); // topic error
    expected.extend_from_slice(&[0, 1, b't']);
    expected.push(0); // not internal
    expected.extend_from_slice(&[0, 0, 0, 1]); // one partition
    expected.extend_from_slice(&[0, 0]); // partition error
    expected.extend_from_slice(&[0, 0, 0, 0]); // id
    expected.extend_from_slice(&[0, 0, 0, 0]); // leader
    expected.extend_from_slice(&[0, 0, 0, 1, 0, 0, 0, 0]); // replicas
    expected.extend_from_slice(&[0, 0, 0, 1, 0, 0, 0, 0]); // isr
    assert_eq!(&bytes[topics_at..], &expected[..]);
}

#[test]
fn metadata_of_another_version_is_an_error_body() {
    let bytes = body(ApiResponse::metadata_healthy(1, &vec![], &"h".to_string()));
    assert_eq!(bytes, vec![0, 55]);
}

#[test]
fn metadata_with_rack_and_several_replicas() {
    let cluster = ClusterMetadata {
        brokers: vec![BrokerMetadata {
            node_id: 3,
            host: "x".to_string(),
            port: 1,
            rack: Some("r1".to_string()),
        }],
        cluster_id: "c".to_string(),
        controller_id: 3,
        topics: vec![TopicMetadata {
            error_code: 2,
            name: "n".to_string(),
            is_internal: 1,
            partitions: vec![PartitionMetadata {
                error_code: 1,
                id: 4,
                leader: 5,
                replicas: vec![6, 7],
                isr: vec![],
            }],
        }],
    };
    let bytes = body(ApiResponse::MetadataResponse { version: 2, cluster });
    let expected: Vec<u8> = vec![
        0, 0, 0, 1, 0, 0, 0, 3, 0, 1, b'x', 0, 0, 0, 1, 0, 2, b'r', b'1', // broker
        0, 1, b'c', 0, 0, 0, 3, // cluster id, controller
        0, 0, 0, 1, 0, 2, 0, 1, b'n', 1, // topic
        0, 0, 0, 1, 0, 1, 0, 0, 0, 4, 0, 0, 0, 5, // partition
        0, 0, 0, 2, 0, 0, 0, 6, 0, 0, 0, 7, // replicas
        0, 0, 0, 0, // isr
    ];
    assert_eq!(bytes, expected);
}

#[test]
fn produce_response_acknowledges_each_partition() {
    let bytes = body(ApiResponse::PublishResponse {
        version: 2,
        responses: vec![("t".to_string(), vec![0, 3])],
    });
    let mut expected = vec![0, 0, 0, 1, 0, 1, b't', 0, 0, 0, 2];
    for p in [0u8, 3u8] {
        expected.extend_from_slice(&[0, 0, 0, p]);
        expected.extend_from_slice(&[0, 0]);
        expected.extend_from_slice(&[0; 8]);
        expected.extend_from_slice(&[0; 8]);
    }
    expected.extend_from_slice(&[0, 0, 0, 0]);
    assert_eq!(bytes, expected);
}

#[test]
fn produce_response_of_another_version_is_an_error_body() {
    let bytes = body(ApiResponse::PublishResponse { version: 0, responses: vec![] });
    assert_eq!(bytes, vec![0, 55]);
}

#[test]
fn fetch_response_with_one_record() {
    let bytes = body(ApiResponse::FetchResponse {
        version: 2,
        responses: vec![("t".to_string(), vec![(0, Some(vec![0x6b]), vec![0x76])])],
    });
    let mut expected = vec![0, 0, 0, 0]; // throttle
    expected.extend_from_slice(&[0, 0, 0, 1]); // one topic
    expected.extend_from_slice(&[0, 1, b't']);
    expected.extend_from_slice(&[0, 0, 0, 1]); // one partition
    expected.extend_from_slice(&[0, 0, 0, 0]); // partition 0
    expected.extend_from_slice(&[0, 0]); // error
    expected.extend_from_slice(&[0; 8]); // high watermark
    expected.extend_from_slice(&[0, 0, 0, 36]); // record bytes
    expected.extend_from_slice(&[0; 8]); // offset
    expected.extend_from_slice(&[0, 0, 0, 24]); // size
    expected.extend_from_slice(&[14, 139, 177, 174]); // crc
    expected.extend_from_slice(&[1, 0]); // magic, attributes
    expected.extend_from_slice(&[0; 8]); // timestamp
    expected.extend_from_slice(&[0, 0, 0, 1, 0x6b]);
    expected.extend_from_slice(&[0, 0, 0, 1, 0x76]);
    assert_eq!(bytes, expected);
}

#[test]
fn fetch_record_checksum_covers_magic_through_value() {
    let records = vec![
        (7u64, Some(vec![1u8, 2, 3]), vec![4u8, 5]),
        (8u64, None, vec![]),
        (9u64, Some(vec![]), vec![0xff; 40]),
    ];
    let bytes = body(ApiResponse::FetchResponse {
        version: 3,
        responses: vec![("topic".to_string(), records.clone())],
    });
    let mut at = 4 + 4 + 2 + 5 + 4 + 4 + 2 + 8;
    let record_bytes = u32::from_be_bytes([bytes[at], bytes[at + 1], bytes[at + 2], bytes[at + 3]]);
    at += 4;
    assert_eq!(record_bytes as usize, bytes.len() - at);
    for (offset, key, value) in records {
        let got = u64::from_be_bytes([
            bytes[at], bytes[at + 1], bytes[at + 2], bytes[at + 3],
            bytes[at + 4], bytes[at + 5], bytes[at + 6], bytes[at + 7],
        ]);
        assert_eq!(got, offset);
        let size = u32::from_be_bytes([bytes[at + 8], bytes[at + 9], bytes[at + 10], bytes[at + 11]])
            as usize;
        assert_eq!(size, 22 + opt_size(&key) + value.len());
        let crc = u32::from_be_bytes([bytes[at + 12], bytes[at + 13], bytes[at + 14], bytes[at + 15]]);
        let covered = &bytes[at + 16..at + 12 + size];
        assert_eq!(covered[0], 1);
        assert_eq!(covered[1], 0);
        assert_eq!(crc, crc::crc32::checksum_ieee(covered));
        assert_eq!(&covered[covered.len() - value.len()..], &value[..]);
        at += 12 + size;
    }
    assert_eq!(at, bytes.len());
}

#[test]
fn fetch_record_without_key_writes_null_key() {
    let bytes = body(ApiResponse::FetchResponse {
        version: 2,
        responses: vec![("t".to_string(), vec![(1, None, vec![])])],
    });
    let record = &bytes[bytes.len() - 34..];
    let mut expected = vec![0, 0, 0, 0, 0, 0, 0, 1];
    expected.extend_from_slice(&[0, 0, 0, 22]);
    expected.extend_from_slice(&[18, 148, 89, 58]);
    expected.extend_from_slice(&[1, 0]);
    expected.extend_from_slice(&[0; 8]);
    expected.extend_from_slice(&[0xff, 0xff, 0xff, 0xff]);
    expected.extend_from_slice(&[0, 0, 0, 0]);
    assert_eq!(record, &expected[..]);
}

#[test]
fn fetch_response_of_another_version_is_an_error_body() {
    let bytes = body(ApiResponse::FetchResponse { version: 1, responses: vec![] });
    assert_eq!(bytes, vec![0, 55]);
}

#[test]
fn fetch_topic_without_records_has_zero_record_bytes() {
    let bytes = body(ApiResponse::FetchResponse {
        version: 2,
        responses: vec![("t".to_string(), vec![])],
    });
    assert_eq!(&bytes[bytes.len() - 4..], &[0, 0, 0, 0]);
    assert_eq!(bytes.len(), 4 + 4 + 3 + 4 + 4 + 2 + 8 + 4);
}

#[test]
fn coordinator_response_names_host_and_port() {
    let bytes = body(ApiResponse::GroupCoordinatorResponse { hostname: "ab".to_string() });
    assert_eq!(bytes, vec![0, 0, 0, 0, 0, 0, 0, 2, b'a', b'b', 0, 0, 0x23, 0x84]);
}

#[test]
fn join_group_echoes_first_protocol() {
    let bytes = body(ApiResponse::JoinGroupResponse {
        protocol: Some(("range".to_string(), Some(vec![1, 2]))),
    });
    let mut expected = vec![0, 0, 0, 0, 0, 0];
    expected.extend_from_slice(&[0, 5]);
    expected.extend_from_slice(b"range");
    expected.extend_from_slice(&[0, 0, 0, 0]); // leader id, member id
    expected.extend_from_slice(&[0, 0, 0, 1]);
    expected.extend_from_slice(&[0, 5]);
    expected.extend_from_slice(b"range");
    expected.extend_from_slice(&[0, 0, 0, 2, 1, 2]);
    assert_eq!(bytes, expected);
}

#[test]
fn join_group_without_protocol_has_null_protocol_and_no_member() {
    let bytes = body(ApiResponse::JoinGroupResponse { protocol: None });
    assert_eq!(bytes, vec![0, 0, 0, 0, 0, 0, 0xff, 0xff, 0, 0, 0, 0, 0, 0, 0, 0]);
}

#[test]
fn join_group_member_without_metadata_has_empty_metadata() {
    let bytes = body(ApiResponse::JoinGroupResponse { protocol: Some(("p".to_string(), None)) });
    assert_eq!(&bytes[bytes.len() - 4..], &[0, 0, 0, 0]);
}

#[test]
fn sync_group_echoes_assignment_or_empty() {
    let bytes = body(ApiResponse::SyncGroupResponse { assignment: Some(vec![9, 8, 7]) });
    assert_eq!(bytes, vec![0, 0, 0, 0, 0, 3, 9, 8, 7]);
    let bytes = body(ApiResponse::SyncGroupResponse { assignment: None });
    assert_eq!(bytes, vec![0, 0, 0, 0, 0, 0]);
}

#[test]
fn offset_fetch_response_layout() {
    let bytes = body(ApiResponse::FetchOffsetsResponse {
        topics: vec![("t".to_string(), vec![(2, -1)])],
    });
    let mut expected = vec![0, 0, 0, 1, 0, 1, b't', 0, 0, 0, 1];
    expected.extend_from_slice(&[0, 0, 0, 2]);
    expected.extend_from_slice(&[0xff; 8]);
    expected.extend_from_slice(&[0xff, 0xff]); // null metadata
    expected.extend_from_slice(&[0, 0]); // error
    expected.extend_from_slice(&[0, 0]); // top-level error
    assert_eq!(bytes, expected);
}

#[test]
fn list_offsets_response_layout() {
    let bytes = body(ApiResponse::OffsetsResponse {
        topics: vec![("t".to_string(), vec![(1, 0x0102030405060708), (2, -2)])],
    });
    let mut expected = vec![0, 0, 0, 1, 0, 1, b't', 0, 0, 0, 2];
    expected.extend_from_slice(&[0, 0, 0, 1, 0, 0]);
    expected.extend_from_slice(&[0; 8]);
    expected.extend_from_slice(&[1, 2, 3, 4, 5, 6, 7, 8]);
    expected.extend_from_slice(&[0, 0, 0, 2, 0, 0]);
    expected.extend_from_slice(&[0; 8]);
    expected.extend_from_slice(&[0xff, 0xff, 0xff, 0xff, 0xff, 0xff, 0xff, 0xfe]);
    assert_eq!(bytes, expected);
}

#[test]
fn offset_commit_response_layout() {
    let bytes = body(ApiResponse::OffsetCommitResponse {
        topics: vec![TopicWithPartitions::new("ab".to_string(), vec![1, 258])],
    });
    assert_eq!(
        bytes,
        vec![0, 0, 0, 1, 0, 2, b'a', b'b', 0, 0, 0, 2, 0, 0, 0, 1, 0, 0, 0, 0, 1, 2, 0, 0]
    );
}

#[test]
fn heartbeat_and_leave_group_have_the_same_body() {
    assert_eq!(body(ApiResponse::HeartbeatResponse), vec![0, 0]);
    assert_eq!(body(ApiResponse::LeaveGroupResponse), vec![0, 0]);
}

#[test]
fn string_length_counts_bytes_not_characters() {
    let bytes = body(ApiResponse::GroupCoordinatorResponse { hostname: "é".to_string() });
    assert_eq!(&bytes[6..10], &[0, 2, 0xc3, 0xa9]);
}

#[test]
fn string_length_is_written_modulo_its_field() {
    let long = "a".repeat(65536 + 3);
    let bytes = body(ApiResponse::GroupCoordinatorResponse { hostname: long });
    assert_eq!(&bytes[6..8], &[0, 3]);
    assert_eq!(bytes.len(), 2 + 4 + 2 + 65539 + 4);
}

#[test]
fn opt_size_of_missing_and_present() {
    assert_eq!(opt_size(&None), 0);
    assert_eq!(opt_size(&Some(vec![])), 0);
    assert_eq!(opt_size(&Some(vec![1, 2, 3])), 3);
}

#[test]
fn is_empty_only_for_fetch_without_records() {
    let empty = KafkaResponse {
        header: KafkaResponseHeader::new(1),
        req: ApiResponse::FetchResponse {
            version: 2,
            responses: vec![("a".to_string(), vec![]), ("b".to_string(), vec![])],
        },
    };
    assert!(empty.is_empty());
    let no_topics = KafkaResponse {
        header: KafkaResponseHeader::new(1),
        req: ApiResponse::FetchResponse { version: 2, responses: vec![] },
    };
    assert!(no_topics.is_empty());
    let with_record = KafkaResponse {
        header: KafkaResponseHeader::new(1),
        req: ApiResponse::FetchResponse {
            version: 2,
            responses: vec![("a".to_string(), vec![]), ("b".to_string(), vec![(0, None, vec![])])],
        },
    };
    assert!(!with_record.is_empty());
    let other = KafkaResponse {
        header: KafkaResponseHeader::new(1),
        req: ApiResponse::HeartbeatResponse,
    };
    assert!(!other.is_empty());
}

#[test]
fn healthy_topic_fields() {
    let t = TopicMetadata::healthy(&"orders".to_string());
    assert_eq!(t.error_code, 0);
    assert_eq!(t.name, "orders");
    assert_eq!(t.is_internal, 0);
    assert_eq!(t.partitions.len(), 1);
    assert_eq!(t.partitions[0].error_code, 0);
    assert_eq!(t.partitions[0].id, 0);
    assert_eq!(t.partitions[0].leader, 0);
    assert_eq!(t.partitions[0].replicas, vec![0]);
    assert_eq!(t.partitions[0].isr, vec![0]);
}
