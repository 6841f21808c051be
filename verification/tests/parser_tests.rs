use unclek::parser::{
    kafka_request, kafka_string, size_header, ApiRequest, KafkaRequest, ParseError,
    TopicWithPartitions,
};

fn i16b(v: i16) -> Vec<u8> {
    v.to_be_bytes().to_vec()
}

fn i32b(v: i32) -> Vec<u8> {
    v.to_be_bytes().to_vec()
}

fn i64b(v: i64) -> Vec<u8> {
    v.to_be_bytes().to_vec()
}

fn string(s: &str) -> Vec<u8> {
    let mut out = i16b(s.len() as i16);
    out.extend_from_slice(s.as_bytes());
    out
}

fn bytes(b: &[u8]) -> Vec<u8> {
    let mut out = i32b(b.len() as i32);
    out.extend_from_slice(b);
    out
}

fn cat(parts: &[Vec<u8>]) -> Vec<u8> {
    parts.concat()
}

fn header(api_key: i16, version: i16, correlation_id: i32, client_id: &str) -> Vec<u8> {
    cat(&[i16b(api_key), i16b(version), i32b(correlation_id), string(client_id)])
}

fn message(key: Option<&[u8]>, value: Option<&[u8]>, timestamp: i64) -> Vec<u8> {
    let fields = cat(&[
        i32b(0x01020304),
        vec![1, 0],
        i64b(timestamp),
        key.map(bytes).unwrap_or(i32b(-1)),
        value.map(bytes).unwrap_or(i32b(-1)),
    ]);
    cat(&[i64b(0), i32b(fields.len() as i32), fields])
}

fn parse(input: &[u8]) -> KafkaRequest {
    match kafka_request(input) {
        Ok((_, request)) => request,
        Err(e) => panic!("no request: {:?}", e),
    }
}

#[test]
fn api_versions_request() {
    let input = header(18, 0, 1, "");
    assert_eq!(input.len(), 10);
    let (rest, request) = kafka_request(&input).unwrap();
    assert!(rest.is_empty());
    assert_eq!(request.header.opcode, 18);
    assert_eq!(request.header.version, 0);
    assert_eq!(request.header.correlation_id, 1);
    assert_eq!(request.header.client_id, "");
    assert!(matches!(request.req, ApiRequest::Versions));
}

#[test]
fn header_fields_are_signed_big_endian() {
    let input = header(18, -2, -3, "client");
    let request = parse(&input);
    assert_eq!(request.header.version, -2);
    assert_eq!(request.header.correlation_id, -3);
    assert_eq!(request.header.client_id, "client");
}

#[test]
fn null_client_id_reads_as_empty() {
    let input = cat(&[i16b(18), i16b(0), i32b(5), i16b(-1)]);
    let request = parse(&input);
    assert_eq!(request.header.client_id, "");
    assert_eq!(request.header.correlation_id, 5);
}

#[test]
fn negative_string_length_is_invalid() {
    let input = cat(&[i16b(18), i16b(0), i32b(5), i16b(-2)]);
    assert_eq!(kafka_request(&input).err(), Some(ParseError::Invalid));
}

#[test]
fn short_header_is_truncated() {
    let input = header(18, 0, 1, "abc");
    for cut in 0..input.len() {
        assert_eq!(kafka_request(&input[..cut]).err(), Some(ParseError::Truncated));
    }
}

#[test]
fn unknown_api_key_keeps_the_header() {
    let input = cat(&[header(99, 0, 77, "c"), vec![1, 2, 3]]);
    let (rest, request) = kafka_request(&input).unwrap();
    assert!(matches!(request.req, ApiRequest::Unknown));
    assert_eq!(request.header.opcode, 99);
    assert_eq!(request.header.correlation_id, 77);
    assert_eq!(rest, &[1, 2, 3]);
}

#[test]
fn unsupported_versions_are_unknown() {
    assert!(matches!(parse(&header(0, 1, 1, "")).req, ApiRequest::Unknown));
    assert!(matches!(parse(&header(0, 3, 1, "")).req, ApiRequest::Unknown));
    assert!(matches!(parse(&header(1, 4, 1, "")).req, ApiRequest::Unknown));
    assert!(matches!(parse(&header(1, -1, 1, "")).req, ApiRequest::Unknown));
    assert!(matches!(parse(&header(2, 0, 1, "")).req, ApiRequest::Unknown));
    assert!(matches!(parse(&header(2, 2, 1, "")).req, ApiRequest::Unknown));
    assert!(matches!(parse(&header(4, 0, 1, "")).req, ApiRequest::Unknown));
    assert!(matches!(parse(&header(-1, 0, 1, "")).req, ApiRequest::Unknown));
}

#[test]
fn payload_free_requests() {
    assert!(matches!(parse(&header(10, 0, 1, "")).req, ApiRequest::FindGroupCoordinator));
    assert!(matches!(parse(&header(12, 0, 1, "")).req, ApiRequest::Heartbeat));
    assert!(matches!(parse(&header(13, 0, 1, "")).req, ApiRequest::LeaveGroup));
    let with_payload = cat(&[header(12, 0, 1, ""), string("group"), i32b(1), string("member")]);
    assert!(matches!(parse(&with_payload).req, ApiRequest::Heartbeat));
}

#[test]
fn metadata_request_topics() {
    let input = cat(&[header(3, 2, 9, "c"), i32b(2), string("a"), string("bcd")]);
    match parse(&input).req {
        ApiRequest::Metadata { topics } => assert_eq!(topics, vec!["a", "bcd"]),
        other => panic!("{:?}", other),
    }
}

#[test]
fn metadata_request_count_minus_one_is_empty() {
    let input = cat(&[header(3, 1, 9, "c"), i32b(-1)]);
    match parse(&input).req {
        ApiRequest::Metadata { topics } => assert!(topics.is_empty()),
        other => panic!("{:?}", other),
    }
    let input = cat(&[header(3, 1, 9, "c"), i32b(0)]);
    match parse(&input).req {
        ApiRequest::Metadata { topics } => assert!(topics.is_empty()),
        other => panic!("{:?}", other),
    }
}

#[test]
fn other_negative_counts_are_invalid() {
    let input = cat(&[header(3, 1, 9, "c"), i32b(-2)]);
    assert_eq!(kafka_request(&input).err(), Some(ParseError::Invalid));
}

#[test]
fn array_shorter_than_its_count_is_truncated() {
    let input = cat(&[header(3, 1, 9, "c"), i32b(3), string("a"), string("b")]);
    assert_eq!(kafka_request(&input).err(), Some(ParseError::Truncated));
}

#[test]
fn produce_request_with_one_message() {
    let set = message(Some(&[0x6b]), Some(&[0x76]), 1234);
    assert_eq!(set.len(), 36);
    let input = cat(&[
        header(0, 2, 4, "producer"),
        i16b(1),
        i32b(1000),
        i32b(1),
        string("t"),
        i32b(1),
        i32b(0),
        i32b(set.len() as i32),
        set,
    ]);
    let (rest, request) = kafka_request(&input).unwrap();
    assert!(rest.is_empty());
    match request.req {
        ApiRequest::Publish { acks, timeout, topics } => {
            assert_eq!(acks, 1);
            assert_eq!(timeout, 1000);
            assert_eq!(topics.len(), 1);
            assert_eq!(topics[0].topic, "t");
            assert_eq!(topics[0].messages.len(), 1);
            assert_eq!(topics[0].messages[0].0, 0);
            let messages = &topics[0].messages[0].1;
            assert_eq!(messages.len(), 1);
            assert_eq!(messages[0].partition, 0);
            assert_eq!(messages[0].timestamp, 1234);
            assert_eq!(messages[0].key, Some(vec![0x6b]));
            assert_eq!(messages[0].value, Some(vec![0x76]));
        },
        other => panic!("{:?}", other),
    }
}

#[test]
fn produce_request_reads_message_set_until_its_bytes_are_used_up() {
    let set = cat(&[
        message(Some(b"k1"), Some(b"v1"), 1),
        message(None, Some(b""), 2),
        message(Some(b""), None, 3),
    ]);
    let input = cat(&[
        header(0, 2, 4, ""),
        i16b(-1),
        i32b(5),
        i32b(2),
        string("a"),
        i32b(2),
        i32b(7),
        i32b(set.len() as i32),
        set,
        i32b(8),
        i32b(0),
        string("b"),
        i32b(0),
        vec![0xee],
    ]);
    let (rest, request) = kafka_request(&input).unwrap();
    assert_eq!(rest, &[0xee]);
    match request.req {
        ApiRequest::Publish { acks, topics, .. } => {
            assert_eq!(acks, 0xffff);
            assert_eq!(topics.len(), 2);
            assert_eq!(topics[0].messages.len(), 2);
            let (partition, messages) = &topics[0].messages[0];
            assert_eq!(*partition, 7);
            assert_eq!(messages.len(), 3);
            assert_eq!(messages[0].key, Some(b"k1".to_vec()));
            assert_eq!(messages[0].value, Some(b"v1".to_vec()));
            assert_eq!(messages[1].key, None);
            assert_eq!(messages[1].value, Some(vec![]));
            assert_eq!(messages[2].key, Some(vec![]));
            assert_eq!(messages[2].value, None);
            assert_eq!(messages[2].partition, 7);
            assert_eq!(messages[2].timestamp, 3);
            assert_eq!(topics[0].messages[1].0, 8);
            assert!(topics[0].messages[1].1.is_empty());
            assert_eq!(topics[1].topic, "b");
            assert!(topics[1].messages.is_empty());
        },
        other => panic!("{:?}", other),
    }
}

fn produce_with_set(set: Vec<u8>, declared: i32) -> Vec<u8> {
    cat(&[
        header(0, 2, 4, ""),
        i16b(1),
        i32b(5),
        i32b(1),
        string("a"),
        i32b(1),
        i32b(0),
        i32b(declared),
        set,
    ])
}

#[test]
fn produce_request_with_wrong_magic_is_invalid() {
    let mut set = message(Some(b"k"), Some(b"v"), 1);
    set[16] = 0;
    let n = set.len() as i32;
    assert_eq!(kafka_request(&produce_with_set(set, n)).err(), Some(ParseError::Invalid));
}

#[test]
fn produce_request_with_attributes_is_invalid() {
    let mut set = message(Some(b"k"), Some(b"v"), 1);
    set[17] = 1;
    let n = set.len() as i32;
    assert_eq!(kafka_request(&produce_with_set(set, n)).err(), Some(ParseError::Invalid));
}

#[test]
fn produce_request_with_wrong_size_is_invalid() {
    let mut set = message(Some(b"k"), Some(b"v"), 1);
    set[11] += 1;
    let n = set.len() as i32;
    assert_eq!(kafka_request(&produce_with_set(set, n)).err(), Some(ParseError::Invalid));
    let mut set = message(Some(b"k"), Some(b"v"), 1);
    set[8] = 0x80;
    let n = set.len() as i32;
    assert_eq!(kafka_request(&produce_with_set(set, n)).err(), Some(ParseError::Invalid));
}

#[test]
fn produce_request_message_set_is_bounded_to_its_bytes() {
    // the set claims one byte less than the message needs
    let set = message(Some(b"k"), Some(b"v"), 1);
    let n = set.len() as i32 - 1;
    assert_eq!(kafka_request(&produce_with_set(set, n)).err(), Some(ParseError::Truncated));
    // the set claims more bytes than there are
    let set = message(Some(b"k"), Some(b"v"), 1);
    let n = set.len() as i32 + 1;
    assert_eq!(kafka_request(&produce_with_set(set, n)).err(), Some(ParseError::Truncated));
    // a negative length
    let set = message(Some(b"k"), Some(b"v"), 1);
    assert_eq!(kafka_request(&produce_with_set(set, -1)).err(), Some(ParseError::Invalid));
}

#[test]
fn produce_request_negative_key_length_is_invalid() {
    let fields = cat(&[i32b(0), vec![1, 0], i64b(0), i32b(-5), i32b(-1)]);
    let set = cat(&[i64b(0), i32b(fields.len() as i32), fields]);
    let n = set.len() as i32;
    assert_eq!(kafka_request(&produce_with_set(set, n)).err(), Some(ParseError::Invalid));
}

#[test]
fn fetch_request_versions() {
    let topics = cat(&[
        i32b(1),
        string("t"),
        i32b(2),
        i32b(0),
        i64b(5),
        i32b(1 << 20),
        i32b(3),
        i64b(0x0102030405060708),
        i32b(1),
    ]);
    for version in 0..3 {
        let input = cat(&[header(1, version, 2, ""), i32b(-1), i32b(100), i32b(1), topics.clone()]);
        match parse(&input).req {
            ApiRequest::Fetch { topics } => {
                assert_eq!(topics, vec![("t".to_string(), vec![(0, 5), (3, 0x0102030405060708)])]);
            },
            other => panic!("{:?}", other),
        }
    }
    let input =
        cat(&[header(1, 3, 2, ""), i32b(-1), i32b(100), i32b(1), i32b(4096), topics.clone()]);
    match parse(&input).req {
        ApiRequest::Fetch { topics } => {
            assert_eq!(topics, vec![("t".to_string(), vec![(0, 5), (3, 0x0102030405060708)])]);
        },
        other => panic!("{:?}", other),
    }
}

#[test]
fn list_offsets_request_keeps_timestamps() {
    let input = cat(&[
        header(2, 1, 2, ""),
        i32b(-1),
        i32b(1),
        string("t"),
        i32b(3),
        i32b(0),
        i64b(-1),
        i32b(1),
        i64b(-2),
        i32b(2),
        i64b(1500000000000),
    ]);
    match parse(&input).req {
        ApiRequest::Offsets { topics } => {
            assert_eq!(
                topics,
                vec![("t".to_string(), vec![(0, -1), (1, -2), (2, 1500000000000)])]
            );
        },
        other => panic!("{:?}", other),
    }
}

fn same_topics(found: &[TopicWithPartitions], expected: &[(&str, Vec<u32>)]) {
    assert_eq!(found.len(), expected.len());
    for (f, e) in found.iter().zip(expected) {
        assert_eq!(f.name, e.0);
        assert_eq!(f.partitions, e.1);
    }
}

#[test]
fn offset_commit_request_keeps_partitions() {
    let input = cat(&[
        header(8, 2, 2, ""),
        string("group"),
        i32b(1),
        string("member"),
        i64b(-1),
        i32b(1),
        string("t"),
        i32b(2),
        i32b(0),
        i64b(10),
        string("meta"),
        i32b(4),
        i64b(11),
        i16b(-1),
    ]);
    match parse(&input).req {
        ApiRequest::OffsetCommit { topics } => same_topics(&topics, &[("t", vec![0, 4])]),
        other => panic!("{:?}", other),
    }
}

#[test]
fn offset_fetch_request() {
    let input = cat(&[
        header(9, 1, 2, ""),
        string("group"),
        i32b(2),
        string("a"),
        i32b(1),
        i32b(0),
        string("b"),
        i32b(0),
    ]);
    match parse(&input).req {
        ApiRequest::FetchOffsets { group_id, topics } => {
            assert_eq!(group_id, "group");
            same_topics(&topics, &[("a", vec![0]), ("b", vec![])]);
        },
        other => panic!("{:?}", other),
    }
}

#[test]
fn join_group_request() {
    let input = cat(&[
        header(11, 1, 2, ""),
        string("group"),
        i32b(30000),
        i32b(60000),
        string(""),
        string("consumer"),
        i32b(2),
        string("range"),
        bytes(&[1, 2, 3]),
        string("roundrobin"),
        i32b(-1),
    ]);
    match parse(&input).req {
        ApiRequest::JoinGroup { group_id, member_id, protocol_type, protocols } => {
            assert_eq!(group_id, "group");
            assert_eq!(member_id, "");
            assert_eq!(protocol_type, "consumer");
            assert_eq!(
                protocols,
                vec![
                    ("range".to_string(), Some(vec![1, 2, 3])),
                    ("roundrobin".to_string(), None)
                ]
            );
        },
        other => panic!("{:?}", other),
    }
}

#[test]
fn sync_group_request() {
    let input = cat(&[
        header(14, 0, 2, ""),
        string("group"),
        i32b(1),
        string("member"),
        i32b(2),
        string("m1"),
        bytes(&[7]),
        string("m2"),
        i32b(-1),
    ]);
    match parse(&input).req {
        ApiRequest::SyncGroup { group_id, member_id, assignments } => {
            assert_eq!(group_id, "group");
            assert_eq!(member_id, "member");
            assert_eq!(assignments, vec![Some(vec![7]), None]);
        },
        other => panic!("{:?}", other),
    }
}

#[test]
fn size_header_splits_one_frame() {
    let input = [0, 0, 0, 2, 0xaa, 0xbb, 0xcc];
    let (rest, body) = size_header(&input).unwrap();
    assert_eq!(body, &[0xaa, 0xbb]);
    assert_eq!(rest, &[0xcc]);
    let (rest, body) = size_header(&[0, 0, 0, 0]).unwrap();
    assert!(body.is_empty());
    assert!(rest.is_empty());
}

#[test]
fn size_header_needs_the_whole_frame() {
    assert_eq!(size_header(&[]).err(), Some(ParseError::Truncated));
    assert_eq!(size_header(&[0, 0, 0]).err(), Some(ParseError::Truncated));
    assert_eq!(size_header(&[0, 0, 0, 2, 1]).err(), Some(ParseError::Truncated));
    assert_eq!(size_header(&[0xff, 0xff, 0xff, 0xff, 1]).err(), Some(ParseError::Truncated));
}

#[test]
fn kafka_string_replaces_ill_formed_bytes() {
    assert_eq!(kafka_string(b"topic"), "topic");
    assert_eq!(kafka_string(&[0xc3, 0xa9]), "é");
    assert_eq!(kafka_string(&[b'a', 0xff, b'b']), "a\u{fffd}b");
    assert_eq!(kafka_string(&[]), "");
}

#[test]
fn topic_with_partitions_new() {
    let t = TopicWithPartitions::new("t".to_string(), vec![1, 2]);
    assert_eq!(t.name, "t");
    assert_eq!(t.partitions, vec![1, 2]);
}
