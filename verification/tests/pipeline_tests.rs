use bytes::BytesMut;
use unclek::backend::{initialize_with, PgState};
use unclek::codec::KafkaCodec;
use unclek::parser::{ApiRequest, ParseError};
use unclek::pipeline::{response_delay_ms, serve_one, serve_pending, ServeError};
use unclek::settings::{Database, Settings, Topic};
use unclek::store::StoreError;
use unclek::writer::{ApiResponse, KafkaResponse, KafkaResponseHeader};

fn i16b(v: i16) -> Vec<u8> {
    v.to_be_bytes().to_vec()
}

fn i32b(v: i32) -> Vec<u8> {
    v.to_be_bytes().to_vec()
}

fn i64b(v: i64) -> Vec<u8> {
    v.to_be_bytes().to_vec()
}

fn string(s: &str) -> Vec<u8> {
    let mut out = i16b(s.len() as i16);
    out.extend_from_slice(s.as_bytes());
    out
}

fn bytes(b: &[u8]) -> Vec<u8> {
    let mut out = i32b(b.len() as i32);
    out.extend_from_slice(b);
    out
}

fn cat(parts: &[Vec<u8>]) -> Vec<u8> {
    parts.concat()
}

fn frame(body: Vec<u8>) -> Vec<u8> {
    cat(&[i32b(body.len() as i32), body])
}

fn header(api_key: i16, version: i16, correlation_id: i32) -> Vec<u8> {
    cat(&[i16b(api_key), i16b(version), i32b(correlation_id), string("")])
}

fn message(key: Option<&[u8]>, value: &[u8]) -> Vec<u8> {
    let fields = cat(&[
        i32b(0),
        vec![1, 0],
        i64b(0),
        key.map(bytes).unwrap_or(i32b(-1)),
        bytes(value),
    ]);
    cat(&[i64b(0), i32b(fields.len() as i32), fields])
}

fn produce(correlation_id: i32, topic: &str, key: Option<&[u8]>, value: &[u8]) -> Vec<u8> {
    let set = message(key, value);
    frame(cat(&[
        header(0, 2, correlation_id),
        i16b(1),
        i32b(1000),
        i32b(1),
        string(topic),
        i32b(1),
        i32b(0),
        i32b(set.len() as i32),
        set,
    ]))
}

fn fetch(correlation_id: i32, topic: &str, offset: i64) -> Vec<u8> {
    frame(cat(&[
        header(1, 2, correlation_id),
        i32b(-1),
        i32b(500),
        i32b(1),
        i32b(1),
        string(topic),
        i32b(1),
        i32b(0),
        i64b(offset),
        i32b(1 << 20),
    ]))
}

fn list_offsets(correlation_id: i32, topic: &str, timestamps: &[i64]) -> Vec<u8> {
    let mut partitions = i32b(timestamps.len() as i32);
    for (p, ts) in timestamps.iter().enumerate() {
        partitions.extend(cat(&[i32b(p as i32), i64b(*ts)]));
    }
    frame(cat(&[header(2, 1, correlation_id), i32b(-1), i32b(1), string(topic), partitions]))
}

fn state(topics: Vec<Topic>) -> PgState {
    let cnf = Settings {
        listen: None,
        hostname: None,
        cleanup: None,
        threads: None,
        database: Database { url: String::new() },
        topics,
    };
    initialize_with(&cnf, "broker.test".to_string())
}

fn plain(name: &str) -> Topic {
    Topic { name: name.to_string(), compacted: None, retention: None }
}

fn compacted(name: &str) -> Topic {
    Topic { name: name.to_string(), compacted: Some(true), retention: None }
}

/// Serves everything that `input` holds and returns the responses, one per frame.
fn serve_all(db: &mut PgState, input: &[u8]) -> Vec<(u64, Vec<u8>)> {
    let mut codec = KafkaCodec;
    let mut buf = BytesMut::new();
    buf.extend_from_slice(input);
    let mut responses = Vec::new();
    loop {
        let mut out = BytesMut::new();
        match serve_one(&mut codec, &mut buf, db, 0, &mut out) {
            Ok(Some(delay)) => responses.push((delay, out.to_vec())),
            Ok(None) => {
                assert!(out.is_empty());
                return responses;
            },
            Err(e) => panic!("{:?}", e),
        }
    }
}

fn response_body(response: &[u8]) -> &[u8] {
    let declared = u32::from_be_bytes([response[0], response[1], response[2], response[3]]);
    assert_eq!(declared as usize, response.len() - 4);
    &response[8..]
}

fn correlation_id(response: &[u8]) -> i32 {
    i32::from_be_bytes([response[4], response[5], response[6], response[7]])
}

/// The records of the single topic of a fetch response: offset, key, value.
fn records_of(response: &[u8]) -> (i64, Vec<(u64, Option<Vec<u8>>, Vec<u8>)>) {
    let body = response_body(response);
    let name_len = u16::from_be_bytes([body[8], body[9]]) as usize;
    let mut at = 10 + name_len + 4 + 4 + 2;
    let high_watermark = i64::from_be_bytes(body[at..at + 8].try_into().unwrap());
    at += 8;
    let record_bytes = u32::from_be_bytes(body[at..at + 4].try_into().unwrap()) as usize;
    at += 4;
    assert_eq!(at + record_bytes, body.len());
    let mut records = Vec::new();
    while at < body.len() {
        let offset = u64::from_be_bytes(body[at..at + 8].try_into().unwrap());
        let size = u32::from_be_bytes(body[at + 8..at + 12].try_into().unwrap()) as usize;
        let crc = u32::from_be_bytes(body[at + 12..at + 16].try_into().unwrap());
        assert_eq!(crc, crc::crc32::checksum_ieee(&body[at + 16..at + 12 + size]));
        let mut k = at + 16 + 10;
        let key_len = i32::from_be_bytes(body[k..k + 4].try_into().unwrap());
        k += 4;
        let key = if key_len < 0 {
            None
        } else {
            let key = body[k..k + key_len as usize].to_vec();
            k += key_len as usize;
            Some(key)
        };
        let value_len = u32::from_be_bytes(body[k..k + 4].try_into().unwrap()) as usize;
        k += 4;
        let value = body[k..k + value_len].to_vec();
        assert_eq!(k + value_len, at + 12 + size);
        records.push((offset, key, value));
        at += 12 + size;
    }
    (high_watermark, records)
}

#[test]
fn api_versions_probe() {
    let mut db = state(vec![]);
    let input = frame(header(18, 0, 1));
    assert_eq!(&input[0..4], &[0, 0, 0, 10]);
    let responses = serve_all(&mut db, &input);
    assert_eq!(responses.len(), 1);
    assert_eq!(responses[0].0, 0);
    let body = response_body(&responses[0].1);
    assert_eq!(correlation_id(&responses[0].1), 1);
    assert_eq!(&body[0..2], &[0, 0]);
    assert_eq!(&body[2..6], &[0, 0, 0, 21]);
    assert_eq!(&body[6..12], &[0, 0, 0, 0, 0, 2]);
    assert_eq!(&body[6 + 18..6 + 24], &[0, 3, 0, 0, 0, 2]);
    assert_eq!(&body[6 + 108..6 + 114], &[0, 18, 0, 0, 0, 0]);
}

#[test]
fn metadata_of_empty_topic_list() {
    let mut db = state(vec![]);
    let input = frame(cat(&[header(3, 2, 5), i32b(0)]));
    let responses = serve_all(&mut db, &input);
    let body = response_body(&responses[0].1);
    let mut expected = vec![0, 0, 0, 1, 0, 0, 0, 0];
    expected.extend(string("broker.test"));
    expected.extend_from_slice(&[0, 0, 0x23, 0x84, 0xff, 0xff]);
    expected.extend(string("UncleK"));
    expected.extend_from_slice(&[0, 0, 0, 0]);
    expected.extend_from_slice(&[0, 0, 0, 0]);
    assert_eq!(body, &expected[..]);
}

#[test]
fn metadata_reports_topics_the_store_does_not_have() {
    let mut db = state(vec![]);
    let input = frame(cat(&[header(3, 2, 5), i32b(1), string("nowhere")]));
    let responses = serve_all(&mut db, &input);
    let body = response_body(&responses[0].1);
    let tail = &body[body.len() - 46..];
    assert_eq!(&tail[0..4], &[0, 0, 0, 1]);
    assert_eq!(&tail[4..6], &[0, 0]);
    assert_eq!(&tail[6..15], &string("nowhere")[..]);
}

#[test]
fn produce_then_fetch() {
    let mut db = state(vec![plain("t")]);
    let input = cat(&[produce(1, "t", Some(&[0x6b]), &[0x76]), fetch(2, "t", 0)]);
    let responses = serve_all(&mut db, &input);
    assert_eq!(responses.len(), 2);
    // the produce response acknowledges partition 0 of "t"
    let mut acknowledged = vec![0, 0, 0, 1];
    acknowledged.extend(string("t"));
    acknowledged.extend_from_slice(&[0, 0, 0, 1, 0, 0, 0, 0, 0, 0]);
    acknowledged.extend_from_slice(&[0; 16]);
    acknowledged.extend_from_slice(&[0, 0, 0, 0]);
    assert_eq!(response_body(&responses[0].1), &acknowledged[..]);
    let (high_watermark, records) = records_of(&responses[1].1);
    assert_eq!(high_watermark, 0);
    assert_eq!(records, vec![(0, Some(vec![0x6b]), vec![0x76])]);
    assert_eq!(responses[1].0, 0);
}

#[test]
fn fetch_at_the_offset_before_a_produce_returns_the_produced_record() {
    let mut db = state(vec![plain("t")]);
    serve_all(&mut db, &produce(1, "t", Some(b"a"), b"1"));
    serve_all(&mut db, &produce(2, "t", Some(b"b"), b"2"));
    let before = db.pool.next_offset(&"t".to_string()).unwrap();
    assert_eq!(before, 2);
    serve_all(&mut db, &produce(3, "t", Some(b"k"), b"v"));
    let responses = serve_all(&mut db, &fetch(4, "t", before));
    let (_, records) = records_of(&responses[0].1);
    assert_eq!(records, vec![(2, Some(b"k".to_vec()), b"v".to_vec())]);
}

#[test]
fn compacted_overwrite() {
    let mut db = state(vec![compacted("t")]);
    let input = cat(&[
        produce(1, "t", Some(&[0xaa]), &[0x01]),
        produce(2, "t", Some(&[0xaa]), &[0x02]),
        fetch(3, "t", 0),
    ]);
    let responses = serve_all(&mut db, &input);
    let (_, records) = records_of(&responses[2].1);
    assert_eq!(records.len(), 1);
    assert_eq!(records[0].1, Some(vec![0xaa]));
    assert_eq!(records[0].2, vec![0x02]);
}

#[test]
fn topic_that_is_not_compacted_keeps_both() {
    let mut db = state(vec![plain("t")]);
    let input = cat(&[
        produce(1, "t", Some(&[0xaa]), &[0x01]),
        produce(2, "t", Some(&[0xaa]), &[0x02]),
        fetch(3, "t", 0),
    ]);
    let responses = serve_all(&mut db, &input);
    let (_, records) = records_of(&responses[2].1);
    assert_eq!(
        records,
        vec![(0, Some(vec![0xaa]), vec![0x01]), (1, Some(vec![0xaa]), vec![0x02])]
    );
}

#[test]
fn list_offsets_latest_on_empty_topic() {
    let mut db = state(vec![plain("t")]);
    let responses = serve_all(&mut db, &list_offsets(9, "t", &[-1]));
    let body = response_body(&responses[0].1);
    let mut expected = vec![0, 0, 0, 1];
    expected.extend(string("t"));
    expected.extend_from_slice(&[0, 0, 0, 1, 0, 0, 0, 0, 0, 0]);
    expected.extend_from_slice(&[0; 8]);
    expected.extend_from_slice(&[0; 8]);
    assert_eq!(body, &expected[..]);
}

#[test]
fn list_offsets_by_timestamp() {
    let mut db = state(vec![plain("t")]);
    for k in 0..3 {
        serve_all(&mut db, &produce(k, "t", None, b"v"));
    }
    let responses = serve_all(&mut db, &list_offsets(9, "t", &[-2, -1, 0, 1500000000000, -3]));
    let body = response_body(&responses[0].1);
    let mut at = 4 + 3 + 4;
    let mut offsets = Vec::new();
    for p in 0..5 {
        assert_eq!(&body[at..at + 4], &i32b(p)[..]);
        assert_eq!(&body[at + 4..at + 6], &[0, 0]);
        assert_eq!(&body[at + 6..at + 14], &[0; 8]);
        offsets.push(i64::from_be_bytes(body[at + 14..at + 22].try_into().unwrap()));
        at += 22;
    }
    assert_eq!(at, body.len());
    assert_eq!(offsets, vec![0, 3, -1, -1, -1]);
}

#[test]
fn unknown_api_key() {
    let mut db = state(vec![]);
    let input = cat(&[frame(header(99, 0, 31)), frame(header(18, 0, 32))]);
    let responses = serve_all(&mut db, &input);
    assert_eq!(responses.len(), 2);
    assert_eq!(correlation_id(&responses[0].1), 31);
    assert_eq!(response_body(&responses[0].1), &[0, 55]);
    // the connection goes on: the next request is answered
    assert_eq!(correlation_id(&responses[1].1), 32);
}

#[test]
fn empty_fetch_is_held_back_for_a_second() {
    let mut db = state(vec![plain("t")]);
    let responses = serve_all(&mut db, &fetch(1, "t", 0));
    assert_eq!(responses[0].0, 1000);
    serve_all(&mut db, &produce(2, "t", None, b"v"));
    let responses = serve_all(&mut db, &fetch(3, "t", 0));
    assert_eq!(responses[0].0, 0);
    let responses = serve_all(&mut db, &fetch(4, "t", 1));
    assert_eq!(responses[0].0, 1000);
}

#[test]
fn response_delay_of_each_kind() {
    let response = |req| KafkaResponse { header: KafkaResponseHeader::new(0), req };
    assert_eq!(
        response_delay_ms(&response(ApiResponse::FetchResponse { version: 2, responses: vec![] })),
        1000
    );
    assert_eq!(
        response_delay_ms(&response(ApiResponse::FetchResponse {
            version: 2,
            responses: vec![("t".to_string(), vec![(0, None, vec![])])],
        })),
        0
    );
    assert_eq!(response_delay_ms(&response(ApiResponse::VersionsResponse)), 0);
    assert_eq!(response_delay_ms(&response(ApiResponse::ErrorResponse)), 0);
}

#[test]
fn responses_come_in_request_order() {
    let mut db = state(vec![plain("t")]);
    let mut input = Vec::new();
    let ids = [5, -1, 0, 1 << 30, 7, 6, 100, 3];
    for (k, id) in ids.iter().enumerate() {
        input.extend(match k % 4 {
            0 => frame(header(18, 0, *id)),
            1 => produce(*id, "t", None, b"v"),
            2 => frame(cat(&[header(3, 2, *id), i32b(0)])),
            _ => frame(header(99, 0, *id)),
        });
    }
    let mut codec = KafkaCodec;
    let mut buf = BytesMut::new();
    buf.extend_from_slice(&input);
    let mut out = BytesMut::new();
    while let Some(_) = serve_one(&mut codec, &mut buf, &mut db, 0, &mut out).unwrap() {}
    let wire = out.to_vec();
    let mut at = 0;
    let mut seen = Vec::new();
    while at < wire.len() {
        let len = u32::from_be_bytes(wire[at..at + 4].try_into().unwrap()) as usize;
        seen.push(i32::from_be_bytes(wire[at + 4..at + 8].try_into().unwrap()));
        at += 4 + len;
    }
    assert_eq!(at, wire.len());
    assert_eq!(seen, ids.to_vec());
}

#[test]
fn every_response_carries_the_correlation_id_of_its_request() {
    let mut db = state(vec![plain("t")]);
    let group = cat(&[string("g"), i32b(1), string("m")]);
    let requests: Vec<Vec<u8>> = vec![
        produce(10, "t", Some(b"k"), b"v"),
        fetch(11, "t", 0),
        list_offsets(12, "t", &[-1]),
        frame(cat(&[header(3, 2, 13), i32b(1), string("t")])),
        frame(cat(&[
            header(8, 2, 14),
            string("g"),
            i32b(1),
            string("m"),
            i64b(-1),
            i32b(1),
            string("t"),
            i32b(1),
            i32b(0),
            i64b(1),
            i16b(-1),
        ])),
        frame(cat(&[header(9, 1, 15), string("g"), i32b(1), string("t"), i32b(1), i32b(0)])),
        frame(header(10, 0, 16)),
        frame(cat(&[
            header(11, 0, 17),
            string("g"),
            i32b(1),
            i32b(1),
            string(""),
            string("consumer"),
            i32b(1),
            string("range"),
            bytes(&[1]),
        ])),
        frame(cat(&[header(12, 0, 18), group.clone()])),
        frame(cat(&[header(13, 0, 19), string("g"), string("m")])),
        frame(cat(&[header(14, 0, 20), group, i32b(1), string("m"), bytes(&[4, 5])])),
        frame(header(18, 0, 21)),
        frame(header(50, 0, 22)),
    ];
    for (k, request) in requests.iter().enumerate() {
        let responses = serve_all(&mut db, request);
        assert_eq!(responses.len(), 1);
        assert_eq!(correlation_id(&responses[0].1), 10 + k as i32);
    }
}

#[test]
fn group_requests_are_answered_with_stubs() {
    let mut db = state(vec![]);
    let join = frame(cat(&[
        header(11, 0, 1),
        string("g"),
        i32b(1),
        i32b(1),
        string(""),
        string("consumer"),
        i32b(2),
        string("range"),
        bytes(&[1, 2]),
        string("other"),
        bytes(&[3]),
    ]));
    let body = response_body(&serve_all(&mut db, &join)[0].1).to_vec();
    let expected = cat(&[
        i16b(0),
        i32b(0),
        string("range"),
        string(""),
        string(""),
        i32b(1),
        string("range"),
        bytes(&[1, 2]),
    ]);
    assert_eq!(body, expected);
    let sync = frame(cat(&[
        header(14, 0, 2),
        string("g"),
        i32b(1),
        string("m"),
        i32b(2),
        string("m"),
        bytes(&[4, 5]),
        string("n"),
        bytes(&[6]),
    ]));
    let body = response_body(&serve_all(&mut db, &sync)[0].1).to_vec();
    assert_eq!(body, cat(&[i16b(0), bytes(&[4, 5])]));
    let coordinator = frame(header(10, 0, 3));
    let body = response_body(&serve_all(&mut db, &coordinator)[0].1).to_vec();
    assert_eq!(body, cat(&[i16b(0), i32b(0), string("broker.test"), i32b(9092)]));
    let offset_fetch =
        frame(cat(&[header(9, 1, 4), string("g"), i32b(1), string("t"), i32b(2), i32b(0), i32b(1)]));
    let body = response_body(&serve_all(&mut db, &offset_fetch)[0].1).to_vec();
    let expected = cat(&[
        i32b(1),
        string("t"),
        i32b(2),
        i32b(0),
        i64b(-1),
        i16b(-1),
        i16b(0),
        i32b(1),
        i64b(-1),
        i16b(-1),
        i16b(0),
        i16b(0),
    ]);
    assert_eq!(body, expected);
}

#[test]
fn partial_frame_is_left_in_the_buffer() {
    let mut db = state(vec![]);
    let mut codec = KafkaCodec;
    let whole = frame(header(18, 0, 1));
    for cut in 0..whole.len() {
        let mut buf = BytesMut::new();
        buf.extend_from_slice(&whole[..cut]);
        let mut out = BytesMut::new();
        assert_eq!(serve_one(&mut codec, &mut buf, &mut db, 0, &mut out), Ok(None));
        assert_eq!(&buf[..], &whole[..cut]);
        assert!(out.is_empty());
    }
}

#[test]
fn decode_takes_one_frame_and_leaves_the_rest() {
    let mut codec = KafkaCodec;
    let mut buf = BytesMut::new();
    buf.extend_from_slice(&frame(header(18, 0, 1)));
    buf.extend_from_slice(&frame(header(12, 0, 2)));
    buf.extend_from_slice(&[0, 0]);
    let first = codec.decode(&mut buf).unwrap().unwrap();
    assert_eq!(first.header.correlation_id, 1);
    assert!(matches!(first.req, ApiRequest::Versions));
    let second = codec.decode(&mut buf).unwrap().unwrap();
    assert_eq!(second.header.correlation_id, 2);
    assert!(matches!(second.req, ApiRequest::Heartbeat));
    assert!(codec.decode(&mut buf).unwrap().is_none());
    assert_eq!(&buf[..], &[0, 0]);
}

#[test]
fn encode_writes_the_framed_response() {
    let mut codec = KafkaCodec;
    let mut buf = BytesMut::new();
    codec.encode(
        KafkaResponse { header: KafkaResponseHeader::new(8), req: ApiResponse::ErrorResponse },
        &mut buf,
    );
    assert_eq!(&buf[..], &[0, 0, 0, 6, 0, 0, 0, 8, 0, 55]);
}

#[test]
fn malformed_frame_ends_the_connection() {
    let mut db = state(vec![]);
    let mut codec = KafkaCodec;
    let mut buf = BytesMut::new();
    // a whole frame whose body ends inside the header
    buf.extend_from_slice(&frame(vec![0, 18, 0]));
    buf.extend_from_slice(&[1, 2, 3]);
    let mut out = BytesMut::new();
    assert_eq!(
        serve_one(&mut codec, &mut buf, &mut db, 0, &mut out),
        Err(ServeError::Malformed(ParseError::Truncated))
    );
    assert!(out.is_empty());
    assert_eq!(&buf[..], &[1, 2, 3]);
    // a produce request whose message has magic 0
    let mut set = message(None, b"v");
    set[16] = 0;
    let bad = frame(cat(&[
        header(0, 2, 1),
        i16b(1),
        i32b(0),
        i32b(1),
        string("t"),
        i32b(1),
        i32b(0),
        i32b(set.len() as i32),
        set,
    ]));
    let mut buf = BytesMut::new();
    buf.extend_from_slice(&bad);
    assert_eq!(
        serve_one(&mut codec, &mut buf, &mut db, 0, &mut out),
        Err(ServeError::Malformed(ParseError::Invalid))
    );
}

#[test]
fn store_failure_is_reported() {
    let mut db = state(vec![]);
    let mut codec = KafkaCodec;
    let mut out = BytesMut::new();
    for request in [produce(1, "missing", None, b"v"), fetch(2, "missing", 0), list_offsets(3, "missing", &[-1])] {
        let mut buf = BytesMut::new();
        buf.extend_from_slice(&request);
        assert_eq!(
            serve_one(&mut codec, &mut buf, &mut db, 0, &mut out),
            Err(ServeError::Store(StoreError::UnknownTopic))
        );
        assert!(out.is_empty());
    }
    // a list-offsets request that asks for no latest offset does not reach the store
    let mut buf = BytesMut::new();
    buf.extend_from_slice(&list_offsets(4, "missing", &[-2, 17]));
    assert_eq!(serve_one(&mut codec, &mut buf, &mut db, 0, &mut out), Ok(Some(0)));
}

#[test]
fn serve_pending_answers_a_burst_in_order() {
    let mut db = state(vec![plain("t")]);
    let input = cat(&[
        fetch(1, "t", 0),
        produce(2, "t", Some(b"k"), b"v"),
        fetch(3, "t", 0),
        frame(header(99, 0, 4)),
        frame(header(18, 0, 5))[..9].to_vec(),
    ]);
    let mut codec = KafkaCodec;
    let mut buf = BytesMut::new();
    buf.extend_from_slice(&input);
    let mut out = BytesMut::new();
    out.extend_from_slice(&[0xee]);
    let delays = serve_pending(&mut codec, &mut buf, &mut db, 0, &mut out).unwrap();
    assert_eq!(delays, vec![1000, 0, 0, 0]);
    // the unfinished frame stays in the buffer
    assert_eq!(&buf[..], &frame(header(18, 0, 5))[..9]);
    let wire = out.to_vec();
    assert_eq!(wire[0], 0xee);
    let mut at = 1;
    let mut seen = Vec::new();
    while at < wire.len() {
        let len = u32::from_be_bytes(wire[at..at + 4].try_into().unwrap()) as usize;
        seen.push(i32::from_be_bytes(wire[at + 4..at + 8].try_into().unwrap()));
        at += 4 + len;
    }
    assert_eq!(at, wire.len());
    assert_eq!(seen, vec![1, 2, 3, 4]);
    // the same responses come out of serving the requests one by one
    let mut again = state(vec![plain("t")]);
    let one_by_one: Vec<u8> =
        serve_all(&mut again, &input).into_iter().flat_map(|(_, bytes)| bytes).collect();
    assert_eq!(&wire[1..], &one_by_one[..]);
}

#[test]
fn serve_pending_stops_at_a_failure_and_keeps_what_was_written() {
    let mut db = state(vec![plain("t")]);
    let input = cat(&[
        frame(header(18, 0, 1)),
        frame(vec![0, 1]),
        frame(header(18, 0, 3)),
    ]);
    let mut codec = KafkaCodec;
    let mut buf = BytesMut::new();
    buf.extend_from_slice(&input);
    let mut out = BytesMut::new();
    assert_eq!(
        serve_pending(&mut codec, &mut buf, &mut db, 0, &mut out),
        Err(ServeError::Malformed(ParseError::Truncated))
    );
    assert_eq!(correlation_id(&out[..]), 1);
    assert_eq!(out.len(), 4 + 136);
    assert_eq!(&buf[..], &frame(header(18, 0, 3))[..]);
    let mut out = BytesMut::new();
    let mut buf = BytesMut::new();
    buf.extend_from_slice(&cat(&[frame(header(18, 0, 1)), fetch(2, "missing", 0)]));
    assert_eq!(
        serve_pending(&mut codec, &mut buf, &mut db, 0, &mut out),
        Err(ServeError::Store(StoreError::UnknownTopic))
    );
    assert_eq!(out.len(), 4 + 136);
    assert!(buf.is_empty());
}

#[test]
fn serve_pending_without_a_whole_frame_does_nothing() {
    let mut db = state(vec![]);
    let mut codec = KafkaCodec;
    let mut buf = BytesMut::new();
    buf.extend_from_slice(&[0, 0, 0, 10, 0, 18]);
    let mut out = BytesMut::new();
    assert_eq!(serve_pending(&mut codec, &mut buf, &mut db, 0, &mut out), Ok(vec![]));
    assert!(out.is_empty());
    assert_eq!(&buf[..], &[0, 0, 0, 10, 0, 18]);
}
