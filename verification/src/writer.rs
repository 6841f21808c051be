//! Responses and their wire encoding.
//!
//! Every response is framed as a 32-bit length, the correlation id of the
//! request it answers, and a body whose layout depends on the kind of
//! response. All integers are big-endian; a string carries a 16-bit length and
//! a byte array a 32-bit length, each measured in bytes and written modulo the
//! width of the length field.

use crate::buffer::{append, buffer_bytes, buffer_len, contents, new_buffer};
use crate::checksum::{checksum_ieee, crc32_ieee};
use crate::parser::TopicWithPartitions;
use crate::wire::{be16, be32, be64, bits16, bits32, bits64, i16_bits, i32_bits, i64_bits};
use bytes::BytesMut;
use vstd::prelude::*;
use vstd::utf8::encode_utf8;

verus! {

/// Anything that is a response body.
#[derive(Debug)]
pub enum ApiResponse {
    VersionsResponse,
    ErrorResponse,
    MetadataResponse { version: i16, cluster: ClusterMetadata },
    PublishResponse { version: i16, responses: Vec<(String, Vec<u32>)> },
    FetchResponse { version: i16, responses: Vec<(String, Vec<(u64, Option<Vec<u8>>, Vec<u8>)>)> },
    GroupCoordinatorResponse { hostname: String },
    JoinGroupResponse { protocol: Option<(String, Option<Vec<u8>>)> },
    SyncGroupResponse { assignment: Option<Vec<u8>> },
    FetchOffsetsResponse { topics: Vec<(String, Vec<(u32, i64)>)> },
    OffsetsResponse { topics: Vec<(String, Vec<(u32, i64)>)> },
    OffsetCommitResponse { topics: Vec<TopicWithPartitions> },
    HeartbeatResponse,
    LeaveGroupResponse,
}

#[derive(Debug)]
pub struct KafkaResponse {
    pub header: KafkaResponseHeader,
    pub req: ApiResponse,
}

#[derive(Debug)]
pub struct KafkaResponseHeader {
    pub length: u32,
    pub correlation_id: i32,
}

#[derive(Debug)]
pub struct ClusterMetadata {
    pub brokers: Vec<BrokerMetadata>,
    pub cluster_id: String,
    pub controller_id: u32,
    pub topics: Vec<TopicMetadata>,
}

#[derive(Debug)]
pub struct BrokerMetadata {
    pub node_id: u32,
    pub host: String,
    pub port: u32,
    pub rack: Option<String>,
}

#[derive(Debug)]
pub struct TopicMetadata {
    pub error_code: u16,
    pub name: String,
    pub is_internal: u8,
    pub partitions: Vec<PartitionMetadata>,
}

#[derive(Debug)]
pub struct PartitionMetadata {
    pub error_code: u16,
    pub id: u32,
    pub leader: u32,
    pub replicas: Vec<u32>,
    pub isr: Vec<u32>,
}

/// One fetched record: its offset, its key if it has one, its value.
pub type RecordModel = (u64, Option<Seq<u8>>, Seq<u8>);

/// What a `BrokerMetadata` says.
pub struct BrokerModel {
    pub node_id: u32,
    pub host: Seq<char>,
    pub port: u32,
    pub rack: Option<Seq<char>>,
}

/// What a `PartitionMetadata` says.
pub struct PartitionModel {
    pub error_code: u16,
    pub id: u32,
    pub leader: u32,
    pub replicas: Seq<u32>,
    pub isr: Seq<u32>,
}

/// What a `TopicMetadata` says.
pub struct TopicModel {
    pub error_code: u16,
    pub name: Seq<char>,
    pub is_internal: u8,
    pub partitions: Seq<PartitionModel>,
}

/// What a `ClusterMetadata` says.
pub struct ClusterModel {
    pub brokers: Seq<BrokerModel>,
    pub cluster_id: Seq<char>,
    pub controller_id: u32,
    pub topics: Seq<TopicModel>,
}

/// What an `ApiResponse` says.
pub enum ResponseModel {
    Versions,
    Error,
    Metadata { version: i16, cluster: ClusterModel },
    Publish { version: i16, responses: Seq<(Seq<char>, Seq<u32>)> },
    Fetch { version: i16, responses: Seq<(Seq<char>, Seq<RecordModel>)> },
    GroupCoordinator { hostname: Seq<char> },
    JoinGroup { protocol: Option<(Seq<char>, Option<Seq<u8>>)> },
    SyncGroup { assignment: Option<Seq<u8>> },
    FetchOffsets { topics: Seq<(Seq<char>, Seq<(u32, i64)>)> },
    Offsets { topics: Seq<(Seq<char>, Seq<(u32, i64)>)> },
    OffsetCommit { topics: Seq<(Seq<char>, Seq<u32>)> },
    Heartbeat,
    LeaveGroup,
}

impl DeepView for BrokerMetadata {
    type V = BrokerModel;

    open spec fn deep_view(&self) -> BrokerModel {
        BrokerModel {
            node_id: self.node_id,
            host: self.host@,
            port: self.port,
            rack: self.rack.deep_view(),
        }
    }
}

impl DeepView for PartitionMetadata {
    type V = PartitionModel;

    open spec fn deep_view(&self) -> PartitionModel {
        PartitionModel {
            error_code: self.error_code,
            id: self.id,
            leader: self.leader,
            replicas: self.replicas@,
            isr: self.isr@,
        }
    }
}

impl DeepView for TopicMetadata {
    type V = TopicModel;

    open spec fn deep_view(&self) -> TopicModel {
        TopicModel {
            error_code: self.error_code,
            name: self.name@,
            is_internal: self.is_internal,
            partitions: self.partitions.deep_view(),
        }
    }
}

impl DeepView for ClusterMetadata {
    type V = ClusterModel;

    open spec fn deep_view(&self) -> ClusterModel {
        ClusterModel {
            brokers: self.brokers.deep_view(),
            cluster_id: self.cluster_id@,
            controller_id: self.controller_id,
            topics: self.topics.deep_view(),
        }
    }
}

impl DeepView for ApiResponse {
    type V = ResponseModel;

    open spec fn deep_view(&self) -> ResponseModel {
        match self {
            ApiResponse::VersionsResponse => ResponseModel::Versions,
            ApiResponse::ErrorResponse => ResponseModel::Error,
            ApiResponse::MetadataResponse { version, cluster } => ResponseModel::Metadata {
                version: *version,
                cluster: cluster.deep_view(),
            },
            ApiResponse::PublishResponse { version, responses } => ResponseModel::Publish {
                version: *version,
                responses: responses.deep_view(),
            },
            ApiResponse::FetchResponse { version, responses } => ResponseModel::Fetch {
                version: *version,
                responses: responses.deep_view(),
            },
            ApiResponse::GroupCoordinatorResponse { hostname } => ResponseModel::GroupCoordinator {
                hostname: hostname@,
            },
            ApiResponse::JoinGroupResponse { protocol } => ResponseModel::JoinGroup {
                protocol: protocol.deep_view(),
            },
            ApiResponse::SyncGroupResponse { assignment } => ResponseModel::SyncGroup {
                assignment: assignment.deep_view(),
            },
            ApiResponse::FetchOffsetsResponse { topics } => ResponseModel::FetchOffsets {
                topics: topics.deep_view(),
            },
            ApiResponse::OffsetsResponse { topics } => ResponseModel::Offsets {
                topics: topics.deep_view(),
            },
            ApiResponse::OffsetCommitResponse { topics } => ResponseModel::OffsetCommit {
                topics: topics.deep_view(),
            },
            ApiResponse::HeartbeatResponse => ResponseModel::Heartbeat,
            ApiResponse::LeaveGroupResponse => ResponseModel::LeaveGroup,
        }
    }
}

/// The encodings of the items of a sequence, one after the other.
pub open spec fn enc_seq<T>(items: Seq<T>, f: spec_fn(T) -> Seq<u8>) -> Seq<u8>
    decreases items.len(),
{
    if items.len() == 0 {
        Seq::<u8>::empty()
    } else {
        enc_seq(items.drop_last(), f) + f(items.last())
    }
}

/// A length as it is written into a 16-bit length field.
pub open spec fn len16(n: nat) -> u16 {
    (n % 0x1_0000) as u16
}

/// A length as it is written into a 32-bit length field.
pub open spec fn len32(n: nat) -> u32 {
    (n % 0x1_0000_0000) as u32
}

/// An array: the count of its items, then the items.
pub open spec fn enc_array<T>(items: Seq<T>, f: spec_fn(T) -> Seq<u8>) -> Seq<u8> {
    be32(len32(items.len())) + enc_seq(items, f)
}

/// A string: the length of its UTF-8 form, then that form.
pub open spec fn enc_str(s: Seq<char>) -> Seq<u8> {
    be16(len16(encode_utf8(s).len())) + encode_utf8(s)
}

/// A nullable string: length -1 stands for the null string.
pub open spec fn enc_opt_str(s: Option<Seq<char>>) -> Seq<u8> {
    match s {
        Some(s) => enc_str(s),
        None => be16(0xffff),
    }
}

/// A byte array: its length, then its bytes.
pub open spec fn enc_bytes(b: Seq<u8>) -> Seq<u8> {
    be32(len32(b.len())) + b
}

/// A nullable byte array: length -1 stands for the null array.
pub open spec fn enc_nullable_bytes(b: Option<Seq<u8>>) -> Seq<u8> {
    match b {
        Some(b) => enc_bytes(b),
        None => be32(0xffff_ffff),
    }
}

/// A byte array in a field that cannot be null: a missing array is written as
/// the empty one.
pub open spec fn enc_bytes_or_empty(b: Option<Seq<u8>>) -> Seq<u8> {
    match b {
        Some(b) => enc_bytes(b),
        None => be32(0),
    }
}

/// An array of 32-bit integers.
pub open spec fn enc_u32s(items: Seq<u32>) -> Seq<u8> {
    enc_array(items, |v: u32| be32(v))
}

/// One broker of a metadata response.
pub open spec fn enc_broker(b: BrokerModel) -> Seq<u8> {
    be32(b.node_id) + enc_str(b.host) + be32(b.port) + enc_opt_str(b.rack)
}

/// One partition of a topic of a metadata response.
pub open spec fn enc_partition(p: PartitionModel) -> Seq<u8> {
    be16(p.error_code) + be32(p.id) + be32(p.leader) + enc_u32s(p.replicas) + enc_u32s(p.isr)
}

/// One topic of a metadata response.
pub open spec fn enc_topic(t: TopicModel) -> Seq<u8> {
    be16(t.error_code) + enc_str(t.name) + seq![t.is_internal] + enc_array(
        t.partitions,
        |p: PartitionModel| enc_partition(p),
    )
}

/// The body of a metadata response.
pub open spec fn enc_cluster(c: ClusterModel) -> Seq<u8> {
    enc_array(c.brokers, |b: BrokerModel| enc_broker(b)) + enc_str(c.cluster_id) + be32(
        c.controller_id,
    ) + enc_array(c.topics, |t: TopicModel| enc_topic(t))
}

/// One acknowledged partition: its number, error 0, base offset 0, log append time 0.
pub open spec fn enc_produced_partition(p: u32) -> Seq<u8> {
    be32(p) + be16(0) + be64(0) + be64(0)
}

/// One topic of a produce response.
pub open spec fn enc_produced_topic(t: (Seq<char>, Seq<u32>)) -> Seq<u8> {
    enc_str(t.0) + enc_array(t.1, |p: u32| enc_produced_partition(p))
}

/// The body of a produce response; it ends with throttle time 0.
pub open spec fn enc_publish(responses: Seq<(Seq<char>, Seq<u32>)>) -> Seq<u8> {
    enc_array(responses, |t: (Seq<char>, Seq<u32>)| enc_produced_topic(t)) + be32(0)
}

/// What the checksum of a record covers: magic 1, attributes 0, timestamp 0,
/// the key and the value.
pub open spec fn record_body(r: RecordModel) -> Seq<u8> {
    seq![1u8, 0u8] + be64(0) + enc_nullable_bytes(r.1) + enc_bytes(r.2)
}

/// The number of key bytes of a record; none for a missing key.
pub open spec fn key_len(key: Option<Seq<u8>>) -> nat {
    match key {
        Some(k) => k.len(),
        None => 0,
    }
}

/// The size field of a record: the checksum and what it covers.
pub open spec fn record_size(r: RecordModel) -> u32 {
    len32(22 + key_len(r.1) + r.2.len())
}

/// One record: offset, size, checksum, then what the checksum covers.
pub open spec fn enc_record(r: RecordModel) -> Seq<u8> {
    be64(r.0) + be32(record_size(r)) + be32(crc32_ieee(record_body(r))) + record_body(r)
}

/// The records of one partition, back to back.
pub open spec fn enc_records(records: Seq<RecordModel>) -> Seq<u8> {
    enc_seq(records, |r: RecordModel| enc_record(r))
}

/// One topic of a fetch response: a single partition 0 with error 0 and high
/// watermark 0, then the length of its records and the records.
pub open spec fn enc_fetched_topic(t: (Seq<char>, Seq<RecordModel>)) -> Seq<u8> {
    enc_str(t.0) + be32(1) + be32(0) + be16(0) + be64(0) + be32(len32(enc_records(t.1).len()))
        + enc_records(t.1)
}

/// The body of a fetch response; it starts with throttle time 0.
pub open spec fn enc_fetch(responses: Seq<(Seq<char>, Seq<RecordModel>)>) -> Seq<u8> {
    be32(0) + enc_array(responses, |t: (Seq<char>, Seq<RecordModel>)| enc_fetched_topic(t))
}

/// The body of a find-coordinator response: error 0, node 0, the host, port 9092.
pub open spec fn enc_coordinator(hostname: Seq<char>) -> Seq<u8> {
    be16(0) + be32(0) + enc_str(hostname) + be32(9092)
}

/// The body of a join-group response: error 0, generation 0, the chosen
/// protocol or null, empty leader and member ids, and the chosen protocol as
/// the only member, if there is one.
pub open spec fn enc_join_group(protocol: Option<(Seq<char>, Option<Seq<u8>>)>) -> Seq<u8> {
    be16(0) + be32(0) + match protocol {
        Some(p) => enc_str(p.0),
        None => be16(0xffff),
    } + enc_str(Seq::<char>::empty()) + enc_str(Seq::<char>::empty()) + match protocol {
        Some(p) => be32(1) + enc_str(p.0) + enc_bytes_or_empty(p.1),
        None => be32(0),
    }
}

/// The body of a sync-group response: error 0 and the assignment.
pub open spec fn enc_sync_group(assignment: Option<Seq<u8>>) -> Seq<u8> {
    be16(0) + enc_bytes_or_empty(assignment)
}

/// One partition of an offset-fetch response: number, offset, null metadata, error 0.
pub open spec fn enc_committed_partition(p: (u32, i64)) -> Seq<u8> {
    be32(p.0) + be64(bits64(p.1)) + be16(0xffff) + be16(0)
}

/// One topic of an offset-fetch response.
pub open spec fn enc_committed_topic(t: (Seq<char>, Seq<(u32, i64)>)) -> Seq<u8> {
    enc_str(t.0) + enc_array(t.1, |p: (u32, i64)| enc_committed_partition(p))
}

/// The body of an offset-fetch response; it ends with error 0.
pub open spec fn enc_fetch_offsets(topics: Seq<(Seq<char>, Seq<(u32, i64)>)>) -> Seq<u8> {
    enc_array(topics, |t: (Seq<char>, Seq<(u32, i64)>)| enc_committed_topic(t)) + be16(0)
}

/// One partition of a list-offsets response: number, error 0, timestamp 0, offset.
pub open spec fn enc_listed_partition(p: (u32, i64)) -> Seq<u8> {
    be32(p.0) + be16(0) + be64(0) + be64(bits64(p.1))
}

/// One topic of a list-offsets response.
pub open spec fn enc_listed_topic(t: (Seq<char>, Seq<(u32, i64)>)) -> Seq<u8> {
    enc_str(t.0) + enc_array(t.1, |p: (u32, i64)| enc_listed_partition(p))
}

/// The body of a list-offsets response.
pub open spec fn enc_offsets(topics: Seq<(Seq<char>, Seq<(u32, i64)>)>) -> Seq<u8> {
    enc_array(topics, |t: (Seq<char>, Seq<(u32, i64)>)| enc_listed_topic(t))
}

/// One partition of an offset-commit response: number and error 0.
pub open spec fn enc_commit_partition(p: u32) -> Seq<u8> {
    be32(p) + be16(0)
}

/// One topic of an offset-commit response.
pub open spec fn enc_commit_topic(t: (Seq<char>, Seq<u32>)) -> Seq<u8> {
    enc_str(t.0) + enc_array(t.1, |p: u32| enc_commit_partition(p))
}

/// The body of an offset-commit response.
pub open spec fn enc_offset_commit(topics: Seq<(Seq<char>, Seq<u32>)>) -> Seq<u8> {
    enc_array(topics, |t: (Seq<char>, Seq<u32>)| enc_commit_topic(t))
}

/// The body of a heartbeat or leave-group response: error 0.
pub open spec fn enc_heartbeat() -> Seq<u8> {
    be16(0)
}

/// The body that answers a request the broker does not serve: error 55.
pub open spec fn enc_error() -> Seq<u8> {
    be16(55)
}

/// The API keys the broker advertises, each with the lowest and the highest
/// version it accepts; the entry at index `k` is that of key `k`.
pub open spec fn supported_versions() -> Seq<(u16, u16, u16)> {
    seq![
        (0u16, 0u16, 2u16),
        (1u16, 0u16, 3u16),
        (2u16, 0u16, 1u16),
        (3u16, 0u16, 2u16),
        (4u16, 0u16, 0u16),
        (5u16, 0u16, 0u16),
        (6u16, 0u16, 3u16),
        (7u16, 1u16, 1u16),
        (8u16, 0u16, 2u16),
        (9u16, 0u16, 2u16),
        (10u16, 0u16, 0u16),
        (11u16, 0u16, 1u16),
        (12u16, 0u16, 0u16),
        (13u16, 0u16, 0u16),
        (14u16, 0u16, 0u16),
        (15u16, 0u16, 0u16),
        (16u16, 0u16, 0u16),
        (17u16, 0u16, 0u16),
        (18u16, 0u16, 0u16),
        (19u16, 0u16, 1u16),
        (20u16, 0u16, 0u16),
    ]
}

/// One entry of the versions table.
pub open spec fn enc_version_entry(e: (u16, u16, u16)) -> Seq<u8> {
    be16(e.0) + be16(e.1) + be16(e.2)
}

/// The body of an api-versions response: error 0, then the table.
pub open spec fn enc_versions() -> Seq<u8> {
    be16(0) + enc_array(supported_versions(), |e: (u16, u16, u16)| enc_version_entry(e))
}

/// The body of a response. A metadata or produce response of a version other
/// than 2, and a fetch response of a version other than 2 or 3, has no layout
/// here and is answered with the error body.
pub open spec fn enc_body(r: ResponseModel) -> Seq<u8> {
    match r {
        ResponseModel::Versions => enc_versions(),
        ResponseModel::GroupCoordinator { hostname } => enc_coordinator(hostname),
        ResponseModel::JoinGroup { protocol } => enc_join_group(protocol),
        ResponseModel::Metadata { version, cluster } => if version == 2 {
            enc_cluster(cluster)
        } else {
            enc_error()
        },
        ResponseModel::Publish { version, responses } => if version == 2 {
            enc_publish(responses)
        } else {
            enc_error()
        },
        ResponseModel::Fetch { version, responses } => if version == 2 || version == 3 {
            enc_fetch(responses)
        } else {
            enc_error()
        },
        ResponseModel::SyncGroup { assignment } => enc_sync_group(assignment),
        ResponseModel::FetchOffsets { topics } => enc_fetch_offsets(topics),
        ResponseModel::Offsets { topics } => enc_offsets(topics),
        ResponseModel::OffsetCommit { topics } => enc_offset_commit(topics),
        ResponseModel::Heartbeat => enc_heartbeat(),
        ResponseModel::LeaveGroup => enc_heartbeat(),
        ResponseModel::Error => enc_error(),
    }
}

/// A framed response: the length of what follows it, the correlation id, the body.
pub open spec fn enc_response(correlation_id: i32, r: ResponseModel) -> Seq<u8> {
    be32(len32(enc_body(r).len() + 4)) + be32(bits32(correlation_id)) + enc_body(r)
}

/// The encoding of a sequence grows at its end, item by item.
pub proof fn lemma_enc_seq_step<T>(items: Seq<T>, f: spec_fn(T) -> Seq<u8>, i: int)
    requires
        0 <= i < items.len(),
    ensures
        enc_seq(items.take(i + 1), f) == enc_seq(items.take(i), f) + f(items[i]),
{
    assert(items.take(i + 1).drop_last() =~= items.take(i));
}

/// The length of a collection as a 16-bit length field holds it.
fn wire_len16(n: usize) -> (r: u16)
    ensures
        r == len16(n as nat),
{
    (n as u64 % 0x1_0000) as u16
}

/// The length of a collection as a 32-bit length field holds it.
fn wire_len32(n: usize) -> (r: u32)
    ensures
        r == len32(n as nat),
{
    (n as u64 % 0x1_0000_0000) as u32
}

fn put_u8(out: &mut BytesMut, v: u8)
    ensures
        contents(*final(out)) == contents(*old(out)) + seq![v],
{
    let b: [u8; 1] = [v];
    append(out, b.as_slice());
    assert(b@ =~= seq![v]);
}

fn put_u16(out: &mut BytesMut, v: u16)
    ensures
        contents(*final(out)) == contents(*old(out)) + be16(v),
{
    let b: [u8; 2] = [(v / 0x100) as u8, (v % 0x100) as u8];
    append(out, b.as_slice());
    proof {
        reveal(be16);
    }
    assert(b@ =~= be16(v));
}

fn put_u32(out: &mut BytesMut, v: u32)
    ensures
        contents(*final(out)) == contents(*old(out)) + be32(v),
{
    let b: [u8; 4] = [
        (v / 0x100_0000) as u8,
        (v / 0x1_0000 % 0x100) as u8,
        (v / 0x100 % 0x100) as u8,
        (v % 0x100) as u8,
    ];
    append(out, b.as_slice());
    proof {
        reveal(be32);
    }
    assert(b@ =~= be32(v));
}

fn put_u64(out: &mut BytesMut, v: u64)
    ensures
        contents(*final(out)) == contents(*old(out)) + be64(v),
{
    put_u32(out, (v / 0x1_0000_0000) as u32);
    put_u32(out, (v % 0x1_0000_0000) as u32);
    proof {
        reveal(be64);
    }
    assert(contents(*out) =~= contents(*old(out)) + be64(v));
}

fn put_i16(out: &mut BytesMut, v: i16)
    ensures
        contents(*final(out)) == contents(*old(out)) + be16(bits16(v)),
{
    put_u16(out, i16_bits(v));
}

fn put_i32(out: &mut BytesMut, v: i32)
    ensures
        contents(*final(out)) == contents(*old(out)) + be32(bits32(v)),
{
    put_u32(out, i32_bits(v));
}

fn put_i64(out: &mut BytesMut, v: i64)
    ensures
        contents(*final(out)) == contents(*old(out)) + be64(bits64(v)),
{
    put_u64(out, i64_bits(v));
}

fn put_slice(out: &mut BytesMut, bytes: &[u8])
    ensures
        contents(*final(out)) == contents(*old(out)) + bytes@,
{
    append(out, bytes);
}

fn string_to_bytes(msg: &str, out: &mut BytesMut)
    ensures
        contents(*final(out)) == contents(*old(out)) + enc_str(msg@),
{
    let b = msg.as_bytes();
    put_u16(out, wire_len16(b.len()));
    put_slice(out, b);
    assert(contents(*out) =~= contents(*old(out)) + enc_str(msg@));
}

fn opt_string_to_bytes(msg: &Option<String>, out: &mut BytesMut)
    ensures
        contents(*final(out)) == contents(*old(out)) + enc_opt_str(msg.deep_view()),
{
    match msg {
        Some(s) => string_to_bytes(s.as_str(), out),
        None => put_i16(out, -1),
    }
}

fn opt_vec_to_bytes(msg: &Option<Vec<u8>>, out: &mut BytesMut)
    ensures
        contents(*final(out)) == contents(*old(out)) + enc_bytes_or_empty(msg.deep_view()),
{
    match msg {
        None => put_u32(out, 0),
        Some(a) => {
            put_u32(out, wire_len32(a.len()));
            put_slice(out, a.as_slice());
            assert(a.deep_view() =~= a@);
            assert(contents(*out) =~= contents(*old(out)) + enc_bytes(a@));
        },
    }
}

/// The number of bytes of an optional byte array; none for a missing one.
pub fn opt_size(value: &Option<Vec<u8>>) -> (n: usize)
    ensures
        n == match *value {
            None => 0,
            Some(a) => a@.len(),
        },
{
    match value {
        None => 0,
        Some(a) => a.len(),
    }
}

fn u32s_to_bytes(items: &Vec<u32>, out: &mut BytesMut)
    ensures
        contents(*final(out)) == contents(*old(out)) + enc_u32s(items@),
{
    put_u32(out, wire_len32(items.len()));
    let ghost start = contents(*out);
    let mut i: usize = 0;
    while i < items.len()
        invariant
            i <= items.len(),
            contents(*out) == start + enc_seq(items@.take(i as int), |v: u32| be32(v)),
        decreases items.len() - i,
    {
        proof {
            lemma_enc_seq_step(items@, |v: u32| be32(v), i as int);
        }
        put_u32(out, items[i]);
        i += 1;
    }
    proof {
        assert(items@.take(items.len() as int) =~= items@);
    }
}

/// The lowest and the highest version the broker accepts of an API key.
fn version_range(api_key: u16) -> (range: (u16, u16))
    requires
        api_key < 21,
    ensures
        supported_versions()[api_key as int] == (api_key, range.0, range.1),
{
    match api_key {
        0 => (0, 2),
        1 => (0, 3),
        2 => (0, 1),
        3 => (0, 2),
        6 => (0, 3),
        7 => (1, 1),
        8 => (0, 2),
        9 => (0, 2),
        11 => (0, 1),
        19 => (0, 1),
        _ => (0, 0),
    }
}

fn versions_supported_call(out: &mut BytesMut, opcode: u16, min: u16, max: u16)
    ensures
        contents(*final(out)) == contents(*old(out)) + enc_version_entry((opcode, min, max)),
{
    put_u16(out, opcode);
    put_u16(out, min);
    put_u16(out, max);
    assert(contents(*out) =~= contents(*old(out)) + enc_version_entry((opcode, min, max)));
}

fn versions_to_bytes(out: &mut BytesMut)
    ensures
        contents(*final(out)) == contents(*old(out)) + enc_versions(),
{
    put_u16(out, 0);
    put_u32(out, 21);
    let ghost start = contents(*out);
    let mut key: u16 = 0;
    while key < 21
        invariant
            key <= 21,
            contents(*out) == start + enc_seq(
                supported_versions().take(key as int),
                |e: (u16, u16, u16)| enc_version_entry(e),
            ),
        decreases 21 - key,
    {
        proof {
            lemma_enc_seq_step(
                supported_versions(),
                |e: (u16, u16, u16)| enc_version_entry(e),
                key as int,
            );
        }
        let range = version_range(key);
        versions_supported_call(out, key, range.0, range.1);
        key += 1;
    }
    proof {
        assert(supported_versions().take(21) =~= supported_versions());
        assert(contents(*out) =~= contents(*old(out)) + enc_versions());
    }
}

fn error_to_bytes(out: &mut BytesMut)
    ensures
        contents(*final(out)) == contents(*old(out)) + enc_error(),
{
    put_u16(out, 55);
}

fn heartbeat_to_bytes(out: &mut BytesMut)
    ensures
        contents(*final(out)) == contents(*old(out)) + enc_heartbeat(),
{
    put_u16(out, 0);
}

fn coordinator_to_bytes(hostname: &str, out: &mut BytesMut)
    ensures
        contents(*final(out)) == contents(*old(out)) + enc_coordinator(hostname@),
{
    put_u16(out, 0);
    put_u32(out, 0);
    string_to_bytes(hostname, out);
    put_u32(out, 9092);
    assert(contents(*out) =~= contents(*old(out)) + enc_coordinator(hostname@));
}

#[verifier::rlimit(40)]
fn join_group_to_bytes(protocol: &Option<(String, Option<Vec<u8>>)>, out: &mut BytesMut)
    ensures
        contents(*final(out)) == contents(*old(out)) + enc_join_group(protocol.deep_view()),
{
    proof {
        reveal_strlit("");
    }
    put_u16(out, 0);
    put_u32(out, 0);
    match protocol {
        Some(p) => string_to_bytes(p.0.as_str(), out),
        None => put_i16(out, -1),
    }
    string_to_bytes("", out);
    string_to_bytes("", out);
    assert(""@ =~= Seq::<char>::empty());
    match protocol {
        Some(p) => {
            put_u32(out, 1);
            string_to_bytes(p.0.as_str(), out);
            opt_vec_to_bytes(&p.1, out);
        },
        None => put_u32(out, 0),
    }
    assert(contents(*out) =~= contents(*old(out)) + enc_join_group(protocol.deep_view()));
}

fn sync_group_to_bytes(assignment: &Option<Vec<u8>>, out: &mut BytesMut)
    ensures
        contents(*final(out)) == contents(*old(out)) + enc_sync_group(assignment.deep_view()),
{
    put_u16(out, 0);
    opt_vec_to_bytes(assignment, out);
    assert(contents(*out) =~= contents(*old(out)) + enc_sync_group(assignment.deep_view()));
}

/// A vector of plain integers says what it holds.
pub proof fn lemma_u32s_deep_view(v: Vec<u32>)
    ensures
        v.deep_view() == v@,
{
    assert(v.deep_view() =~= v@);
}

/// A vector of bytes says what it holds.
pub proof fn lemma_bytes_deep_view(v: Vec<u8>)
    ensures
        v.deep_view() == v@,
{
    assert(v.deep_view() =~= v@);
}

fn broker_to_bytes(b: &BrokerMetadata, out: &mut BytesMut)
    ensures
        contents(*final(out)) == contents(*old(out)) + enc_broker(b.deep_view()),
{
    put_u32(out, b.node_id);
    string_to_bytes(b.host.as_str(), out);
    put_u32(out, b.port);
    opt_string_to_bytes(&b.rack, out);
    assert(contents(*out) =~= contents(*old(out)) + enc_broker(b.deep_view()));
}

fn partition_to_bytes(p: &PartitionMetadata, out: &mut BytesMut)
    ensures
        contents(*final(out)) == contents(*old(out)) + enc_partition(p.deep_view()),
{
    put_u16(out, p.error_code);
    put_u32(out, p.id);
    put_u32(out, p.leader);
    u32s_to_bytes(&p.replicas, out);
    u32s_to_bytes(&p.isr, out);
    assert(contents(*out) =~= contents(*old(out)) + enc_partition(p.deep_view()));
}

fn partitions_to_bytes(partitions: &Vec<PartitionMetadata>, out: &mut BytesMut)
    ensures
        contents(*final(out)) == contents(*old(out)) + enc_array(
            partitions.deep_view(),
            |p: PartitionModel| enc_partition(p),
        ),
{
    put_u32(out, wire_len32(partitions.len()));
    let ghost start = contents(*out);
    let ghost parts = partitions.deep_view();
    let mut i: usize = 0;
    while i < partitions.len()
        invariant
            i <= partitions.len(),
            parts == partitions.deep_view(),
            contents(*out) == start + enc_seq(
                parts.take(i as int),
                |p: PartitionModel| enc_partition(p),
            ),
        decreases partitions.len() - i,
    {
        proof {
            lemma_enc_seq_step(parts, |p: PartitionModel| enc_partition(p), i as int);
        }
        partition_to_bytes(&partitions[i], out);
        i += 1;
    }
    proof {
        assert(parts.take(parts.len() as int) =~= parts);
    }
}

fn topic_to_bytes(t: &TopicMetadata, out: &mut BytesMut)
    ensures
        contents(*final(out)) == contents(*old(out)) + enc_topic(t.deep_view()),
{
    put_u16(out, t.error_code);
    string_to_bytes(t.name.as_str(), out);
    put_u8(out, t.is_internal);
    partitions_to_bytes(&t.partitions, out);
    assert(contents(*out) =~= contents(*old(out)) + enc_topic(t.deep_view()));
}

fn brokers_to_bytes(brokers: &Vec<BrokerMetadata>, out: &mut BytesMut)
    ensures
        contents(*final(out)) == contents(*old(out)) + enc_array(
            brokers.deep_view(),
            |b: BrokerModel| enc_broker(b),
        ),
{
    put_u32(out, wire_len32(brokers.len()));
    let ghost start = contents(*out);
    let ghost items = brokers.deep_view();
    let mut i: usize = 0;
    while i < brokers.len()
        invariant
            i <= brokers.len(),
            items == brokers.deep_view(),
            contents(*out) == start + enc_seq(items.take(i as int), |b: BrokerModel| enc_broker(b)),
        decreases brokers.len() - i,
    {
        proof {
            lemma_enc_seq_step(items, |b: BrokerModel| enc_broker(b), i as int);
        }
        broker_to_bytes(&brokers[i], out);
        i += 1;
    }
    proof {
        assert(items.take(items.len() as int) =~= items);
    }
}

fn topics_to_bytes(topics: &Vec<TopicMetadata>, out: &mut BytesMut)
    ensures
        contents(*final(out)) == contents(*old(out)) + enc_array(
            topics.deep_view(),
            |t: TopicModel| enc_topic(t),
        ),
{
    put_u32(out, wire_len32(topics.len()));
    let ghost start = contents(*out);
    let ghost items = topics.deep_view();
    let mut i: usize = 0;
    while i < topics.len()
        invariant
            i <= topics.len(),
            items == topics.deep_view(),
            contents(*out) == start + enc_seq(items.take(i as int), |t: TopicModel| enc_topic(t)),
        decreases topics.len() - i,
    {
        proof {
            lemma_enc_seq_step(items, |t: TopicModel| enc_topic(t), i as int);
        }
        topic_to_bytes(&topics[i], out);
        i += 1;
    }
    proof {
        assert(items.take(items.len() as int) =~= items);
    }
}

fn metadata_to_bytes(msg: &ClusterMetadata, out: &mut BytesMut)
    ensures
        contents(*final(out)) == contents(*old(out)) + enc_cluster(msg.deep_view()),
{
    brokers_to_bytes(&msg.brokers, out);
    string_to_bytes(msg.cluster_id.as_str(), out);
    put_u32(out, msg.controller_id);
    topics_to_bytes(&msg.topics, out);
    assert(contents(*out) =~= contents(*old(out)) + enc_cluster(msg.deep_view()));
}

fn produced_partition_to_bytes(partition: &u32, out: &mut BytesMut)
    ensures
        contents(*final(out)) == contents(*old(out)) + enc_produced_partition(*partition),
{
    put_u32(out, *partition);
    put_u16(out, 0);
    put_u64(out, 0);
    put_u64(out, 0);
    assert(contents(*out) =~= contents(*old(out)) + enc_produced_partition(*partition));
}

fn produced_partitions_to_bytes(items: &Vec<u32>, out: &mut BytesMut)
    ensures
        contents(*final(out)) == contents(*old(out)) + enc_array(
            items.deep_view(),
            |e: u32| enc_produced_partition(e),
        ),
{
    put_u32(out, wire_len32(items.len()));
    let ghost start = contents(*out);
    let ghost models = items.deep_view();
    let mut i: usize = 0;
    while i < items.len()
        invariant
            i <= items.len(),
            models == items.deep_view(),
            contents(*out) == start + enc_seq(
                models.take(i as int),
                |e: u32| enc_produced_partition(e),
            ),
        decreases items.len() - i,
    {
        proof {
            lemma_enc_seq_step(models, |e: u32| enc_produced_partition(e), i as int);
        }
        produced_partition_to_bytes(&items[i], out);
        i += 1;
    }
    proof {
        assert(models.take(models.len() as int) =~= models);
    }
}

fn produced_topic_to_bytes(topic: &(String, Vec<u32>), out: &mut BytesMut)
    ensures
        contents(*final(out)) == contents(*old(out)) + enc_produced_topic(topic.deep_view()),
{
    string_to_bytes(topic.0.as_str(), out);
    produced_partitions_to_bytes(&topic.1, out);
    assert(contents(*out) =~= contents(*old(out)) + enc_produced_topic(topic.deep_view()));
}

fn produced_topics_to_bytes(items: &Vec<(String, Vec<u32>)>, out: &mut BytesMut)
    ensures
        contents(*final(out)) == contents(*old(out)) + enc_array(
            items.deep_view(),
            |e: (Seq<char>, Seq<u32>)| enc_produced_topic(e),
        ),
{
    put_u32(out, wire_len32(items.len()));
    let ghost start = contents(*out);
    let ghost models = items.deep_view();
    let mut i: usize = 0;
    while i < items.len()
        invariant
            i <= items.len(),
            models == items.deep_view(),
            contents(*out) == start + enc_seq(
                models.take(i as int),
                |e: (Seq<char>, Seq<u32>)| enc_produced_topic(e),
            ),
        decreases items.len() - i,
    {
        proof {
            lemma_enc_seq_step(models, |e: (Seq<char>, Seq<u32>)| enc_produced_topic(e), i as int);
        }
        produced_topic_to_bytes(&items[i], out);
        i += 1;
    }
    proof {
        assert(models.take(models.len() as int) =~= models);
    }
}

fn publish_to_bytes(msg: &Vec<(String, Vec<u32>)>, out: &mut BytesMut)
    ensures
        contents(*final(out)) == contents(*old(out)) + enc_publish(msg.deep_view()),
{
    produced_topics_to_bytes(msg, out);
    put_u32(out, 0);
    assert(contents(*out) =~= contents(*old(out)) + enc_publish(msg.deep_view()));
}

fn committed_partition_to_bytes(p: &(u32, i64), out: &mut BytesMut)
    ensures
        contents(*final(out)) == contents(*old(out)) + enc_committed_partition(p.deep_view()),
{
    put_u32(out, p.0);
    put_i64(out, p.1);
    opt_string_to_bytes(&None, out);
    put_u16(out, 0);
    assert(contents(*out) =~= contents(*old(out)) + enc_committed_partition(p.deep_view()));
}

fn committed_partitions_to_bytes(items: &Vec<(u32, i64)>, out: &mut BytesMut)
    ensures
        contents(*final(out)) == contents(*old(out)) + enc_array(
            items.deep_view(),
            |e: (u32, i64)| enc_committed_partition(e),
        ),
{
    put_u32(out, wire_len32(items.len()));
    let ghost start = contents(*out);
    let ghost models = items.deep_view();
    let mut i: usize = 0;
    while i < items.len()
        invariant
            i <= items.len(),
            models == items.deep_view(),
            contents(*out) == start + enc_seq(
                models.take(i as int),
                |e: (u32, i64)| enc_committed_partition(e),
            ),
        decreases items.len() - i,
    {
        proof {
            lemma_enc_seq_step(models, |e: (u32, i64)| enc_committed_partition(e), i as int);
        }
        committed_partition_to_bytes(&items[i], out);
        i += 1;
    }
    proof {
        assert(models.take(models.len() as int) =~= models);
    }
}

fn committed_topic_to_bytes(topic: &(String, Vec<(u32, i64)>), out: &mut BytesMut)
    ensures
        contents(*final(out)) == contents(*old(out)) + enc_committed_topic(topic.deep_view()),
{
    string_to_bytes(topic.0.as_str(), out);
    committed_partitions_to_bytes(&topic.1, out);
    assert(contents(*out) =~= contents(*old(out)) + enc_committed_topic(topic.deep_view()));
}

fn committed_topics_to_bytes(items: &Vec<(String, Vec<(u32, i64)>)>, out: &mut BytesMut)
    ensures
        contents(*final(out)) == contents(*old(out)) + enc_array(
            items.deep_view(),
            |e: (Seq<char>, Seq<(u32, i64)>)| enc_committed_topic(e),
        ),
{
    put_u32(out, wire_len32(items.len()));
    let ghost start = contents(*out);
    let ghost models = items.deep_view();
    let mut i: usize = 0;
    while i < items.len()
        invariant
            i <= items.len(),
            models == items.deep_view(),
            contents(*out) == start + enc_seq(
                models.take(i as int),
                |e: (Seq<char>, Seq<(u32, i64)>)| enc_committed_topic(e),
            ),
        decreases items.len() - i,
    {
        proof {
            lemma_enc_seq_step(
                models,
                |e: (Seq<char>, Seq<(u32, i64)>)| enc_committed_topic(e),
                i as int,
            );
        }
        committed_topic_to_bytes(&items[i], out);
        i += 1;
    }
    proof {
        assert(models.take(models.len() as int) =~= models);
    }
}

fn fetch_offsets_to_bytes(topics: &Vec<(String, Vec<(u32, i64)>)>, out: &mut BytesMut)
    ensures
        contents(*final(out)) == contents(*old(out)) + enc_fetch_offsets(topics.deep_view()),
{
    committed_topics_to_bytes(topics, out);
    put_u16(out, 0);
    assert(contents(*out) =~= contents(*old(out)) + enc_fetch_offsets(topics.deep_view()));
}

fn listed_partition_to_bytes(p: &(u32, i64), out: &mut BytesMut)
    ensures
        contents(*final(out)) == contents(*old(out)) + enc_listed_partition(p.deep_view()),
{
    put_u32(out, p.0);
    put_u16(out, 0);
    put_u64(out, 0);
    put_i64(out, p.1);
    assert(contents(*out) =~= contents(*old(out)) + enc_listed_partition(p.deep_view()));
}

fn listed_partitions_to_bytes(items: &Vec<(u32, i64)>, out: &mut BytesMut)
    ensures
        contents(*final(out)) == contents(*old(out)) + enc_array(
            items.deep_view(),
            |e: (u32, i64)| enc_listed_partition(e),
        ),
{
    put_u32(out, wire_len32(items.len()));
    let ghost start = contents(*out);
    let ghost models = items.deep_view();
    let mut i: usize = 0;
    while i < items.len()
        invariant
            i <= items.len(),
            models == items.deep_view(),
            contents(*out) == start + enc_seq(
                models.take(i as int),
                |e: (u32, i64)| enc_listed_partition(e),
            ),
        decreases items.len() - i,
    {
        proof {
            lemma_enc_seq_step(models, |e: (u32, i64)| enc_listed_partition(e), i as int);
        }
        listed_partition_to_bytes(&items[i], out);
        i += 1;
    }
    proof {
        assert(models.take(models.len() as int) =~= models);
    }
}

fn listed_topic_to_bytes(topic: &(String, Vec<(u32, i64)>), out: &mut BytesMut)
    ensures
        contents(*final(out)) == contents(*old(out)) + enc_listed_topic(topic.deep_view()),
{
    string_to_bytes(topic.0.as_str(), out);
    listed_partitions_to_bytes(&topic.1, out);
    assert(contents(*out) =~= contents(*old(out)) + enc_listed_topic(topic.deep_view()));
}

fn offsets_to_bytes(topics: &Vec<(String, Vec<(u32, i64)>)>, out: &mut BytesMut)
    ensures
        contents(*final(out)) == contents(*old(out)) + enc_offsets(topics.deep_view()),
{
    put_u32(out, wire_len32(topics.len()));
    let ghost start = contents(*out);
    let ghost models = topics.deep_view();
    let mut i: usize = 0;
    while i < topics.len()
        invariant
            i <= topics.len(),
            models == topics.deep_view(),
            contents(*out) == start + enc_seq(
                models.take(i as int),
                |t: (Seq<char>, Seq<(u32, i64)>)| enc_listed_topic(t),
            ),
        decreases topics.len() - i,
    {
        proof {
            lemma_enc_seq_step(
                models,
                |t: (Seq<char>, Seq<(u32, i64)>)| enc_listed_topic(t),
                i as int,
            );
        }
        listed_topic_to_bytes(&topics[i], out);
        i += 1;
    }
    proof {
        assert(models.take(models.len() as int) =~= models);
    }
}

fn commit_partition_to_bytes(partition: &u32, out: &mut BytesMut)
    ensures
        contents(*final(out)) == contents(*old(out)) + enc_commit_partition(*partition),
{
    put_u32(out, *partition);
    put_u16(out, 0);
    assert(contents(*out) =~= contents(*old(out)) + enc_commit_partition(*partition));
}

fn commit_partitions_to_bytes(items: &Vec<u32>, out: &mut BytesMut)
    ensures
        contents(*final(out)) == contents(*old(out)) + enc_array(
            items.deep_view(),
            |e: u32| enc_commit_partition(e),
        ),
{
    put_u32(out, wire_len32(items.len()));
    let ghost start = contents(*out);
    let ghost models = items.deep_view();
    let mut i: usize = 0;
    while i < items.len()
        invariant
            i <= items.len(),
            models == items.deep_view(),
            contents(*out) == start + enc_seq(
                models.take(i as int),
                |e: u32| enc_commit_partition(e),
            ),
        decreases items.len() - i,
    {
        proof {
            lemma_enc_seq_step(models, |e: u32| enc_commit_partition(e), i as int);
        }
        commit_partition_to_bytes(&items[i], out);
        i += 1;
    }
    proof {
        assert(models.take(models.len() as int) =~= models);
    }
}

fn commit_topic_to_bytes(topic: &TopicWithPartitions, out: &mut BytesMut)
    ensures
        contents(*final(out)) == contents(*old(out)) + enc_commit_topic(topic.deep_view()),
{
    string_to_bytes(topic.name.as_str(), out);
    commit_partitions_to_bytes(&topic.partitions, out);
    proof {
        lemma_u32s_deep_view(topic.partitions);
    }
    assert(contents(*out) =~= contents(*old(out)) + enc_commit_topic(topic.deep_view()));
}

fn offset_commit_to_bytes(topics: &Vec<TopicWithPartitions>, out: &mut BytesMut)
    ensures
        contents(*final(out)) == contents(*old(out)) + enc_offset_commit(topics.deep_view()),
{
    put_u32(out, wire_len32(topics.len()));
    let ghost start = contents(*out);
    let ghost models = topics.deep_view();
    let mut i: usize = 0;
    while i < topics.len()
        invariant
            i <= topics.len(),
            models == topics.deep_view(),
            contents(*out) == start + enc_seq(
                models.take(i as int),
                |t: (Seq<char>, Seq<u32>)| enc_commit_topic(t),
            ),
        decreases topics.len() - i,
    {
        proof {
            lemma_enc_seq_step(models, |t: (Seq<char>, Seq<u32>)| enc_commit_topic(t), i as int);
        }
        commit_topic_to_bytes(&topics[i], out);
        i += 1;
    }
    proof {
        assert(models.take(models.len() as int) =~= models);
    }
}

fn nullable_bytes_to_bytes(msg: &Option<Vec<u8>>, out: &mut BytesMut)
    ensures
        contents(*final(out)) == contents(*old(out)) + enc_nullable_bytes(msg.deep_view()),
{
    match msg {
        None => put_u32(out, 0xffff_ffff),
        Some(a) => {
            put_u32(out, wire_len32(a.len()));
            put_slice(out, a.as_slice());
            proof {
                lemma_bytes_deep_view(*a);
            }
            assert(contents(*out) =~= contents(*old(out)) + enc_bytes(a@));
        },
    }
}

/// The size field of a record with a key of `key_len` bytes and a value of
/// `value_len` bytes.
#[verifier::rlimit(40)]
fn wire_record_size(key_len: usize, value_len: usize) -> (size: u32)
    ensures
        size == len32((22 + key_len + value_len) as nat),
{
    let k: u64 = key_len as u64 % 0x1_0000_0000;
    let v: u64 = value_len as u64 % 0x1_0000_0000;
    proof {
        let m: int = 0x1_0000_0000;
        let qk: int = key_len as int / m;
        let qv: int = value_len as int / m;
        assert(key_len as int == m * qk + k);
        assert(value_len as int == m * qv + v);
        assert(22 + key_len + value_len == m * (qk + qv) + (22 + k + v));
        vstd::arithmetic::div_mod::lemma_mod_multiples_vanish(qk + qv, 22 + k + v, m);
    }
    ((22 + k + v) % 0x1_0000_0000) as u32
}

#[verifier::rlimit(40)]
fn record_to_bytes(r: &(u64, Option<Vec<u8>>, Vec<u8>), out: &mut BytesMut)
    ensures
        contents(*final(out)) == contents(*old(out)) + enc_record(r.deep_view()),
{
    proof {
        lemma_bytes_deep_view(r.2);
        if r.1 is Some {
            lemma_bytes_deep_view(r.1->0);
        }
    }
    put_u64(out, r.0);
    put_u32(out, wire_record_size(opt_size(&r.1), r.2.len()));
    let mut buf = new_buffer();
    put_u8(&mut buf, 0x01);
    put_u8(&mut buf, 0x00);
    put_u64(&mut buf, 0);
    nullable_bytes_to_bytes(&r.1, &mut buf);
    put_u32(&mut buf, wire_len32(r.2.len()));
    put_slice(&mut buf, r.2.as_slice());
    assert(contents(buf) =~= record_body(r.deep_view()));
    put_u32(out, checksum_ieee(buffer_bytes(&buf)));
    put_slice(out, buffer_bytes(&buf));
    assert(contents(*out) =~= contents(*old(out)) + enc_record(r.deep_view()));
}

fn records_to_bytes(records: &Vec<(u64, Option<Vec<u8>>, Vec<u8>)>, out: &mut BytesMut)
    ensures
        contents(*final(out)) == contents(*old(out)) + enc_records(records.deep_view()),
{
    let ghost start = contents(*out);
    let ghost models = records.deep_view();
    let mut i: usize = 0;
    proof {
        assert(contents(*out) =~= start + Seq::<u8>::empty());
        assert(models.take(0) =~= Seq::<RecordModel>::empty());
    }
    while i < records.len()
        invariant
            i <= records.len(),
            models == records.deep_view(),
            contents(*out) == start + enc_seq(
                models.take(i as int),
                |r: RecordModel| enc_record(r),
            ),
        decreases records.len() - i,
    {
        proof {
            lemma_enc_seq_step(models, |r: RecordModel| enc_record(r), i as int);
        }
        record_to_bytes(&records[i], out);
        i += 1;
    }
    proof {
        assert(models.take(models.len() as int) =~= models);
    }
}

fn fetched_topic_to_bytes(
    topic: &(String, Vec<(u64, Option<Vec<u8>>, Vec<u8>)>),
    out: &mut BytesMut,
)
    ensures
        contents(*final(out)) == contents(*old(out)) + enc_fetched_topic(topic.deep_view()),
{
    string_to_bytes(topic.0.as_str(), out);
    put_u32(out, 1);
    put_u32(out, 0);
    put_u16(out, 0);
    put_u64(out, 0);
    let mut buf = new_buffer();
    records_to_bytes(&topic.1, &mut buf);
    assert(contents(buf) =~= enc_records(topic.1.deep_view()));
    put_u32(out, wire_len32(buffer_len(&buf)));
    put_slice(out, buffer_bytes(&buf));
    assert(contents(*out) =~= contents(*old(out)) + enc_fetched_topic(topic.deep_view()));
}

fn fetch_to_bytes(msg: &Vec<(String, Vec<(u64, Option<Vec<u8>>, Vec<u8>)>)>, out: &mut BytesMut)
    ensures
        contents(*final(out)) == contents(*old(out)) + enc_fetch(msg.deep_view()),
{
    put_u32(out, 0);
    put_u32(out, wire_len32(msg.len()));
    let ghost start = contents(*out);
    let ghost models = msg.deep_view();
    let mut i: usize = 0;
    while i < msg.len()
        invariant
            i <= msg.len(),
            models == msg.deep_view(),
            contents(*out) == start + enc_seq(
                models.take(i as int),
                |t: (Seq<char>, Seq<RecordModel>)| enc_fetched_topic(t),
            ),
        decreases msg.len() - i,
    {
        proof {
            lemma_enc_seq_step(
                models,
                |t: (Seq<char>, Seq<RecordModel>)| enc_fetched_topic(t),
                i as int,
            );
        }
        fetched_topic_to_bytes(&msg[i], out);
        i += 1;
    }
    proof {
        assert(models.take(models.len() as int) =~= models);
        assert(contents(*out) =~= contents(*old(out)) + enc_fetch(msg.deep_view()));
    }
}

/// The length field of a response with a body of `body_len` bytes.
#[verifier::rlimit(40)]
fn wire_frame_len(body_len: usize) -> (n: u32)
    ensures
        n == len32((body_len + 4) as nat),
{
    let b: u64 = body_len as u64 % 0x1_0000_0000;
    proof {
        let m: int = 0x1_0000_0000;
        let q: int = body_len as int / m;
        assert(body_len as int == m * q + b);
        assert(body_len + 4 == m * q + (b + 4));
        vstd::arithmetic::div_mod::lemma_mod_multiples_vanish(q, b + 4, m);
    }
    ((b + 4) % 0x1_0000_0000) as u32
}

fn body_to_bytes(req: &ApiResponse, out: &mut BytesMut)
    ensures
        contents(*final(out)) == contents(*old(out)) + enc_body(req.deep_view()),
{
    match req {
        ApiResponse::VersionsResponse => versions_to_bytes(out),
        ApiResponse::GroupCoordinatorResponse { hostname } => coordinator_to_bytes(
            hostname.as_str(),
            out,
        ),
        ApiResponse::JoinGroupResponse { protocol } => join_group_to_bytes(protocol, out),
        ApiResponse::MetadataResponse { version, cluster } => {
            if *version == 2 {
                metadata_to_bytes(cluster, out)
            } else {
                error_to_bytes(out)
            }
        },
        ApiResponse::PublishResponse { version, responses } => {
            if *version == 2 {
                publish_to_bytes(responses, out)
            } else {
                error_to_bytes(out)
            }
        },
        ApiResponse::FetchResponse { version, responses } => {
            if *version == 2 || *version == 3 {
                fetch_to_bytes(responses, out)
            } else {
                error_to_bytes(out)
            }
        },
        ApiResponse::SyncGroupResponse { assignment } => sync_group_to_bytes(assignment, out),
        ApiResponse::FetchOffsetsResponse { topics } => fetch_offsets_to_bytes(topics, out),
        ApiResponse::OffsetsResponse { topics } => offsets_to_bytes(topics, out),
        ApiResponse::OffsetCommitResponse { topics } => offset_commit_to_bytes(topics, out),
        ApiResponse::HeartbeatResponse => heartbeat_to_bytes(out),
        ApiResponse::LeaveGroupResponse => heartbeat_to_bytes(out),
        ApiResponse::ErrorResponse => error_to_bytes(out),
    }
}

/// Appends the framed response to `out`: the length of what follows, the
/// correlation id, the body. The `length` of the header is not read: the
/// length written is that of the body as encoded, plus four.
pub fn to_bytes(msg: &KafkaResponse, out: &mut BytesMut)
    ensures
        contents(*final(out)) == contents(*old(out)) + enc_response(
            msg.header.correlation_id,
            msg.req.deep_view(),
        ),
{
    let mut buf = new_buffer();
    body_to_bytes(&msg.req, &mut buf);
    assert(contents(buf) =~= enc_body(msg.req.deep_view()));
    put_u32(out, wire_frame_len(buffer_len(&buf)));
    put_i32(out, msg.header.correlation_id);
    put_slice(out, buffer_bytes(&buf));
    assert(contents(*out) =~= contents(*old(out)) + enc_response(
        msg.header.correlation_id,
        msg.req.deep_view(),
    ));
}

impl KafkaResponseHeader {
    /// The header of a response to the request with this correlation id. Its
    /// length is left at 0: it is known only once the body is encoded.
    pub fn new(correlation_id: i32) -> (header: KafkaResponseHeader)
        ensures
            header.length == 0,
            header.correlation_id == correlation_id,
    {
        KafkaResponseHeader { length: 0, correlation_id: correlation_id }
    }
}

/// Whether none of the topics of a fetch response has a record.
pub open spec fn without_records(responses: Seq<(Seq<char>, Seq<RecordModel>)>) -> bool {
    forall|i: int| 0 <= i < responses.len() ==> (#[trigger] responses[i]).1.len() == 0
}

/// Whether a response is a fetch response that carries no record at all.
pub open spec fn carries_no_records(r: ResponseModel) -> bool {
    match r {
        ResponseModel::Fetch { version, responses } => without_records(responses),
        _ => false,
    }
}

/// Whether no topic of a fetch response has a record.
fn no_records(responses: &Vec<(String, Vec<(u64, Option<Vec<u8>>, Vec<u8>)>)>) -> (none: bool)
    ensures
        none == without_records(responses.deep_view()),
{
    let ghost models = responses.deep_view();
    let mut i: usize = 0;
    while i < responses.len()
        invariant
            i <= responses.len(),
            models == responses.deep_view(),
            forall|k: int| 0 <= k < i ==> (#[trigger] models[k]).1.len() == 0,
        decreases responses.len() - i,
    {
        if responses[i].1.len() != 0 {
            assert(models[i as int].1.len() != 0);
            return false;
        }
        i += 1;
    }
    true
}

impl KafkaResponse {
    /// Whether this is a fetch response without a single record in any topic.
    pub fn is_empty(&self) -> (empty: bool)
        ensures
            empty == carries_no_records(self.req.deep_view()),
    {
        match &self.req {
            ApiResponse::FetchResponse { responses, .. } => no_records(responses),
            _ => false,
        }
    }
}

/// The one partition every topic is reported with: partition 0, led by broker
/// 0, replicated on broker 0 alone, without error.
pub open spec fn healthy_partition() -> PartitionModel {
    PartitionModel { error_code: 0, id: 0, leader: 0, replicas: seq![0u32], isr: seq![0u32] }
}

/// A topic reported as healthy: no error, not internal, one healthy partition.
pub open spec fn healthy_topic(name: Seq<char>) -> TopicModel {
    TopicModel { error_code: 0, name: name, is_internal: 0, partitions: seq![healthy_partition()] }
}

/// The single-broker cluster the broker presents itself as: broker 0 on the
/// advertised host and port 9092 without a rack, itself the controller, and
/// every requested topic healthy.
pub open spec fn healthy_cluster(topics: Seq<Seq<char>>, hostname: Seq<char>) -> ClusterModel {
    ClusterModel {
        brokers: seq![BrokerModel { node_id: 0, host: hostname, port: 9092, rack: None }],
        cluster_id: "UncleK"@,
        controller_id: 0,
        topics: Seq::new(topics.len(), |i: int| healthy_topic(topics[i])),
    }
}

impl TopicMetadata {
    /// The metadata of a topic of this name in good health.
    pub fn healthy(name: &String) -> (topic: TopicMetadata)
        ensures
            topic.deep_view() == healthy_topic(name@),
    {
        let partition = PartitionMetadata {
            error_code: 0,
            id: 0,
            leader: 0,
            replicas: vec![0],
            isr: vec![0],
        };
        assert(partition.replicas@ =~= seq![0u32]);
        assert(partition.isr@ =~= seq![0u32]);
        assert(partition.deep_view() == healthy_partition());
        let topic = TopicMetadata {
            error_code: 0,
            name: name.clone(),
            is_internal: 0,
            partitions: vec![partition],
        };
        assert(topic.partitions@ =~= seq![partition]);
        assert(topic.partitions.deep_view() =~= seq![healthy_partition()]);
        topic
    }
}

impl ApiResponse {
    /// The metadata response that reports every requested topic as healthy,
    /// whether or not the broker stores it.
    pub fn metadata_healthy(version: i16, topics: &Vec<String>, hostname: &String) -> (response:
        ApiResponse)
        ensures
            response.deep_view() == (ResponseModel::Metadata {
                version: version,
                cluster: healthy_cluster(topics.deep_view(), hostname@),
            }),
    {
        let broker = BrokerMetadata { node_id: 0, host: hostname.clone(), port: 9092, rack: None };
        let mut reported: Vec<TopicMetadata> = Vec::new();
        let mut i: usize = 0;
        while i < topics.len()
            invariant
                i <= topics.len(),
                reported.len() == i,
                forall|k: int| 0 <= k < i ==> (#[trigger] reported[k]).deep_view() == healthy_topic(
                    topics[k]@,
                ),
            decreases topics.len() - i,
        {
            reported.push(TopicMetadata::healthy(&topics[i]));
            i += 1;
        }
        let cluster = ClusterMetadata {
            brokers: vec![broker],
            cluster_id: "UncleK".to_owned(),
            controller_id: 0,
            topics: reported,
        };
        assert(cluster.brokers.deep_view() =~= seq![
            BrokerModel { node_id: 0, host: hostname@, port: 9092, rack: None },
        ]);
        assert(cluster.topics.deep_view() =~= Seq::new(
            topics.deep_view().len(),
            |i: int| healthy_topic(topics.deep_view()[i]),
        ));
        ApiResponse::MetadataResponse { version: version, cluster: cluster }
    }
}

/// The length field of a framed response counts exactly the bytes that follow
/// it, as long as that count fits the field.
pub proof fn lemma_frame_length(correlation_id: i32, r: ResponseModel)
    requires
        enc_body(r).len() + 4 <= u32::MAX,
    ensures
        crate::wire::from_be32(enc_response(correlation_id, r)) == enc_response(
            correlation_id,
            r,
        ).len() - 4,
{
    let n = len32(enc_body(r).len() + 4);
    crate::wire::lemma_be_len(0, bits32(correlation_id), 0);
    crate::wire::lemma_be32_round_trip(n, be32(bits32(correlation_id)) + enc_body(r));
    assert(enc_response(correlation_id, r) =~= be32(n) + (be32(bits32(correlation_id)) + enc_body(
        r,
    )));
}

/// In an encoded record the four bytes behind the offset and the size are the
/// checksum of all that follows them, and what follows starts with the magic
/// byte 1 and ends with the value.
pub proof fn lemma_record_checksum(r: RecordModel)
    ensures
        enc_record(r).len() >= 16,
        enc_record(r).subrange(12, 16) == be32(crc32_ieee(enc_record(r).skip(16))),
        enc_record(r).skip(16) == record_body(r),
        record_body(r)[0] == 1,
        record_body(r).skip(record_body(r).len() - r.2.len()) == r.2,
{
    let body = record_body(r);
    crate::wire::lemma_be_len(0, record_size(r), r.0);
    crate::wire::lemma_be_len(0, crc32_ieee(body), 0);
    let head = be64(r.0) + be32(record_size(r)) + be32(crc32_ieee(body));
    assert(enc_record(r) =~= head + body);
    assert(enc_record(r).skip(16) =~= body);
    assert(enc_record(r).subrange(12, 16) =~= be32(crc32_ieee(body)));
    let front = seq![1u8, 0u8] + be64(0) + enc_nullable_bytes(r.1) + be32(len32(r.2.len()));
    assert(body =~= front + r.2);
    assert(body.skip(body.len() - r.2.len()) =~= r.2);
}

} // verus!
