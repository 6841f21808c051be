//! The handlers: what the broker answers to each kind of request, and what
//! the request does to the topic store.
//!
//! A handler is a function of the request, the store, the advertised host
//! name and the topic configuration. A store that cannot do what a handler
//! asks makes the handler fail; the caller treats that as fatal.

use crate::parser::{
    ApiRequest, KafkaMessage, KafkaMessageSet, KafkaRequest, KafkaRequestHeader, MessageModel,
    MessageSetModel, RequestModel, TopicWithPartitions,
};
use crate::settings::{compacted_in, is_compacted, Settings, Topic, TopicConfig};
use crate::store::{
    all_in_order, append_outcome, appended, copy_bytes, copy_opt_bytes, ensured, expire_outcome,
    has_room, has_topic, holds_key, in_order, key_at_most_once, lemma_append_then_scan,
    lemma_compacted_upsert, lemma_index_of_bounds, lemma_with_records, next_offset_of,
    next_offset_outcome, records_of, scan_outcome, scanned, upserts, with_records, Connection,
    LogModel, Record, StoreError, Stored,
};
use crate::writer::{
    healthy_cluster, ApiResponse, KafkaResponse, KafkaResponseHeader, RecordModel, ResponseModel,
};
use vstd::prelude::*;

verus! {

/// What the handlers work with: the store, the topics as configured, and the
/// host name the broker advertises.
#[derive(Debug)]
pub struct PgState {
    pub pool: Connection,
    pub topics: Vec<Topic>,
    pub hostname: String,
}

impl PgState {
    /// Whether the store is well formed.
    pub open spec fn wf(&self) -> bool {
        self.pool.wf()
    }
}

/// Whether a response answers the request with the given correlation id with
/// the given body. The length of its header is 0: it is set when the response
/// is encoded.
pub open spec fn answers(r: KafkaResponse, correlation_id: i32, body: ResponseModel) -> bool {
    &&& r.header.correlation_id == correlation_id
    &&& r.header.length == 0
    &&& r.req.deep_view() == body
}

pub fn handle_versions(req: &KafkaRequest) -> (r: KafkaResponse)
    ensures
        answers(r, req.header.correlation_id, ResponseModel::Versions),
{
    KafkaResponse {
        header: KafkaResponseHeader::new(req.header.correlation_id),
        req: ApiResponse::VersionsResponse,
    }
}

pub fn handle_unknown(req: &KafkaRequest) -> (r: KafkaResponse)
    ensures
        answers(r, req.header.correlation_id, ResponseModel::Error),
{
    KafkaResponse {
        header: KafkaResponseHeader::new(req.header.correlation_id),
        req: ApiResponse::ErrorResponse,
    }
}

pub fn handle_heartbeat(req: &KafkaRequest) -> (r: KafkaResponse)
    ensures
        answers(r, req.header.correlation_id, ResponseModel::Heartbeat),
{
    KafkaResponse {
        header: KafkaResponseHeader::new(req.header.correlation_id),
        req: ApiResponse::HeartbeatResponse,
    }
}

pub fn handle_leave_group(req: &KafkaRequest) -> (r: KafkaResponse)
    ensures
        answers(r, req.header.correlation_id, ResponseModel::LeaveGroup),
{
    KafkaResponse {
        header: KafkaResponseHeader::new(req.header.correlation_id),
        req: ApiResponse::LeaveGroupResponse,
    }
}

fn handle_metadata(header: &KafkaRequestHeader, topics: &Vec<String>, db: &PgState) -> (r:
    KafkaResponse)
    ensures
        answers(
            r,
            header.correlation_id,
            ResponseModel::Metadata {
                version: header.version,
                cluster: healthy_cluster(topics.deep_view(), db.hostname@),
            },
        ),
{
    KafkaResponse {
        header: KafkaResponseHeader::new(header.correlation_id),
        req: ApiResponse::metadata_healthy(header.version, topics, &db.hostname),
    }
}

fn handle_find_coordinator(req: &KafkaRequest, db: &PgState) -> (r: KafkaResponse)
    ensures
        answers(
            r,
            req.header.correlation_id,
            ResponseModel::GroupCoordinator { hostname: db.hostname@ },
        ),
{
    KafkaResponse {
        header: KafkaResponseHeader::new(req.header.correlation_id),
        req: ApiResponse::GroupCoordinatorResponse { hostname: db.hostname.clone() },
    }
}

/// The first item of a sequence, if it has one.
pub open spec fn first_of<T>(items: Seq<T>) -> Option<T> {
    if items.len() == 0 {
        None
    } else {
        Some(items[0])
    }
}

/// The protocol the broker picks for a group: the first one offered.
pub fn handle_join_group(
    header: &KafkaRequestHeader,
    protocols: &Vec<(String, Option<Vec<u8>>)>,
) -> (r: KafkaResponse)
    ensures
        answers(
            r,
            header.correlation_id,
            ResponseModel::JoinGroup { protocol: first_of(protocols.deep_view()) },
        ),
{
    let selected = if protocols.len() == 0 {
        None
    } else {
        Some((protocols[0].0.clone(), copy_opt_bytes(&protocols[0].1)))
    };
    KafkaResponse {
        header: KafkaResponseHeader::new(header.correlation_id),
        req: ApiResponse::JoinGroupResponse { protocol: selected },
    }
}

/// The assignment the broker hands back: the first one sent, if any.
pub open spec fn first_assignment(assignments: Seq<Option<Seq<u8>>>) -> Option<Seq<u8>> {
    if assignments.len() == 0 {
        None
    } else {
        assignments[0]
    }
}

pub fn handle_sync_group(header: &KafkaRequestHeader, assignments: &Vec<Option<Vec<u8>>>) -> (r:
    KafkaResponse)
    ensures
        answers(
            r,
            header.correlation_id,
            ResponseModel::SyncGroup { assignment: first_assignment(assignments.deep_view()) },
        ),
{
    let selected = if assignments.len() == 0 {
        None
    } else {
        copy_opt_bytes(&assignments[0])
    };
    KafkaResponse {
        header: KafkaResponseHeader::new(header.correlation_id),
        req: ApiResponse::SyncGroupResponse { assignment: selected },
    }
}

/// Each partition with the offset -1, which says that the group has
/// committed none.
pub open spec fn uncommitted_partitions(partitions: Seq<u32>) -> Seq<(u32, i64)> {
    Seq::new(partitions.len(), |k: int| (partitions[k], -1i64))
}

/// Each topic with its partitions, none of which has a committed offset.
pub open spec fn uncommitted(topics: Seq<(Seq<char>, Seq<u32>)>) -> Seq<
    (Seq<char>, Seq<(u32, i64)>),
> {
    Seq::new(topics.len(), |i: int| (topics[i].0, uncommitted_partitions(topics[i].1)))
}

fn without_offsets(partitions: &Vec<u32>) -> (r: Vec<(u32, i64)>)
    ensures
        r.deep_view() == uncommitted_partitions(partitions@),
{
    let mut out: Vec<(u32, i64)> = Vec::new();
    let mut k: usize = 0;
    while k < partitions.len()
        invariant
            k <= partitions.len(),
            out.len() == k,
            forall|j: int| 0 <= j < k ==> (#[trigger] out@[j]) == (partitions@[j], -1i64),
        decreases partitions.len() - k,
    {
        out.push((partitions[k], -1));
        k += 1;
    }
    assert(out.deep_view() =~= uncommitted_partitions(partitions@));
    out
}

pub fn handle_fetch_offsets(header: &KafkaRequestHeader, topics: &Vec<TopicWithPartitions>) -> (r:
    KafkaResponse)
    ensures
        answers(
            r,
            header.correlation_id,
            ResponseModel::FetchOffsets { topics: uncommitted(topics.deep_view()) },
        ),
{
    let mut responses: Vec<(String, Vec<(u32, i64)>)> = Vec::new();
    let mut i: usize = 0;
    while i < topics.len()
        invariant
            i <= topics.len(),
            responses.len() == i,
            forall|j: int|
                0 <= j < i ==> (#[trigger] responses@[j]).deep_view() == (
                    topics@[j].name@,
                    uncommitted_partitions(topics@[j].partitions@),
                ),
        decreases topics.len() - i,
    {
        let partition_responses = without_offsets(&topics[i].partitions);
        responses.push((topics[i].name.clone(), partition_responses));
        i += 1;
    }
    assert(responses.deep_view() =~= uncommitted(topics.deep_view()));
    KafkaResponse {
        header: KafkaResponseHeader::new(header.correlation_id),
        req: ApiResponse::FetchOffsetsResponse { topics: responses },
    }
}

/// A copy of a list of partition numbers.
fn copy_partitions(partitions: &Vec<u32>) -> (copy: Vec<u32>)
    ensures
        copy@ == partitions@,
{
    let mut out: Vec<u32> = Vec::new();
    let mut k: usize = 0;
    while k < partitions.len()
        invariant
            k <= partitions.len(),
            out@ == partitions@.take(k as int),
        decreases partitions.len() - k,
    {
        out.push(partitions[k]);
        k += 1;
        assert(out@ =~= partitions@.take(k as int));
    }
    assert(partitions@.take(partitions.len() as int) =~= partitions@);
    out
}

/// Every offset is taken as committed; none is stored.
pub fn handle_offset_commit(header: &KafkaRequestHeader, topics: &Vec<TopicWithPartitions>) -> (r:
    KafkaResponse)
    ensures
        answers(
            r,
            header.correlation_id,
            ResponseModel::OffsetCommit { topics: topics.deep_view() },
        ),
{
    let mut acknowledged: Vec<TopicWithPartitions> = Vec::new();
    let mut i: usize = 0;
    while i < topics.len()
        invariant
            i <= topics.len(),
            acknowledged.len() == i,
            forall|j: int|
                0 <= j < i ==> (#[trigger] acknowledged@[j]).deep_view() == topics@[j].deep_view(),
        decreases topics.len() - i,
    {
        acknowledged.push(
            TopicWithPartitions::new(
                topics[i].name.clone(),
                copy_partitions(&topics[i].partitions),
            ),
        );
        i += 1;
    }
    assert(acknowledged.deep_view() =~= topics.deep_view());
    KafkaResponse {
        header: KafkaResponseHeader::new(header.correlation_id),
        req: ApiResponse::OffsetCommitResponse { topics: acknowledged },
    }
}

/// What each item of a sequence gives, in order, unless one of them fails:
/// then the failure of the first that does.
pub open spec fn try_map<A, B>(items: Seq<A>, f: spec_fn(A) -> Result<B, StoreError>) -> Result<
    Seq<B>,
    StoreError,
>
    decreases items.len(),
{
    if items.len() == 0 {
        Ok(Seq::<B>::empty())
    } else {
        match f(items[0]) {
            Err(e) => Err(e),
            Ok(first) => match try_map(items.skip(1), f) {
                Err(e) => Err(e),
                Ok(others) => Ok(seq![first] + others),
            },
        }
    }
}

/// The offset that answers a timestamp: 0 for -2, the earliest; the next
/// offset of the topic for -1, the latest; -1 for any other.
pub open spec fn listed_offset(logs: Seq<LogModel>, topic: Seq<char>, timestamp: i64) -> Result<
    i64,
    StoreError,
> {
    if timestamp == -2 {
        Ok(0i64)
    } else if timestamp == -1 {
        next_offset_outcome(logs, topic)
    } else {
        Ok(-1i64)
    }
}

/// One partition of a list-offsets request, answered.
pub open spec fn listed_partition(logs: Seq<LogModel>, topic: Seq<char>, p: (u32, i64)) -> Result<
    (u32, i64),
    StoreError,
> {
    match listed_offset(logs, topic, p.1) {
        Ok(offset) => Ok((p.0, offset)),
        Err(e) => Err(e),
    }
}

/// One topic of a list-offsets request, answered.
pub open spec fn listed_topic(logs: Seq<LogModel>, t: (Seq<char>, Seq<(u32, i64)>)) -> Result<
    (Seq<char>, Seq<(u32, i64)>),
    StoreError,
> {
    match try_map(t.1, |p: (u32, i64)| listed_partition(logs, t.0, p)) {
        Ok(partitions) => Ok((t.0, partitions)),
        Err(e) => Err(e),
    }
}

/// The topics of a list-offsets request, answered.
pub open spec fn listed(logs: Seq<LogModel>, topics: Seq<(Seq<char>, Seq<(u32, i64)>)>) -> Result<
    Seq<(Seq<char>, Seq<(u32, i64)>)>,
    StoreError,
> {
    try_map(topics, |t: (Seq<char>, Seq<(u32, i64)>)| listed_topic(logs, t))
}

fn offset_for(pool: &Connection, topic: &String, timestamp: i64) -> (r: Result<i64, StoreError>)
    requires
        pool.wf(),
    ensures
        r == listed_offset(pool@, topic@, timestamp),
{
    if timestamp == -2 {
        Ok(0)
    } else if timestamp == -1 {
        pool.next_offset(topic)
    } else {
        Ok(-1)
    }
}

fn offsets_of_topic(pool: &Connection, topic: &(String, Vec<(u32, i64)>)) -> (r: Result<
    (String, Vec<(u32, i64)>),
    StoreError,
>)
    requires
        pool.wf(),
    ensures
        match r {
            Ok(found) => listed_topic(pool@, topic.deep_view()) == Ok::<
                (Seq<char>, Seq<(u32, i64)>),
                StoreError,
            >(found.deep_view()),
            Err(e) => listed_topic(pool@, topic.deep_view()) == Err::<
                (Seq<char>, Seq<(u32, i64)>),
                StoreError,
            >(e),
        },
{
    let ghost all = topic.1.deep_view();
    let ghost name = topic.0@;
    let mut partition_responses: Vec<(u32, i64)> = Vec::new();
    let mut k: usize = 0;
    assert(partition_responses.deep_view() =~= Seq::<(u32, i64)>::empty());
    assert(all.skip(0) =~= all);
    assert(try_map(all, |p: (u32, i64)| listed_partition(pool@, name, p)) matches Ok(rest)
        ==> Seq::<(u32, i64)>::empty() + rest =~= rest);
    while k < topic.1.len()
        invariant
            k <= topic.1.len(),
            pool.wf(),
            all == topic.1.deep_view(),
            name == topic.0@,
            try_map(all, |p: (u32, i64)| listed_partition(pool@, name, p)) == match try_map(
                all.skip(k as int),
                |p: (u32, i64)| listed_partition(pool@, name, p),
            ) {
                Ok(rest) => Ok::<Seq<(u32, i64)>, StoreError>(
                    partition_responses.deep_view() + rest,
                ),
                Err(e) => Err::<Seq<(u32, i64)>, StoreError>(e),
            },
        decreases topic.1.len() - k,
    {
        let p = &topic.1[k];
        assert(all.skip(k as int)[0] == (p.0, p.1));
        assert(all.skip(k as int).skip(1) =~= all.skip(k + 1));
        match offset_for(pool, &topic.0, p.1) {
            Ok(offset) => {
                let ghost held = partition_responses.deep_view();
                partition_responses.push((p.0, offset));
                assert(partition_responses.deep_view() =~= held.push((p.0, offset)));
                assert(try_map(
                    all.skip(k + 1),
                    |p: (u32, i64)| listed_partition(pool@, name, p),
                ) matches Ok(rest) ==> held + (seq![(p.0, offset)] + rest)
                    =~= partition_responses.deep_view() + rest);
            },
            Err(e) => {
                return Err(e);
            },
        }
        k += 1;
    }
    assert(partition_responses.deep_view() + Seq::<(u32, i64)>::empty()
        =~= partition_responses.deep_view());
    Ok((topic.0.clone(), partition_responses))
}

fn handle_offsets(
    header: &KafkaRequestHeader,
    topics: &Vec<(String, Vec<(u32, i64)>)>,
    db: &PgState,
) -> (r: Result<KafkaResponse, StoreError>)
    requires
        db.wf(),
    ensures
        match r {
            Ok(response) => listed(db.pool@, topics.deep_view()) matches Ok(found) && answers(
                response,
                header.correlation_id,
                ResponseModel::Offsets { topics: found },
            ),
            Err(e) => listed(db.pool@, topics.deep_view()) == Err::<
                Seq<(Seq<char>, Seq<(u32, i64)>)>,
                StoreError,
            >(e),
        },
{
    let ghost all = topics.deep_view();
    let ghost logs = db.pool@;
    let mut responses: Vec<(String, Vec<(u32, i64)>)> = Vec::new();
    let mut i: usize = 0;
    assert(responses.deep_view() =~= Seq::<(Seq<char>, Seq<(u32, i64)>)>::empty());
    assert(all.skip(0) =~= all);
    assert(listed(logs, all) matches Ok(rest) ==> Seq::<(Seq<char>, Seq<(u32, i64)>)>::empty()
        + rest =~= rest);
    while i < topics.len()
        invariant
            i <= topics.len(),
            db.wf(),
            all == topics.deep_view(),
            logs == db.pool@,
            listed(logs, all) == match try_map(
                all.skip(i as int),
                |t: (Seq<char>, Seq<(u32, i64)>)| listed_topic(logs, t),
            ) {
                Ok(rest) => Ok::<Seq<(Seq<char>, Seq<(u32, i64)>)>, StoreError>(
                    responses.deep_view() + rest,
                ),
                Err(e) => Err::<Seq<(Seq<char>, Seq<(u32, i64)>)>, StoreError>(e),
            },
        decreases topics.len() - i,
    {
        assert(all.skip(i as int)[0] == topics@[i as int].deep_view());
        assert(all.skip(i as int).skip(1) =~= all.skip(i + 1));
        match offsets_of_topic(&db.pool, &topics[i]) {
            Ok(found) => {
                let ghost held = responses.deep_view();
                let ghost item = found.deep_view();
                responses.push(found);
                assert(responses.deep_view() =~= held.push(item));
                assert(try_map(
                    all.skip(i + 1),
                    |t: (Seq<char>, Seq<(u32, i64)>)| listed_topic(logs, t),
                ) matches Ok(rest) ==> held + (seq![item] + rest) =~= responses.deep_view()
                    + rest);
            },
            Err(e) => {
                return Err(e);
            },
        }
        i += 1;
    }
    assert(responses.deep_view() + Seq::<(Seq<char>, Seq<(u32, i64)>)>::empty()
        =~= responses.deep_view());
    Ok(
        KafkaResponse {
            header: KafkaResponseHeader::new(header.correlation_id),
            req: ApiResponse::OffsetsResponse { topics: responses },
        },
    )
}

/// The value of a record as a fetch response carries it: a record without a
/// value carries the empty one.
pub open spec fn value_or_empty(value: Option<Seq<u8>>) -> Seq<u8> {
    match value {
        Some(v) => v,
        None => Seq::<u8>::empty(),
    }
}

/// A stored record as a fetch response carries it: offset, key and value.
pub open spec fn fetched_record(r: Stored) -> RecordModel {
    (r.id, r.key, value_or_empty(r.value))
}

/// Stored records as a fetch response carries them.
pub open spec fn fetched_records(records: Seq<Stored>) -> Seq<RecordModel> {
    Seq::new(records.len(), |i: int| fetched_record(records[i]))
}

/// How many records a fetch reads from a topic at most.
pub open spec fn fetch_limit() -> nat {
    25
}

/// One topic of a fetch request, answered: the records from the offset that
/// its first partition asks for; none if it names no partition.
pub open spec fn fetched_topic(logs: Seq<LogModel>, t: (Seq<char>, Seq<(u32, u64)>)) -> Result<
    (Seq<char>, Seq<RecordModel>),
    StoreError,
> {
    if t.1.len() == 0 {
        Ok((t.0, Seq::<RecordModel>::empty()))
    } else {
        match scan_outcome(logs, t.0, t.1[0].1, fetch_limit()) {
            Ok(records) => Ok((t.0, fetched_records(records))),
            Err(e) => Err(e),
        }
    }
}

/// The topics of a fetch request, answered.
pub open spec fn fetched(logs: Seq<LogModel>, topics: Seq<(Seq<char>, Seq<(u32, u64)>)>) -> Result<
    Seq<(Seq<char>, Seq<RecordModel>)>,
    StoreError,
> {
    try_map(topics, |t: (Seq<char>, Seq<(u32, u64)>)| fetched_topic(logs, t))
}

fn records_for_fetch(records: &Vec<Record>) -> (r: Vec<(u64, Option<Vec<u8>>, Vec<u8>)>)
    ensures
        r.deep_view() == fetched_records(records.deep_view()),
{
    let mut out: Vec<(u64, Option<Vec<u8>>, Vec<u8>)> = Vec::new();
    let mut k: usize = 0;
    while k < records.len()
        invariant
            k <= records.len(),
            out.len() == k,
            forall|j: int|
                0 <= j < k ==> (#[trigger] out@[j]).deep_view() == fetched_record(
                    records@[j].deep_view(),
                ),
        decreases records.len() - k,
    {
        let record = &records[k];
        let value = match &record.value {
            Some(v) => copy_bytes(v),
            None => Vec::new(),
        };
        proof {
            assert(value.deep_view() =~= value@);
            if record.value is Some {
                assert(record.value->0.deep_view() =~= record.value->0@);
            }
        }
        out.push((record.id, copy_opt_bytes(&record.key), value));
        k += 1;
    }
    assert(out.deep_view() =~= fetched_records(records.deep_view()));
    out
}

fn fetch_topic(pool: &Connection, topic: &(String, Vec<(u32, u64)>)) -> (r: Result<
    (String, Vec<(u64, Option<Vec<u8>>, Vec<u8>)>),
    StoreError,
>)
    ensures
        match r {
            Ok(found) => fetched_topic(pool@, topic.deep_view()) == Ok::<
                (Seq<char>, Seq<RecordModel>),
                StoreError,
            >(found.deep_view()),
            Err(e) => fetched_topic(pool@, topic.deep_view()) == Err::<
                (Seq<char>, Seq<RecordModel>),
                StoreError,
            >(e),
        },
{
    if topic.1.len() == 0 {
        let none: Vec<(u64, Option<Vec<u8>>, Vec<u8>)> = Vec::new();
        assert(none.deep_view() =~= Seq::<RecordModel>::empty());
        Ok((topic.0.clone(), none))
    } else {
        let from_offset = topic.1[0].1;
        assert(topic.deep_view().1[0] == (topic.1@[0].0, topic.1@[0].1));
        let records = pool.scan(&topic.0, from_offset, 25)?;
        Ok((topic.0.clone(), records_for_fetch(&records)))
    }
}

fn handle_fetch(
    header: &KafkaRequestHeader,
    topics: &Vec<(String, Vec<(u32, u64)>)>,
    db: &PgState,
) -> (r: Result<KafkaResponse, StoreError>)
    ensures
        match r {
            Ok(response) => fetched(db.pool@, topics.deep_view()) matches Ok(found) && answers(
                response,
                header.correlation_id,
                ResponseModel::Fetch { version: header.version, responses: found },
            ),
            Err(e) => fetched(db.pool@, topics.deep_view()) == Err::<
                Seq<(Seq<char>, Seq<RecordModel>)>,
                StoreError,
            >(e),
        },
{
    let ghost all = topics.deep_view();
    let ghost logs = db.pool@;
    let mut responses: Vec<(String, Vec<(u64, Option<Vec<u8>>, Vec<u8>)>)> = Vec::new();
    let mut i: usize = 0;
    assert(responses.deep_view() =~= Seq::<(Seq<char>, Seq<RecordModel>)>::empty());
    assert(all.skip(0) =~= all);
    assert(fetched(logs, all) matches Ok(rest) ==> Seq::<(Seq<char>, Seq<RecordModel>)>::empty()
        + rest =~= rest);
    while i < topics.len()
        invariant
            i <= topics.len(),
            all == topics.deep_view(),
            logs == db.pool@,
            fetched(logs, all) == match try_map(
                all.skip(i as int),
                |t: (Seq<char>, Seq<(u32, u64)>)| fetched_topic(logs, t),
            ) {
                Ok(rest) => Ok::<Seq<(Seq<char>, Seq<RecordModel>)>, StoreError>(
                    responses.deep_view() + rest,
                ),
                Err(e) => Err::<Seq<(Seq<char>, Seq<RecordModel>)>, StoreError>(e),
            },
        decreases topics.len() - i,
    {
        assert(all.skip(i as int)[0] == topics@[i as int].deep_view());
        assert(all.skip(i as int).skip(1) =~= all.skip(i + 1));
        match fetch_topic(&db.pool, &topics[i]) {
            Ok(found) => {
                let ghost held = responses.deep_view();
                let ghost item = found.deep_view();
                responses.push(found);
                assert(responses.deep_view() =~= held.push(item));
                assert(try_map(
                    all.skip(i + 1),
                    |t: (Seq<char>, Seq<(u32, u64)>)| fetched_topic(logs, t),
                ) matches Ok(rest) ==> held + (seq![item] + rest) =~= responses.deep_view()
                    + rest);
            },
            Err(e) => {
                return Err(e);
            },
        }
        i += 1;
    }
    assert(responses.deep_view() + Seq::<(Seq<char>, Seq<RecordModel>)>::empty()
        =~= responses.deep_view());
    Ok(
        KafkaResponse {
            header: KafkaResponseHeader::new(header.correlation_id),
            req: ApiResponse::FetchResponse { version: header.version, responses: responses },
        },
    )
}

/// The store after the messages for one partition are appended, first to
/// last, or the reason why the first one that could not be appended was not.
pub open spec fn publish_messages(
    logs: Seq<LogModel>,
    topic: Seq<char>,
    partition: u32,
    messages: Seq<MessageModel>,
    compacted: bool,
    now: u64,
) -> Result<Seq<LogModel>, StoreError>
    decreases messages.len(),
{
    if messages.len() == 0 {
        Ok(logs)
    } else {
        match append_outcome(
            logs,
            topic,
            partition,
            now,
            messages[0].key,
            messages[0].value,
            compacted,
        ) {
            Err(e) => Err(e),
            Ok(next) => publish_messages(
                next,
                topic,
                partition,
                messages.skip(1),
                compacted,
                now,
            ),
        }
    }
}

/// The store after the messages for the partitions of one topic are appended.
pub open spec fn publish_partitions(
    logs: Seq<LogModel>,
    topic: Seq<char>,
    partitions: Seq<(u32, Seq<MessageModel>)>,
    compacted: bool,
    now: u64,
) -> Result<Seq<LogModel>, StoreError>
    decreases partitions.len(),
{
    if partitions.len() == 0 {
        Ok(logs)
    } else {
        match publish_messages(logs, topic, partitions[0].0, partitions[0].1, compacted, now) {
            Err(e) => Err(e),
            Ok(next) => publish_partitions(next, topic, partitions.skip(1), compacted, now),
        }
    }
}

/// The store after a produce request: the messages of every topic appended in
/// the order of the request, each topic compacted or not as configured.
pub open spec fn published(
    logs: Seq<LogModel>,
    topics: Seq<MessageSetModel>,
    config: Seq<TopicConfig>,
    now: u64,
) -> Result<Seq<LogModel>, StoreError>
    decreases topics.len(),
{
    if topics.len() == 0 {
        Ok(logs)
    } else {
        match publish_partitions(
            logs,
            topics[0].topic,
            topics[0].messages,
            compacted_in(config, topics[0].topic),
            now,
        ) {
            Err(e) => Err(e),
            Ok(next) => published(next, topics.skip(1), config, now),
        }
    }
}

/// What a produce response acknowledges: every topic with the numbers of
/// the partitions that the request held messages for.
pub open spec fn acknowledged(topics: Seq<MessageSetModel>) -> Seq<(Seq<char>, Seq<u32>)> {
    Seq::new(
        topics.len(),
        |i: int|
            (
                topics[i].topic,
                Seq::new(topics[i].messages.len(), |k: int| topics[i].messages[k].0),
            ),
    )
}

fn store_messages(
    pool: &mut Connection,
    topic: &String,
    partition: u32,
    messages: &Vec<KafkaMessage>,
    compacted: bool,
    now: u64,
) -> (r: Result<(), StoreError>)
    requires
        old(pool).wf(),
    ensures
        final(pool).wf(),
        match r {
            Ok(_) => publish_messages(
                old(pool)@,
                topic@,
                partition,
                messages.deep_view(),
                compacted,
                now,
            ) == Ok::<Seq<LogModel>, StoreError>(final(pool)@),
            Err(e) => publish_messages(
                old(pool)@,
                topic@,
                partition,
                messages.deep_view(),
                compacted,
                now,
            ) == Err::<Seq<LogModel>, StoreError>(e),
        },
{
    let ghost all = messages.deep_view();
    let ghost start = pool@;
    let mut k: usize = 0;
    assert(all.skip(0) =~= all);
    while k < messages.len()
        invariant
            k <= messages.len(),
            pool.wf(),
            start == old(pool)@,
            all == messages.deep_view(),
            publish_messages(start, topic@, partition, all, compacted, now) == publish_messages(
                pool@,
                topic@,
                partition,
                all.skip(k as int),
                compacted,
                now,
            ),
        decreases messages.len() - k,
    {
        let message = &messages[k];
        assert(all.skip(k as int)[0] == message.deep_view());
        assert(all.skip(k as int).skip(1) =~= all.skip(k + 1));
        match pool.append(
            topic,
            partition,
            copy_opt_bytes(&message.key),
            copy_opt_bytes(&message.value),
            compacted,
            now,
        ) {
            Ok(_) => {},
            Err(e) => {
                return Err(e);
            },
        }
        k += 1;
    }
    Ok(())
}

fn store_partitions(
    pool: &mut Connection,
    topic: &String,
    partitions: &Vec<(u32, Vec<KafkaMessage>)>,
    compacted: bool,
    now: u64,
) -> (r: Result<(), StoreError>)
    requires
        old(pool).wf(),
    ensures
        final(pool).wf(),
        match r {
            Ok(_) => publish_partitions(
                old(pool)@,
                topic@,
                partitions.deep_view(),
                compacted,
                now,
            ) == Ok::<Seq<LogModel>, StoreError>(final(pool)@),
            Err(e) => publish_partitions(
                old(pool)@,
                topic@,
                partitions.deep_view(),
                compacted,
                now,
            ) == Err::<Seq<LogModel>, StoreError>(e),
        },
{
    let ghost all = partitions.deep_view();
    let ghost start = pool@;
    let mut k: usize = 0;
    assert(all.skip(0) =~= all);
    while k < partitions.len()
        invariant
            k <= partitions.len(),
            pool.wf(),
            start == old(pool)@,
            all == partitions.deep_view(),
            publish_partitions(start, topic@, all, compacted, now) == publish_partitions(
                pool@,
                topic@,
                all.skip(k as int),
                compacted,
                now,
            ),
        decreases partitions.len() - k,
    {
        let partition = &partitions[k];
        assert(all.skip(k as int)[0] == partition.deep_view());
        assert(all.skip(k as int).skip(1) =~= all.skip(k + 1));
        match store_messages(pool, topic, partition.0, &partition.1, compacted, now) {
            Ok(_) => {},
            Err(e) => {
                return Err(e);
            },
        }
        k += 1;
    }
    Ok(())
}

fn store_topics(
    pool: &mut Connection,
    topics: &Vec<KafkaMessageSet>,
    config: &Vec<Topic>,
    now: u64,
) -> (r: Result<(), StoreError>)
    requires
        old(pool).wf(),
    ensures
        final(pool).wf(),
        match r {
            Ok(_) => published(old(pool)@, topics.deep_view(), config.deep_view(), now) == Ok::<
                Seq<LogModel>,
                StoreError,
            >(final(pool)@),
            Err(e) => published(old(pool)@, topics.deep_view(), config.deep_view(), now) == Err::<
                Seq<LogModel>,
                StoreError,
            >(e),
        },
{
    let ghost all = topics.deep_view();
    let ghost start = pool@;
    let mut k: usize = 0;
    assert(all.skip(0) =~= all);
    while k < topics.len()
        invariant
            k <= topics.len(),
            pool.wf(),
            start == old(pool)@,
            all == topics.deep_view(),
            published(start, all, config.deep_view(), now) == published(
                pool@,
                all.skip(k as int),
                config.deep_view(),
                now,
            ),
        decreases topics.len() - k,
    {
        let topic = &topics[k];
        assert(all.skip(k as int)[0] == topic.deep_view());
        assert(all.skip(k as int).skip(1) =~= all.skip(k + 1));
        let compacted = is_compacted(config, &topic.topic);
        match store_partitions(pool, &topic.topic, &topic.messages, compacted, now) {
            Ok(_) => {},
            Err(e) => {
                return Err(e);
            },
        }
        k += 1;
    }
    Ok(())
}

fn partition_numbers(partitions: &Vec<(u32, Vec<KafkaMessage>)>) -> (numbers: Vec<u32>)
    ensures
        numbers.deep_view() == Seq::new(
            partitions.deep_view().len(),
            |k: int| partitions.deep_view()[k].0,
        ),
{
    let mut numbers: Vec<u32> = Vec::new();
    let mut k: usize = 0;
    while k < partitions.len()
        invariant
            k <= partitions.len(),
            numbers.len() == k,
            forall|j: int| 0 <= j < k ==> (#[trigger] numbers@[j]) == partitions@[j].0,
        decreases partitions.len() - k,
    {
        numbers.push(partitions[k].0);
        k += 1;
    }
    assert(numbers.deep_view() =~= Seq::new(
        partitions.deep_view().len(),
        |k: int| partitions.deep_view()[k].0,
    ));
    numbers
}

fn acknowledge(topics: &Vec<KafkaMessageSet>) -> (responses: Vec<(String, Vec<u32>)>)
    ensures
        responses.deep_view() == acknowledged(topics.deep_view()),
{
    let mut responses: Vec<(String, Vec<u32>)> = Vec::new();
    let mut i: usize = 0;
    while i < topics.len()
        invariant
            i <= topics.len(),
            responses.len() == i,
            forall|j: int|
                0 <= j < i ==> (#[trigger] responses@[j]).deep_view() == acknowledged(
                    topics.deep_view(),
                )[j],
        decreases topics.len() - i,
    {
        let partition_responses = partition_numbers(&topics[i].messages);
        responses.push((topics[i].topic.clone(), partition_responses));
        i += 1;
    }
    assert(responses.deep_view() =~= acknowledged(topics.deep_view()));
    responses
}

fn handle_publish(
    header: &KafkaRequestHeader,
    topics: &Vec<KafkaMessageSet>,
    db: &mut PgState,
    now: u64,
) -> (r: Result<KafkaResponse, StoreError>)
    requires
        old(db).wf(),
    ensures
        final(db).wf(),
        final(db).topics == old(db).topics,
        final(db).hostname == old(db).hostname,
        match r {
            Ok(response) => published(
                old(db).pool@,
                topics.deep_view(),
                old(db).topics.deep_view(),
                now,
            ) == Ok::<Seq<LogModel>, StoreError>(final(db).pool@) && answers(
                response,
                header.correlation_id,
                ResponseModel::Publish {
                    version: header.version,
                    responses: acknowledged(topics.deep_view()),
                },
            ),
            Err(e) => published(
                old(db).pool@,
                topics.deep_view(),
                old(db).topics.deep_view(),
                now,
            ) == Err::<Seq<LogModel>, StoreError>(e),
        },
{
    match store_topics(&mut db.pool, topics, &db.topics, now) {
        Ok(_) => {},
        Err(e) => {
            return Err(e);
        },
    }
    Ok(
        KafkaResponse {
            header: KafkaResponseHeader::new(header.correlation_id),
            req: ApiResponse::PublishResponse {
                version: header.version,
                responses: acknowledge(topics),
            },
        },
    )
}

/// The store once it is sure to have a log for each of the topics.
pub open spec fn ensured_all(logs: Seq<LogModel>, topics: Seq<TopicConfig>) -> Seq<LogModel>
    decreases topics.len(),
{
    if topics.len() == 0 {
        logs
    } else {
        ensured_all(ensured(logs, topics[0].name), topics.skip(1))
    }
}

/// Makes sure that the store has a log for every configured topic.
fn create_tables(topics: &Vec<Topic>, pool: &mut Connection)
    requires
        old(pool).wf(),
    ensures
        final(pool).wf(),
        final(pool)@ == ensured_all(old(pool)@, topics.deep_view()),
{
    let ghost all = topics.deep_view();
    let mut k: usize = 0;
    assert(all.skip(0) =~= all);
    while k < topics.len()
        invariant
            k <= topics.len(),
            pool.wf(),
            all == topics.deep_view(),
            ensured_all(old(pool)@, all) == ensured_all(pool@, all.skip(k as int)),
        decreases topics.len() - k,
    {
        assert(all.skip(k as int)[0] == topics@[k as int].deep_view());
        assert(all.skip(k as int).skip(1) =~= all.skip(k + 1));
        pool.ensure_topic(&topics[k].name);
        k += 1;
    }
}

/// A copy of the configured topics.
fn copy_topics(topics: &Vec<Topic>) -> (copy: Vec<Topic>)
    ensures
        copy.deep_view() == topics.deep_view(),
{
    let mut out: Vec<Topic> = Vec::new();
    let mut k: usize = 0;
    while k < topics.len()
        invariant
            k <= topics.len(),
            out.len() == k,
            forall|j: int| 0 <= j < k ==> (#[trigger] out@[j]).deep_view() == topics@[j].deep_view(),
        decreases topics.len() - k,
    {
        out.push(
            Topic {
                name: topics[k].name.clone(),
                compacted: topics[k].compacted,
                retention: topics[k].retention,
            },
        );
        k += 1;
    }
    assert(out.deep_view() =~= topics.deep_view());
    out
}

/// The state the broker starts with when it advertises `hostname`: the
/// topics as configured and a store with an empty log for each of them.
pub fn initialize_with(cnf: &Settings, hostname: String) -> (state: PgState)
    ensures
        state.wf(),
        state.hostname == hostname,
        state.topics.deep_view() == cnf.topics.deep_view(),
        state.pool@ == ensured_all(Seq::<LogModel>::empty(), cnf.topics.deep_view()),
{
    let mut pool = Connection::new();
    create_tables(&cnf.topics, &mut pool);
    PgState { pool: pool, topics: copy_topics(&cnf.topics), hostname: hostname }
}

/// The state the broker starts with. There is none if no host name is
/// configured and the operating system reports none.
pub fn initialize(cnf: &Settings) -> (r: Option<PgState>)
    ensures
        cnf.hostname is Some ==> r is Some,
        r matches Some(state) ==> {
            &&& state.wf()
            &&& state.topics.deep_view() == cnf.topics.deep_view()
            &&& state.pool@ == ensured_all(Seq::<LogModel>::empty(), cnf.topics.deep_view())
            &&& cnf.hostname matches Some(name) ==> state.hostname@ == name@
        },
{
    match cnf.get_hostname() {
        Some(hostname) => Some(initialize_with(cnf, hostname)),
        None => None,
    }
}

/// The store after a retention run at time `now`: of every topic that is
/// configured with a retention, the records older than it are deleted.
pub open spec fn cleaned(logs: Seq<LogModel>, topics: Seq<TopicConfig>, now: u64) -> Result<
    Seq<LogModel>,
    StoreError,
>
    decreases topics.len(),
{
    if topics.len() == 0 {
        Ok(logs)
    } else {
        match topics[0].retention {
            None => cleaned(logs, topics.skip(1), now),
            Some(retention) => match expire_outcome(logs, topics[0].name, retention, now) {
                Err(e) => Err(e),
                Ok(next) => cleaned(next, topics.skip(1), now),
            },
        }
    }
}

/// One retention run at time `now`.
pub fn cleanup(db: &mut PgState, now: u64) -> (r: Result<(), StoreError>)
    requires
        old(db).wf(),
    ensures
        final(db).wf(),
        final(db).topics == old(db).topics,
        final(db).hostname == old(db).hostname,
        match r {
            Ok(_) => cleaned(old(db).pool@, old(db).topics.deep_view(), now) == Ok::<
                Seq<LogModel>,
                StoreError,
            >(final(db).pool@),
            Err(e) => cleaned(old(db).pool@, old(db).topics.deep_view(), now) == Err::<
                Seq<LogModel>,
                StoreError,
            >(e),
        },
{
    let ghost all = db.topics.deep_view();
    let mut k: usize = 0;
    assert(all.skip(0) =~= all);
    while k < db.topics.len()
        invariant
            k <= db.topics.len(),
            db.wf(),
            db.topics == old(db).topics,
            db.hostname == old(db).hostname,
            all == db.topics.deep_view(),
            cleaned(old(db).pool@, all, now) == cleaned(db.pool@, all.skip(k as int), now),
        decreases db.topics.len() - k,
    {
        assert(all.skip(k as int)[0] == db.topics@[k as int].deep_view());
        assert(all.skip(k as int).skip(1) =~= all.skip(k + 1));
        if let Some(retention) = db.topics[k].retention {
            match db.pool.delete_expired(&db.topics[k].name, retention, now) {
                Ok(_) => {},
                Err(e) => {
                    return Err(e);
                },
            }
        }
        k += 1;
    }
    Ok(())
}

/// The body of the response to a request.
pub open spec fn response_to(
    header_version: i16,
    req: RequestModel,
    logs: Seq<LogModel>,
    config: Seq<TopicConfig>,
    hostname: Seq<char>,
    now: u64,
) -> Result<ResponseModel, StoreError> {
    match req {
        RequestModel::Metadata { topics } => Ok(
            ResponseModel::Metadata {
                version: header_version,
                cluster: healthy_cluster(topics, hostname),
            },
        ),
        RequestModel::Publish { acks, timeout, topics } => match published(
            logs,
            topics,
            config,
            now,
        ) {
            Ok(_) => Ok(
                ResponseModel::Publish {
                    version: header_version,
                    responses: acknowledged(topics),
                },
            ),
            Err(e) => Err(e),
        },
        RequestModel::Fetch { topics } => match fetched(logs, topics) {
            Ok(found) => Ok(ResponseModel::Fetch { version: header_version, responses: found }),
            Err(e) => Err(e),
        },
        RequestModel::Versions => Ok(ResponseModel::Versions),
        RequestModel::FindGroupCoordinator => Ok(
            ResponseModel::GroupCoordinator { hostname: hostname },
        ),
        RequestModel::JoinGroup { group_id, member_id, protocol_type, protocols } => Ok(
            ResponseModel::JoinGroup { protocol: first_of(protocols) },
        ),
        RequestModel::SyncGroup { group_id, member_id, assignments } => Ok(
            ResponseModel::SyncGroup { assignment: first_assignment(assignments) },
        ),
        RequestModel::FetchOffsets { group_id, topics } => Ok(
            ResponseModel::FetchOffsets { topics: uncommitted(topics) },
        ),
        RequestModel::Offsets { topics } => match listed(logs, topics) {
            Ok(found) => Ok(ResponseModel::Offsets { topics: found }),
            Err(e) => Err(e),
        },
        RequestModel::OffsetCommit { topics } => Ok(ResponseModel::OffsetCommit { topics: topics }),
        RequestModel::Heartbeat => Ok(ResponseModel::Heartbeat),
        RequestModel::LeaveGroup => Ok(ResponseModel::LeaveGroup),
        RequestModel::Unknown => Ok(ResponseModel::Error),
    }
}

/// The store after a request is handled at time `now`: a produce request
/// appends its messages, any other request leaves the store as it is.
pub open spec fn store_after(
    req: RequestModel,
    logs: Seq<LogModel>,
    config: Seq<TopicConfig>,
    now: u64,
) -> Result<Seq<LogModel>, StoreError> {
    match req {
        RequestModel::Publish { acks, timeout, topics } => published(logs, topics, config, now),
        _ => Ok(logs),
    }
}

/// Handles a request at time `now`: the response carries the correlation id
/// of the request and the body that belongs to it, and the store is what the
/// request makes of it. Where the store fails, so does the handler.
pub fn handle_request(req: KafkaRequest, db: &mut PgState, now: u64) -> (r: Result<
    KafkaResponse,
    StoreError,
>)
    requires
        old(db).wf(),
    ensures
        final(db).wf(),
        final(db).topics == old(db).topics,
        final(db).hostname == old(db).hostname,
        !(req.req is Publish) ==> final(db).pool@ == old(db).pool@,
        match r {
            Ok(response) => {
                &&& response_to(
                    req.header.version,
                    req.req.deep_view(),
                    old(db).pool@,
                    old(db).topics.deep_view(),
                    old(db).hostname@,
                    now,
                ) == Ok::<ResponseModel, StoreError>(response.req.deep_view())
                &&& response.header.correlation_id == req.header.correlation_id
                &&& response.header.length == 0
                &&& store_after(req.req.deep_view(), old(db).pool@, old(db).topics.deep_view(), now)
                    == Ok::<Seq<LogModel>, StoreError>(final(db).pool@)
            },
            Err(e) => response_to(
                req.header.version,
                req.req.deep_view(),
                old(db).pool@,
                old(db).topics.deep_view(),
                old(db).hostname@,
                now,
            ) == Err::<ResponseModel, StoreError>(e),
        },
{
    match &req.req {
        ApiRequest::Metadata { topics } => Ok(handle_metadata(&req.header, topics, db)),
        ApiRequest::Publish { topics, .. } => handle_publish(&req.header, topics, db, now),
        ApiRequest::Fetch { topics } => handle_fetch(&req.header, topics, db),
        ApiRequest::Versions => Ok(handle_versions(&req)),
        ApiRequest::FindGroupCoordinator => Ok(handle_find_coordinator(&req, db)),
        ApiRequest::JoinGroup { protocols, .. } => Ok(handle_join_group(&req.header, protocols)),
        ApiRequest::SyncGroup { assignments, .. } => Ok(
            handle_sync_group(&req.header, assignments),
        ),
        ApiRequest::FetchOffsets { topics, .. } => Ok(handle_fetch_offsets(&req.header, topics)),
        ApiRequest::Offsets { topics } => handle_offsets(&req.header, topics, db),
        ApiRequest::OffsetCommit { topics } => Ok(handle_offset_commit(&req.header, topics)),
        ApiRequest::Heartbeat => Ok(handle_heartbeat(&req)),
        ApiRequest::LeaveGroup => Ok(handle_leave_group(&req)),
        ApiRequest::Unknown => Ok(handle_unknown(&req)),
    }
}

/// A list-offsets request for one partition is answered with offset 0 for
/// the timestamp -2, with the next offset of the topic for the timestamp -1,
/// and with offset -1 for any other timestamp.
pub proof fn lemma_list_offsets(
    logs: Seq<LogModel>,
    topic: Seq<char>,
    partition: u32,
    timestamp: i64,
)
    requires
        has_topic(logs, topic),
    ensures
        listed(logs, seq![(topic, seq![(partition, timestamp)])]) == Ok::<
            Seq<(Seq<char>, Seq<(u32, i64)>)>,
            StoreError,
        >(
            seq![
                (
                    topic,
                    seq![
                        (
                            partition,
                            if timestamp == -2 {
                                0i64
                            } else if timestamp == -1 {
                                next_offset_of(records_of(logs, topic)) as i64
                            } else {
                                -1i64
                            },
                        ),
                    ],
                ),
            ],
        ),
{
    let partitions = seq![(partition, timestamp)];
    let f = |p: (u32, i64)| listed_partition(logs, topic, p);
    let offset = listed_offset(logs, topic, timestamp)->Ok_0;
    assert(partitions.skip(1) =~= Seq::<(u32, i64)>::empty());
    assert(try_map(partitions.skip(1), f) == Ok::<Seq<(u32, i64)>, StoreError>(Seq::empty()));
    assert(try_map(partitions, f) == Ok::<Seq<(u32, i64)>, StoreError>(
        seq![(partition, offset)] + Seq::empty(),
    ));
    assert(seq![(partition, offset)] + Seq::<(u32, i64)>::empty() =~= seq![(partition, offset)]);
    let topics = seq![(topic, partitions)];
    let g = |t: (Seq<char>, Seq<(u32, i64)>)| listed_topic(logs, t);
    let answered = (topic, seq![(partition, offset)]);
    assert(g(topics[0]) == Ok::<(Seq<char>, Seq<(u32, i64)>), StoreError>(answered));
    assert(topics.skip(1) =~= Seq::<(Seq<char>, Seq<(u32, i64)>)>::empty());
    assert(try_map(topics.skip(1), g) == Ok::<Seq<(Seq<char>, Seq<(u32, i64)>)>, StoreError>(
        Seq::empty(),
    ));
    assert(seq![answered] + Seq::<(Seq<char>, Seq<(u32, i64)>)>::empty() =~= seq![answered]);
}

/// A record that a produce request appends as a new one is what a fetch
/// from the offset that was next before the request returns: the record has
/// that offset, the key it was produced with, and its value.
pub proof fn lemma_produce_then_fetch(
    logs: Seq<LogModel>,
    config: Seq<TopicConfig>,
    topic: Seq<char>,
    partition: u32,
    message: MessageModel,
    now: u64,
)
    requires
        all_in_order(logs),
        has_topic(logs, topic),
        has_room(records_of(logs, topic)),
        !upserts(records_of(logs, topic), message.key, compacted_in(config, topic)),
    ensures
        ({
            let before = next_offset_of(records_of(logs, topic)) as u64;
            let produce = seq![
                MessageSetModel { topic: topic, messages: seq![(partition, seq![message])] },
            ];
            let fetch = seq![(topic, seq![(0u32, before)])];
            &&& published(logs, produce, config, now) matches Ok(after)
            &&& fetched(after, fetch) == Ok::<Seq<(Seq<char>, Seq<RecordModel>)>, StoreError>(
                seq![
                    (
                        topic,
                        seq![
                            fetched_record(
                                Stored {
                                    id: before,
                                    partition: partition,
                                    timestamp: now,
                                    key: message.key,
                                    value: message.value,
                                },
                            ),
                        ],
                    ),
                ],
            )
        }),
{
    let records = records_of(logs, topic);
    let compacted = compacted_in(config, topic);
    let before = next_offset_of(records) as u64;
    let fresh = Stored {
        id: before,
        partition: partition,
        timestamp: now,
        key: message.key,
        value: message.value,
    };
    let grown = appended(records, partition, now, message.key, message.value, compacted);
    let after = with_records(logs, topic, grown);
    lemma_index_of_bounds(logs, topic);
    assert(in_order(records));
    lemma_append_then_scan(
        records,
        partition,
        now,
        message.key,
        message.value,
        compacted,
        fetch_limit(),
    );
    lemma_with_records(logs, topic, grown);
    // the produce request appends the one message
    let messages = seq![message];
    assert(messages.skip(1) =~= Seq::<MessageModel>::empty());
    assert(publish_messages(after, topic, partition, messages.skip(1), compacted, now) == Ok::<
        Seq<LogModel>,
        StoreError,
    >(after));
    assert(publish_messages(logs, topic, partition, messages, compacted, now) == Ok::<
        Seq<LogModel>,
        StoreError,
    >(after));
    let partitions = seq![(partition, messages)];
    assert(partitions.skip(1) =~= Seq::<(u32, Seq<MessageModel>)>::empty());
    assert(publish_partitions(after, topic, partitions.skip(1), compacted, now) == Ok::<
        Seq<LogModel>,
        StoreError,
    >(after));
    assert(publish_partitions(logs, topic, partitions, compacted, now) == Ok::<
        Seq<LogModel>,
        StoreError,
    >(after));
    let produce = seq![MessageSetModel { topic: topic, messages: partitions }];
    assert(produce.skip(1) =~= Seq::<MessageSetModel>::empty());
    assert(published(after, produce.skip(1), config, now) == Ok::<Seq<LogModel>, StoreError>(
        after,
    ));
    assert(published(logs, produce, config, now) == Ok::<Seq<LogModel>, StoreError>(after));
    // the fetch scans the grown log from the offset that was next
    let fetch = seq![(topic, seq![(0u32, before)])];
    let g = |t: (Seq<char>, Seq<(u32, u64)>)| fetched_topic(after, t);
    let found = (topic, seq![fetched_record(fresh)]);
    assert(fetched_records(seq![fresh]) =~= seq![fetched_record(fresh)]);
    assert(g(fetch[0]) == Ok::<(Seq<char>, Seq<RecordModel>), StoreError>(found));
    assert(fetch.skip(1) =~= Seq::<(Seq<char>, Seq<(u32, u64)>)>::empty());
    assert(try_map(fetch.skip(1), g) == Ok::<Seq<(Seq<char>, Seq<RecordModel>)>, StoreError>(
        Seq::empty(),
    ));
    assert(seq![found] + Seq::<(Seq<char>, Seq<RecordModel>)>::empty() =~= seq![found]);
}

/// On a compacted topic, two messages with the same key leave one record
/// with that key, and a fetch from offset 0 returns exactly one record with
/// the key, which carries the value produced last. This is stated of a log
/// that held the key at most once and that a fetch reads to its end.
pub proof fn lemma_compacted_produce_then_fetch(
    logs: Seq<LogModel>,
    config: Seq<TopicConfig>,
    topic: Seq<char>,
    partition: u32,
    key: Seq<u8>,
    first: MessageModel,
    second: MessageModel,
    now: u64,
)
    requires
        all_in_order(logs),
        has_topic(logs, topic),
        compacted_in(config, topic),
        first.key == Some(key),
        second.key == Some(key),
        key_at_most_once(records_of(logs, topic), key),
        has_room(records_of(logs, topic)),
        records_of(logs, topic).len() < fetch_limit(),
    ensures
        ({
            let produce = seq![
                MessageSetModel { topic: topic, messages: seq![(partition, seq![first, second])] },
            ];
            let fetch = seq![(topic, seq![(0u32, 0u64)])];
            &&& published(logs, produce, config, now) matches Ok(after)
            &&& fetched(after, fetch) matches Ok(found)
            &&& found.len() == 1
            &&& found[0].0 == topic
            &&& exists|i: int|
                0 <= i < found[0].1.len() && (#[trigger] found[0].1[i]).1 == Some(key)
                    && found[0].1[i].2 == value_or_empty(second.value)
            &&& forall|i: int, j: int|
                0 <= i < found[0].1.len() && 0 <= j < found[0].1.len()
                    && (#[trigger] found[0].1[i]).1 == Some(key)
                    && (#[trigger] found[0].1[j]).1 == Some(key) ==> i == j
        }),
{
    let records = records_of(logs, topic);
    lemma_index_of_bounds(logs, topic);
    assert(in_order(records));
    let once = appended(records, partition, now, Some(key), first.value, true);
    let twice = appended(once, partition, now, Some(key), second.value, true);
    lemma_compacted_upsert(
        records,
        key,
        (partition, now, first.value),
        (partition, now, second.value),
        fetch_limit(),
    );
    // the first message is appended or replaces the record of the key
    let logs1 = with_records(logs, topic, once);
    lemma_with_records(logs, topic, once);
    assert(append_outcome(logs, topic, partition, now, first.key, first.value, true) == Ok::<
        Seq<LogModel>,
        StoreError,
    >(logs1));
    // the second message finds the key and replaces its record
    assert(holds_key(once, key)) by {
        if holds_key(records, key) {
            let i = choose|i: int|
                0 <= i < records.len() && (#[trigger] records[i]).key == Some(key);
            assert(once[i].key == Some(key));
        } else {
            assert(once[once.len() - 1].key == Some(key));
        }
    }
    let logs2 = with_records(logs1, topic, twice);
    lemma_with_records(logs1, topic, twice);
    assert(append_outcome(logs1, topic, partition, now, second.key, second.value, true) == Ok::<
        Seq<LogModel>,
        StoreError,
    >(logs2));
    let messages = seq![first, second];
    assert(messages.skip(1) =~= seq![second]);
    assert(messages.skip(1).skip(1) =~= Seq::<MessageModel>::empty());
    assert(publish_messages(logs2, topic, partition, messages.skip(1).skip(1), true, now) == Ok::<
        Seq<LogModel>,
        StoreError,
    >(logs2));
    assert(publish_messages(logs1, topic, partition, messages.skip(1), true, now) == Ok::<
        Seq<LogModel>,
        StoreError,
    >(logs2));
    assert(publish_messages(logs, topic, partition, messages, true, now) == Ok::<
        Seq<LogModel>,
        StoreError,
    >(logs2));
    let partitions = seq![(partition, messages)];
    assert(partitions.skip(1) =~= Seq::<(u32, Seq<MessageModel>)>::empty());
    assert(publish_partitions(logs2, topic, partitions.skip(1), true, now) == Ok::<
        Seq<LogModel>,
        StoreError,
    >(logs2));
    assert(publish_partitions(logs, topic, partitions, true, now) == Ok::<
        Seq<LogModel>,
        StoreError,
    >(logs2));
    let produce = seq![MessageSetModel { topic: topic, messages: partitions }];
    assert(produce.skip(1) =~= Seq::<MessageSetModel>::empty());
    assert(published(logs2, produce.skip(1), config, now) == Ok::<Seq<LogModel>, StoreError>(
        logs2,
    ));
    assert(published(logs, produce, config, now) == Ok::<Seq<LogModel>, StoreError>(logs2));
    // the fetch reads the whole log
    assert(twice.len() <= fetch_limit());
    assert(scanned(twice, 0, fetch_limit()) == twice);
    let fetch = seq![(topic, seq![(0u32, 0u64)])];
    let g = |t: (Seq<char>, Seq<(u32, u64)>)| fetched_topic(logs2, t);
    let found = (topic, fetched_records(twice));
    assert(g(fetch[0]) == Ok::<(Seq<char>, Seq<RecordModel>), StoreError>(found));
    assert(fetch.skip(1) =~= Seq::<(Seq<char>, Seq<(u32, u64)>)>::empty());
    assert(try_map(fetch.skip(1), g) == Ok::<Seq<(Seq<char>, Seq<RecordModel>)>, StoreError>(
        Seq::empty(),
    ));
    assert(seq![found] + Seq::<(Seq<char>, Seq<RecordModel>)>::empty() =~= seq![found]);
    assert(fetched(logs2, fetch) == Ok::<Seq<(Seq<char>, Seq<RecordModel>)>, StoreError>(
        seq![found],
    ));
    let k = choose|k: int|
        0 <= k < twice.len() && (#[trigger] twice[k]).key == Some(key) && twice[k].value
            == second.value;
    assert(found.1[k].1 == Some(key));
    assert forall|i: int, j: int|
        0 <= i < found.1.len() && 0 <= j < found.1.len() && (#[trigger] found.1[i]).1 == Some(key)
            && (#[trigger] found.1[j]).1 == Some(key) implies i == j by {
        assert(twice[i].key == Some(key));
        assert(twice[j].key == Some(key));
    }
}

} // verus!
