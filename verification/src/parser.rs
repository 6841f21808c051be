//! Requests and their wire decoding.
//!
//! A request is a header and a payload whose layout the header's API key and
//! version select. The grammar is stated as functions on byte sequences; each
//! decoder returns what its grammar function returns on the bytes it is given.

use crate::text::{lossy_string, text_of};
use crate::writer::lemma_u32s_deep_view;
use crate::wire::{from_be16, from_be32, from_be64, signed16, signed32, signed64};
use vstd::prelude::*;
use vstd::slice::slice_subrange;

verus! {

/// Why bytes are not a request.
#[derive(Debug, Clone, Copy, PartialEq, Eq, Structural)]
pub enum ParseError {
    /// The bytes end before the value does.
    Truncated,
    /// A length or count is negative, a size field disagrees with what it
    /// measures, or a message has a magic byte other than 1 or attributes
    /// other than 0.
    Invalid,
}

/// What a grammar function gives: the bytes left over and the value read, or
/// the reason for which there is none.
pub type Parsed<T> = Result<(Seq<u8>, T), ParseError>;

/// Whether a decoder's result is what the grammar gives.
pub open spec fn agrees<T: DeepView>(r: Result<(&[u8], T), ParseError>, p: Parsed<T::V>) -> bool {
    match r {
        Ok(done) => p == Ok::<(Seq<u8>, T::V), ParseError>((done.0@, done.1.deep_view())),
        Err(e) => p == Err::<(Seq<u8>, T::V), ParseError>(e),
    }
}

/// An unsigned 16-bit integer.
pub open spec fn p_u16(s: Seq<u8>) -> Parsed<u16> {
    if s.len() < 2 {
        Err(ParseError::Truncated)
    } else {
        Ok((s.skip(2), from_be16(s)))
    }
}

/// An unsigned 32-bit integer.
pub open spec fn p_u32(s: Seq<u8>) -> Parsed<u32> {
    if s.len() < 4 {
        Err(ParseError::Truncated)
    } else {
        Ok((s.skip(4), from_be32(s)))
    }
}

/// An unsigned 64-bit integer.
pub open spec fn p_u64(s: Seq<u8>) -> Parsed<u64> {
    if s.len() < 8 {
        Err(ParseError::Truncated)
    } else {
        Ok((s.skip(8), from_be64(s)))
    }
}

/// A signed 16-bit integer.
pub open spec fn p_i16(s: Seq<u8>) -> Parsed<i16> {
    if s.len() < 2 {
        Err(ParseError::Truncated)
    } else {
        Ok((s.skip(2), signed16(from_be16(s))))
    }
}

/// A signed 32-bit integer.
pub open spec fn p_i32(s: Seq<u8>) -> Parsed<i32> {
    if s.len() < 4 {
        Err(ParseError::Truncated)
    } else {
        Ok((s.skip(4), signed32(from_be32(s))))
    }
}

/// A signed 64-bit integer.
pub open spec fn p_i64(s: Seq<u8>) -> Parsed<i64> {
    if s.len() < 8 {
        Err(ParseError::Truncated)
    } else {
        Ok((s.skip(8), signed64(from_be64(s))))
    }
}

/// The next `n` bytes.
pub open spec fn p_take(s: Seq<u8>, n: nat) -> Parsed<Seq<u8>> {
    if s.len() < n {
        Err(ParseError::Truncated)
    } else {
        Ok((s.skip(n as int), s.take(n as int)))
    }
}

/// A nullable string: a signed 16-bit length, where -1 stands for null, and
/// that many bytes of text.
pub open spec fn p_opt_string(s: Seq<u8>) -> Parsed<Option<Seq<char>>> {
    match p_i16(s) {
        Err(e) => Err(e),
        Ok((rest, len)) => if len == -1 {
            Ok((rest, None))
        } else if len < 0 {
            Err(ParseError::Invalid)
        } else {
            match p_take(rest, len as nat) {
                Err(e) => Err(e),
                Ok((rest, bytes)) => Ok((rest, Some(text_of(bytes)))),
            }
        },
    }
}

/// A string; the null string reads as the empty one.
pub open spec fn p_string(s: Seq<u8>) -> Parsed<Seq<char>> {
    match p_opt_string(s) {
        Err(e) => Err(e),
        Ok((rest, Some(text))) => Ok((rest, text)),
        Ok((rest, None)) => Ok((rest, Seq::<char>::empty())),
    }
}

/// A nullable byte array: a signed 32-bit length, where -1 stands for null,
/// and that many bytes.
pub open spec fn p_opt_bytes(s: Seq<u8>) -> Parsed<Option<Seq<u8>>> {
    match p_i32(s) {
        Err(e) => Err(e),
        Ok((rest, len)) => if len == -1 {
            Ok((rest, None))
        } else if len < 0 {
            Err(ParseError::Invalid)
        } else {
            match p_take(rest, len as nat) {
                Err(e) => Err(e),
                Ok((rest, bytes)) => Ok((rest, Some(bytes))),
            }
        },
    }
}

/// The count of an array: a signed 32-bit integer, where -1 counts as 0.
pub open spec fn p_count(s: Seq<u8>) -> Parsed<nat> {
    match p_i32(s) {
        Err(e) => Err(e),
        Ok((rest, n)) => if n == -1 {
            Ok((rest, 0nat))
        } else if n < 0 {
            Err(ParseError::Invalid)
        } else {
            Ok((rest, n as nat))
        },
    }
}

/// `n` values of one grammar, one after the other.
pub open spec fn p_repeat<T>(s: Seq<u8>, n: nat, f: spec_fn(Seq<u8>) -> Parsed<T>) -> Parsed<
    Seq<T>,
>
    decreases n,
{
    if n == 0 {
        Ok((s, Seq::<T>::empty()))
    } else {
        match p_repeat(s, (n - 1) as nat, f) {
            Err(e) => Err(e),
            Ok((rest, items)) => match f(rest) {
                Err(e) => Err(e),
                Ok((rest, item)) => Ok((rest, items.push(item))),
            },
        }
    }
}

/// An array: its count, then that many values.
pub open spec fn p_array<T>(s: Seq<u8>, f: spec_fn(Seq<u8>) -> Parsed<T>) -> Parsed<Seq<T>> {
    match p_count(s) {
        Err(e) => Err(e),
        Ok((rest, n)) => p_repeat(rest, n, f),
    }
}

/// Once a value of an array cannot be read, the array cannot be read, for
/// the same reason.
pub proof fn lemma_repeat_fails<T>(s: Seq<u8>, k: nat, n: nat, f: spec_fn(Seq<u8>) -> Parsed<T>)
    requires
        k <= n,
        p_repeat(s, k, f) is Err,
    ensures
        p_repeat(s, n, f) == p_repeat(s, k, f),
    decreases n - k,
{
    if k < n {
        lemma_repeat_fails(s, k + 1, n, f);
    }
}

/// `nom::be_u16`: with fewer than two bytes there is no result; else the first
/// two bytes are read as a big-endian integer and the rest is handed back.
#[verifier::external_body]
fn be_u16(input: &[u8]) -> (r: Option<(&[u8], u16)>)
    ensures
        match r {
            Some(done) => input@.len() >= 2 && done.0@ == input@.skip(2) && done.1 == from_be16(
                input@,
            ),
            None => input@.len() < 2,
        },
{
    match nom::be_u16(input) {
        nom::IResult::Done(rest, v) => Some((rest, v)),
        nom::IResult::Error(_) => None,
        nom::IResult::Incomplete(_) => None,
    }
}

/// `nom::be_u32`: as `be_u16`, on four bytes.
#[verifier::external_body]
fn be_u32(input: &[u8]) -> (r: Option<(&[u8], u32)>)
    ensures
        match r {
            Some(done) => input@.len() >= 4 && done.0@ == input@.skip(4) && done.1 == from_be32(
                input@,
            ),
            None => input@.len() < 4,
        },
{
    match nom::be_u32(input) {
        nom::IResult::Done(rest, v) => Some((rest, v)),
        nom::IResult::Error(_) => None,
        nom::IResult::Incomplete(_) => None,
    }
}

/// `nom::be_u64`: as `be_u16`, on eight bytes.
#[verifier::external_body]
fn be_u64(input: &[u8]) -> (r: Option<(&[u8], u64)>)
    ensures
        match r {
            Some(done) => input@.len() >= 8 && done.0@ == input@.skip(8) && done.1 == from_be64(
                input@,
            ),
            None => input@.len() < 8,
        },
{
    match nom::be_u64(input) {
        nom::IResult::Done(rest, v) => Some((rest, v)),
        nom::IResult::Error(_) => None,
        nom::IResult::Incomplete(_) => None,
    }
}

/// `nom::be_i16`: what `be_u16` reads, taken as a two's complement integer.
#[verifier::external_body]
fn be_i16(input: &[u8]) -> (r: Option<(&[u8], i16)>)
    ensures
        match r {
            Some(done) => input@.len() >= 2 && done.0@ == input@.skip(2) && done.1 == signed16(
                from_be16(input@),
            ),
            None => input@.len() < 2,
        },
{
    match nom::be_i16(input) {
        nom::IResult::Done(rest, v) => Some((rest, v)),
        nom::IResult::Error(_) => None,
        nom::IResult::Incomplete(_) => None,
    }
}

/// `nom::be_i32`: what `be_u32` reads, taken as a two's complement integer.
#[verifier::external_body]
fn be_i32(input: &[u8]) -> (r: Option<(&[u8], i32)>)
    ensures
        match r {
            Some(done) => input@.len() >= 4 && done.0@ == input@.skip(4) && done.1 == signed32(
                from_be32(input@),
            ),
            None => input@.len() < 4,
        },
{
    match nom::be_i32(input) {
        nom::IResult::Done(rest, v) => Some((rest, v)),
        nom::IResult::Error(_) => None,
        nom::IResult::Incomplete(_) => None,
    }
}

/// `nom::be_i64`: what `be_u64` reads, taken as a two's complement integer.
#[verifier::external_body]
fn be_i64(input: &[u8]) -> (r: Option<(&[u8], i64)>)
    ensures
        match r {
            Some(done) => input@.len() >= 8 && done.0@ == input@.skip(8) && done.1 == signed64(
                from_be64(input@),
            ),
            None => input@.len() < 8,
        },
{
    match nom::be_i64(input) {
        nom::IResult::Done(rest, v) => Some((rest, v)),
        nom::IResult::Error(_) => None,
        nom::IResult::Incomplete(_) => None,
    }
}

fn u16_value(input: &[u8]) -> (r: Result<(&[u8], u16), ParseError>)
    ensures
        agrees(r, p_u16(input@)),
{
    match be_u16(input) {
        Some(done) => Ok(done),
        None => Err(ParseError::Truncated),
    }
}

fn u32_value(input: &[u8]) -> (r: Result<(&[u8], u32), ParseError>)
    ensures
        agrees(r, p_u32(input@)),
{
    match be_u32(input) {
        Some(done) => Ok(done),
        None => Err(ParseError::Truncated),
    }
}

fn u64_value(input: &[u8]) -> (r: Result<(&[u8], u64), ParseError>)
    ensures
        agrees(r, p_u64(input@)),
{
    match be_u64(input) {
        Some(done) => Ok(done),
        None => Err(ParseError::Truncated),
    }
}

fn i16_value(input: &[u8]) -> (r: Result<(&[u8], i16), ParseError>)
    ensures
        agrees(r, p_i16(input@)),
{
    match be_i16(input) {
        Some(done) => Ok(done),
        None => Err(ParseError::Truncated),
    }
}

fn i32_value(input: &[u8]) -> (r: Result<(&[u8], i32), ParseError>)
    ensures
        agrees(r, p_i32(input@)),
{
    match be_i32(input) {
        Some(done) => Ok(done),
        None => Err(ParseError::Truncated),
    }
}

fn i64_value(input: &[u8]) -> (r: Result<(&[u8], i64), ParseError>)
    ensures
        agrees(r, p_i64(input@)),
{
    match be_i64(input) {
        Some(done) => Ok(done),
        None => Err(ParseError::Truncated),
    }
}

/// Splits off the next `n` bytes.
fn take_bytes(input: &[u8], n: usize) -> (r: Result<(&[u8], &[u8]), ParseError>)
    ensures
        match r {
            Ok(done) => p_take(input@, n as nat) == Ok::<(Seq<u8>, Seq<u8>), ParseError>(
                (done.0@, done.1@),
            ),
            Err(e) => p_take(input@, n as nat) == Err::<(Seq<u8>, Seq<u8>), ParseError>(e),
        },
{
    if input.len() < n {
        Err(ParseError::Truncated)
    } else {
        let taken = slice_subrange(input, 0, n);
        let rest = slice_subrange(input, n, input.len());
        assert(taken@ =~= input@.take(n as int));
        assert(rest@ =~= input@.skip(n as int));
        Ok((rest, taken))
    }
}

/// The text that bytes of a request stand for.
pub fn kafka_string(input: &[u8]) -> (text: String)
    ensures
        text@ == text_of(input@),
{
    lossy_string(input)
}

fn opt_kafka_string(input: &[u8]) -> (r: Result<(&[u8], Option<String>), ParseError>)
    ensures
        agrees(r, p_opt_string(input@)),
{
    let (rest, len) = i16_value(input)?;
    if len == -1 {
        Ok((rest, None))
    } else if len < 0 {
        Err(ParseError::Invalid)
    } else {
        let (rest, bytes) = take_bytes(rest, len as usize)?;
        Ok((rest, Some(kafka_string(bytes))))
    }
}

fn required_string(input: &[u8]) -> (r: Result<(&[u8], String), ParseError>)
    ensures
        agrees(r, p_string(input@)),
{
    match opt_kafka_string(input)? {
        (rest, Some(text)) => Ok((rest, text)),
        (rest, None) => Ok((rest, String::new())),
    }
}

fn opt_kafka_bytes(input: &[u8]) -> (r: Result<(&[u8], Option<Vec<u8>>), ParseError>)
    ensures
        agrees(r, p_opt_bytes(input@)),
{
    let (rest, len) = i32_value(input)?;
    if len == -1 {
        Ok((rest, None))
    } else if len < 0 {
        Err(ParseError::Invalid)
    } else {
        let (rest, bytes) = take_bytes(rest, len as usize)?;
        let owned = vstd::slice::slice_to_vec(bytes);
        assert(owned.deep_view() =~= bytes@);
        Ok((rest, Some(owned)))
    }
}

/// The count of an array.
fn array_count(input: &[u8]) -> (r: Result<(&[u8], usize), ParseError>)
    ensures
        match r {
            Ok(done) => p_count(input@) == Ok::<(Seq<u8>, nat), ParseError>(
                (done.0@, done.1 as nat),
            ),
            Err(e) => p_count(input@) == Err::<(Seq<u8>, nat), ParseError>(e),
        },
{
    let (rest, n) = i32_value(input)?;
    if n == -1 {
        Ok((rest, 0))
    } else if n < 0 {
        Err(ParseError::Invalid)
    } else {
        Ok((rest, n as usize))
    }
}

/// Anything that is a request payload.
#[derive(Debug)]
pub enum ApiRequest {
    Publish { acks: u16, timeout: u32, topics: Vec<KafkaMessageSet> },
    Fetch { topics: Vec<(String, Vec<(u32, u64)>)> },
    Versions,
    Metadata { topics: Vec<String> },
    FindGroupCoordinator,
    JoinGroup {
        group_id: String,
        member_id: String,
        protocol_type: String,
        protocols: Vec<(String, Option<Vec<u8>>)>,
    },
    SyncGroup { group_id: String, member_id: String, assignments: Vec<Option<Vec<u8>>> },
    FetchOffsets { group_id: String, topics: Vec<TopicWithPartitions> },
    Offsets { topics: Vec<(String, Vec<(u32, i64)>)> },
    OffsetCommit { topics: Vec<TopicWithPartitions> },
    Heartbeat,
    LeaveGroup,
    /// A request whose API key, or whose version of it, the broker does not serve.
    Unknown,
}

#[derive(Debug)]
pub struct KafkaRequest {
    pub header: KafkaRequestHeader,
    pub req: ApiRequest,
}

#[derive(Debug)]
pub struct KafkaRequestHeader {
    pub opcode: i16,
    pub version: i16,
    pub correlation_id: i32,
    pub client_id: String,
}

/// The messages published to one topic, partition by partition.
#[derive(Debug)]
pub struct KafkaMessageSet {
    pub topic: String,
    pub messages: Vec<(u32, Vec<KafkaMessage>)>,
}

#[derive(Debug)]
pub struct KafkaMessage {
    pub partition: u32,
    pub timestamp: u64,
    pub key: Option<Vec<u8>>,
    pub value: Option<Vec<u8>>,
}

/// What a `KafkaMessage` says.
pub struct MessageModel {
    pub partition: u32,
    pub timestamp: u64,
    pub key: Option<Seq<u8>>,
    pub value: Option<Seq<u8>>,
}

/// What a `KafkaMessageSet` says.
pub struct MessageSetModel {
    pub topic: Seq<char>,
    pub messages: Seq<(u32, Seq<MessageModel>)>,
}

/// What a `KafkaRequestHeader` says.
pub struct HeaderModel {
    pub opcode: i16,
    pub version: i16,
    pub correlation_id: i32,
    pub client_id: Seq<char>,
}

/// What an `ApiRequest` says.
pub enum RequestModel {
    Publish { acks: u16, timeout: u32, topics: Seq<MessageSetModel> },
    Fetch { topics: Seq<(Seq<char>, Seq<(u32, u64)>)> },
    Versions,
    Metadata { topics: Seq<Seq<char>> },
    FindGroupCoordinator,
    JoinGroup {
        group_id: Seq<char>,
        member_id: Seq<char>,
        protocol_type: Seq<char>,
        protocols: Seq<(Seq<char>, Option<Seq<u8>>)>,
    },
    SyncGroup { group_id: Seq<char>, member_id: Seq<char>, assignments: Seq<Option<Seq<u8>>> },
    FetchOffsets { group_id: Seq<char>, topics: Seq<(Seq<char>, Seq<u32>)> },
    Offsets { topics: Seq<(Seq<char>, Seq<(u32, i64)>)> },
    OffsetCommit { topics: Seq<(Seq<char>, Seq<u32>)> },
    Heartbeat,
    LeaveGroup,
    Unknown,
}

/// What a `KafkaRequest` says.
pub struct KafkaRequestModel {
    pub header: HeaderModel,
    pub req: RequestModel,
}

impl DeepView for KafkaMessage {
    type V = MessageModel;

    open spec fn deep_view(&self) -> MessageModel {
        MessageModel {
            partition: self.partition,
            timestamp: self.timestamp,
            key: self.key.deep_view(),
            value: self.value.deep_view(),
        }
    }
}

impl DeepView for KafkaMessageSet {
    type V = MessageSetModel;

    open spec fn deep_view(&self) -> MessageSetModel {
        MessageSetModel { topic: self.topic@, messages: self.messages.deep_view() }
    }
}

impl DeepView for KafkaRequestHeader {
    type V = HeaderModel;

    open spec fn deep_view(&self) -> HeaderModel {
        HeaderModel {
            opcode: self.opcode,
            version: self.version,
            correlation_id: self.correlation_id,
            client_id: self.client_id@,
        }
    }
}

impl DeepView for ApiRequest {
    type V = RequestModel;

    open spec fn deep_view(&self) -> RequestModel {
        match self {
            ApiRequest::Publish { acks, timeout, topics } => RequestModel::Publish {
                acks: *acks,
                timeout: *timeout,
                topics: topics.deep_view(),
            },
            ApiRequest::Fetch { topics } => RequestModel::Fetch { topics: topics.deep_view() },
            ApiRequest::Versions => RequestModel::Versions,
            ApiRequest::Metadata { topics } => RequestModel::Metadata {
                topics: topics.deep_view(),
            },
            ApiRequest::FindGroupCoordinator => RequestModel::FindGroupCoordinator,
            ApiRequest::JoinGroup {
                group_id,
                member_id,
                protocol_type,
                protocols,
            } => RequestModel::JoinGroup {
                group_id: group_id@,
                member_id: member_id@,
                protocol_type: protocol_type@,
                protocols: protocols.deep_view(),
            },
            ApiRequest::SyncGroup { group_id, member_id, assignments } => RequestModel::SyncGroup {
                group_id: group_id@,
                member_id: member_id@,
                assignments: assignments.deep_view(),
            },
            ApiRequest::FetchOffsets { group_id, topics } => RequestModel::FetchOffsets {
                group_id: group_id@,
                topics: topics.deep_view(),
            },
            ApiRequest::Offsets { topics } => RequestModel::Offsets { topics: topics.deep_view() },
            ApiRequest::OffsetCommit { topics } => RequestModel::OffsetCommit {
                topics: topics.deep_view(),
            },
            ApiRequest::Heartbeat => RequestModel::Heartbeat,
            ApiRequest::LeaveGroup => RequestModel::LeaveGroup,
            ApiRequest::Unknown => RequestModel::Unknown,
        }
    }
}

impl DeepView for KafkaRequest {
    type V = KafkaRequestModel;

    open spec fn deep_view(&self) -> KafkaRequestModel {
        KafkaRequestModel { header: self.header.deep_view(), req: self.req.deep_view() }
    }
}

/// A topic name with the partitions a request names under it.
#[derive(Debug, Clone)]
pub struct TopicWithPartitions {
    pub name: String,
    pub partitions: Vec<u32>,
}

impl DeepView for TopicWithPartitions {
    type V = (Seq<char>, Seq<u32>);

    open spec fn deep_view(&self) -> (Seq<char>, Seq<u32>) {
        (self.name@, self.partitions@)
    }
}

impl TopicWithPartitions {
    pub fn new(name: String, partitions: Vec<u32>) -> (topic: TopicWithPartitions)
        ensures
            topic.name == name,
            topic.partitions == partitions,
    {
        TopicWithPartitions { name: name, partitions: partitions }
    }
}

/// The header of a request: API key, version, correlation id, client id.
pub open spec fn p_header(s: Seq<u8>) -> Parsed<HeaderModel> {
    match p_i16(s) {
        Err(e) => Err(e),
        Ok((rest, opcode)) => match p_i16(rest) {
            Err(e) => Err(e),
            Ok((rest, version)) => match p_i32(rest) {
                Err(e) => Err(e),
                Ok((rest, correlation_id)) => match p_string(rest) {
                    Err(e) => Err(e),
                    Ok((rest, client_id)) => Ok(
                        (
                            rest,
                            HeaderModel {
                                opcode: opcode,
                                version: version,
                                correlation_id: correlation_id,
                                client_id: client_id,
                            },
                        ),
                    ),
                },
            },
        },
    }
}

/// The payload of a metadata request: the topics asked about.
pub open spec fn p_metadata(s: Seq<u8>) -> Parsed<RequestModel> {
    match p_array(s, |s: Seq<u8>| p_string(s)) {
        Err(e) => Err(e),
        Ok((rest, topics)) => Ok((rest, RequestModel::Metadata { topics: topics })),
    }
}

fn request_header(input: &[u8]) -> (r: Result<(&[u8], KafkaRequestHeader), ParseError>)
    ensures
        agrees(r, p_header(input@)),
{
    let (rest, opcode) = i16_value(input)?;
    let (rest, version) = i16_value(rest)?;
    let (rest, correlation_id) = i32_value(rest)?;
    let (rest, client_id) = required_string(rest)?;
    Ok(
        (
            rest,
            KafkaRequestHeader {
                opcode: opcode,
                version: version,
                correlation_id: correlation_id,
                client_id: client_id,
            },
        ),
    )
}

fn strings(input: &[u8]) -> (r: Result<(&[u8], Vec<String>), ParseError>)
    ensures
        agrees(r, p_array(input@, |s: Seq<u8>| p_string(s))),
{
    let (body, n) = array_count(input)?;
    let mut rest = body;
    let mut items: Vec<String> = Vec::new();
    let mut i: usize = 0;
    assert(items.deep_view() =~= Seq::<Seq<char>>::empty());
    while i < n
        invariant
            i <= n,
            p_count(input@) == Ok::<(Seq<u8>, nat), ParseError>((body@, n as nat)),
            p_repeat(body@, i as nat, |s: Seq<u8>| p_string(s)) == Ok::<
                (Seq<u8>, Seq<Seq<char>>),
                ParseError,
            >((rest@, items.deep_view())),
        decreases n - i,
    {
        match required_string(rest) {
            Ok(done) => {
                let ghost before = items.deep_view();
                items.push(done.1);
                rest = done.0;
                assert(items.deep_view() =~= before.push(done.1.deep_view()));
            },
            Err(e) => {
                proof {
                    lemma_repeat_fails(body@, (i + 1) as nat, n as nat, |s: Seq<u8>| p_string(s));
                }
                return Err(e);
            },
        }
        i += 1;
    }
    Ok((rest, items))
}

fn metadata(input: &[u8]) -> (r: Result<(&[u8], ApiRequest), ParseError>)
    ensures
        agrees(r, p_metadata(input@)),
{
    let (rest, topics) = strings(input)?;
    Ok((rest, ApiRequest::Metadata { topics: topics }))
}

/// One partition of a fetch request: its number and the offset to read from;
/// the byte limit behind them is read and dropped.
pub open spec fn p_fetch_partition(s: Seq<u8>) -> Parsed<(u32, u64)> {
    match p_u32(s) {
        Err(e) => Err(e),
        Ok((rest, partition)) => match p_u64(rest) {
            Err(e) => Err(e),
            Ok((rest, offset)) => match p_i32(rest) {
                Err(e) => Err(e),
                Ok((rest, _)) => Ok((rest, (partition, offset))),
            },
        },
    }
}

/// One topic of a fetch request.
pub open spec fn p_fetch_topic(s: Seq<u8>) -> Parsed<(Seq<char>, Seq<(u32, u64)>)> {
    match p_string(s) {
        Err(e) => Err(e),
        Ok((rest, name)) => match p_array(rest, |s: Seq<u8>| p_fetch_partition(s)) {
            Err(e) => Err(e),
            Ok((rest, partitions)) => Ok((rest, (name, partitions))),
        },
    }
}

/// What stands before the topics of a fetch request: replica id, maximum
/// wait and minimum bytes, and from version 3 on a byte limit. All are read
/// and dropped.
pub open spec fn p_fetch_preamble(s: Seq<u8>, version: i16) -> Parsed<()> {
    match p_i32(s) {
        Err(e) => Err(e),
        Ok((rest, _)) => match p_i32(rest) {
            Err(e) => Err(e),
            Ok((rest, _)) => match p_i32(rest) {
                Err(e) => Err(e),
                Ok((rest, _)) => if version >= 3 {
                    match p_i32(rest) {
                        Err(e) => Err(e),
                        Ok((rest, _)) => Ok((rest, ())),
                    }
                } else {
                    Ok((rest, ()))
                },
            },
        },
    }
}

/// The payload of a fetch request of the given version.
pub open spec fn p_fetch(s: Seq<u8>, version: i16) -> Parsed<RequestModel> {
    match p_fetch_preamble(s, version) {
        Err(e) => Err(e),
        Ok((rest, _)) => match p_array(rest, |s: Seq<u8>| p_fetch_topic(s)) {
            Err(e) => Err(e),
            Ok((rest, topics)) => Ok((rest, RequestModel::Fetch { topics: topics })),
        },
    }
}

/// One partition of a list-offsets request: its number and the timestamp asked
/// for.
pub open spec fn p_listed_partition(s: Seq<u8>) -> Parsed<(u32, i64)> {
    match p_u32(s) {
        Err(e) => Err(e),
        Ok((rest, partition)) => match p_i64(rest) {
            Err(e) => Err(e),
            Ok((rest, timestamp)) => Ok((rest, (partition, timestamp))),
        },
    }
}

/// One topic of a list-offsets request.
pub open spec fn p_listed_topic(s: Seq<u8>) -> Parsed<(Seq<char>, Seq<(u32, i64)>)> {
    match p_string(s) {
        Err(e) => Err(e),
        Ok((rest, name)) => match p_array(rest, |s: Seq<u8>| p_listed_partition(s)) {
            Err(e) => Err(e),
            Ok((rest, partitions)) => Ok((rest, (name, partitions))),
        },
    }
}

/// The payload of a list-offsets request: a replica id, read and dropped, and
/// the topics.
pub open spec fn p_offsets(s: Seq<u8>) -> Parsed<RequestModel> {
    match p_i32(s) {
        Err(e) => Err(e),
        Ok((rest, _)) => match p_array(rest, |s: Seq<u8>| p_listed_topic(s)) {
            Err(e) => Err(e),
            Ok((rest, topics)) => Ok((rest, RequestModel::Offsets { topics: topics })),
        },
    }
}

/// One partition of an offset-commit request: its number; the offset and the
/// metadata behind it are read and dropped.
pub open spec fn p_commit_partition(s: Seq<u8>) -> Parsed<u32> {
    match p_u32(s) {
        Err(e) => Err(e),
        Ok((rest, partition)) => match p_i64(rest) {
            Err(e) => Err(e),
            Ok((rest, _)) => match p_opt_string(rest) {
                Err(e) => Err(e),
                Ok((rest, _)) => Ok((rest, partition)),
            },
        },
    }
}

/// One topic of an offset-commit request.
pub open spec fn p_commit_topic(s: Seq<u8>) -> Parsed<(Seq<char>, Seq<u32>)> {
    match p_string(s) {
        Err(e) => Err(e),
        Ok((rest, name)) => match p_array(rest, |s: Seq<u8>| p_commit_partition(s)) {
            Err(e) => Err(e),
            Ok((rest, partitions)) => Ok((rest, (name, partitions))),
        },
    }
}

/// The payload of an offset-commit request: group id, generation, member id and
/// retention time, all read and dropped, and the topics.
pub open spec fn p_offset_commit(s: Seq<u8>) -> Parsed<RequestModel> {
    match p_string(s) {
        Err(e) => Err(e),
        Ok((rest, _)) => match p_i32(rest) {
            Err(e) => Err(e),
            Ok((rest, _)) => match p_string(rest) {
                Err(e) => Err(e),
                Ok((rest, _)) => match p_i64(rest) {
                    Err(e) => Err(e),
                    Ok((rest, _)) => match p_array(rest, |s: Seq<u8>| p_commit_topic(s)) {
                        Err(e) => Err(e),
                        Ok((rest, topics)) => Ok(
                            (rest, RequestModel::OffsetCommit { topics: topics }),
                        ),
                    },
                },
            },
        },
    }
}

/// One topic of an offset-fetch request: its name and partition numbers.
pub open spec fn p_partitions_topic(s: Seq<u8>) -> Parsed<(Seq<char>, Seq<u32>)> {
    match p_string(s) {
        Err(e) => Err(e),
        Ok((rest, name)) => match p_array(rest, |s: Seq<u8>| p_u32(s)) {
            Err(e) => Err(e),
            Ok((rest, partitions)) => Ok((rest, (name, partitions))),
        },
    }
}

/// The payload of an offset-fetch request: the group and the topics.
pub open spec fn p_fetch_offsets(s: Seq<u8>) -> Parsed<RequestModel> {
    match p_string(s) {
        Err(e) => Err(e),
        Ok((rest, group_id)) => match p_array(rest, |s: Seq<u8>| p_partitions_topic(s)) {
            Err(e) => Err(e),
            Ok((rest, topics)) => Ok(
                (rest, RequestModel::FetchOffsets { group_id: group_id, topics: topics }),
            ),
        },
    }
}

/// One protocol a member offers: its name and its metadata.
pub open spec fn p_protocol(s: Seq<u8>) -> Parsed<(Seq<char>, Option<Seq<u8>>)> {
    match p_string(s) {
        Err(e) => Err(e),
        Ok((rest, name)) => match p_opt_bytes(rest) {
            Err(e) => Err(e),
            Ok((rest, metadata)) => Ok((rest, (name, metadata))),
        },
    }
}

/// The payload of a join-group request: group id, session and rebalance
/// timeouts (read and dropped), member id, protocol type and the protocols
/// offered.
pub open spec fn p_join_group(s: Seq<u8>) -> Parsed<RequestModel> {
    match p_string(s) {
        Err(e) => Err(e),
        Ok((rest, group_id)) => match p_i32(rest) {
            Err(e) => Err(e),
            Ok((rest, _)) => match p_i32(rest) {
                Err(e) => Err(e),
                Ok((rest, _)) => match p_string(rest) {
                    Err(e) => Err(e),
                    Ok((rest, member_id)) => match p_string(rest) {
                        Err(e) => Err(e),
                        Ok((rest, protocol_type)) => match p_array(
                            rest,
                            |s: Seq<u8>| p_protocol(s),
                        ) {
                            Err(e) => Err(e),
                            Ok((rest, protocols)) => Ok(
                                (
                                    rest,
                                    RequestModel::JoinGroup {
                                        group_id: group_id,
                                        member_id: member_id,
                                        protocol_type: protocol_type,
                                        protocols: protocols,
                                    },
                                ),
                            ),
                        },
                    },
                },
            },
        },
    }
}

/// One assignment of a sync-group request: the member it is for, read and
/// dropped, and the assignment.
pub open spec fn p_assignment(s: Seq<u8>) -> Parsed<Option<Seq<u8>>> {
    match p_string(s) {
        Err(e) => Err(e),
        Ok((rest, _)) => match p_opt_bytes(rest) {
            Err(e) => Err(e),
            Ok((rest, assignment)) => Ok((rest, assignment)),
        },
    }
}

/// The payload of a sync-group request: group id, generation (read and
/// dropped), member id and the assignments.
pub open spec fn p_sync_group(s: Seq<u8>) -> Parsed<RequestModel> {
    match p_string(s) {
        Err(e) => Err(e),
        Ok((rest, group_id)) => match p_i32(rest) {
            Err(e) => Err(e),
            Ok((rest, _)) => match p_string(rest) {
                Err(e) => Err(e),
                Ok((rest, member_id)) => match p_array(rest, |s: Seq<u8>| p_assignment(s)) {
                    Err(e) => Err(e),
                    Ok((rest, assignments)) => Ok(
                        (
                            rest,
                            RequestModel::SyncGroup {
                                group_id: group_id,
                                member_id: member_id,
                                assignments: assignments,
                            },
                        ),
                    ),
                },
            },
        },
    }
}

fn fetch_partition(input: &[u8]) -> (r: Result<(&[u8], (u32, u64)), ParseError>)
    ensures
        agrees(r, p_fetch_partition(input@)),
{
    let (rest, partition) = u32_value(input)?;
    let (rest, offset) = u64_value(rest)?;
    let (rest, _) = i32_value(rest)?;
    Ok((rest, (partition, offset)))
}

fn fetch_partitions(input: &[u8]) -> (r: Result<(&[u8], Vec<(u32, u64)>), ParseError>)
    ensures
        agrees(r, p_array(input@, |s: Seq<u8>| p_fetch_partition(s))),
{
    let (body, n) = array_count(input)?;
    let mut rest = body;
    let mut items: Vec<(u32, u64)> = Vec::new();
    let mut i: usize = 0;
    assert(items.deep_view() =~= Seq::<(u32, u64)>::empty());
    while i < n
        invariant
            i <= n,
            p_count(input@) == Ok::<(Seq<u8>, nat), ParseError>((body@, n as nat)),
            p_repeat(body@, i as nat, |s: Seq<u8>| p_fetch_partition(s)) == Ok::<
                (Seq<u8>, Seq<(u32, u64)>),
                ParseError,
            >((rest@, items.deep_view())),
        decreases n - i,
    {
        match fetch_partition(rest) {
            Ok(done) => {
                let ghost before = items.deep_view();
                items.push(done.1);
                rest = done.0;
                assert(items.deep_view() =~= before.push(done.1.deep_view()));
            },
            Err(e) => {
                proof {
                    lemma_repeat_fails(
                        body@,
                        (i + 1) as nat,
                        n as nat,
                        |s: Seq<u8>| p_fetch_partition(s),
                    );
                }
                return Err(e);
            },
        }
        i += 1;
    }
    Ok((rest, items))
}

fn fetch_topic(input: &[u8]) -> (r: Result<(&[u8], (String, Vec<(u32, u64)>)), ParseError>)
    ensures
        agrees(r, p_fetch_topic(input@)),
{
    let (rest, name) = required_string(input)?;
    let (rest, partitions) = fetch_partitions(rest)?;
    Ok((rest, (name, partitions)))
}

fn fetch_topics(input: &[u8]) -> (r: Result<(&[u8], Vec<(String, Vec<(u32, u64)>)>), ParseError>)
    ensures
        agrees(r, p_array(input@, |s: Seq<u8>| p_fetch_topic(s))),
{
    let (body, n) = array_count(input)?;
    let mut rest = body;
    let mut items: Vec<(String, Vec<(u32, u64)>)> = Vec::new();
    let mut i: usize = 0;
    assert(items.deep_view() =~= Seq::<(Seq<char>, Seq<(u32, u64)>)>::empty());
    while i < n
        invariant
            i <= n,
            p_count(input@) == Ok::<(Seq<u8>, nat), ParseError>((body@, n as nat)),
            p_repeat(body@, i as nat, |s: Seq<u8>| p_fetch_topic(s)) == Ok::<
                (Seq<u8>, Seq<(Seq<char>, Seq<(u32, u64)>)>),
                ParseError,
            >((rest@, items.deep_view())),
        decreases n - i,
    {
        match fetch_topic(rest) {
            Ok(done) => {
                let ghost before = items.deep_view();
                items.push(done.1);
                rest = done.0;
                assert(items.deep_view() =~= before.push(done.1.deep_view()));
            },
            Err(e) => {
                proof {
                    lemma_repeat_fails(
                        body@,
                        (i + 1) as nat,
                        n as nat,
                        |s: Seq<u8>| p_fetch_topic(s),
                    );
                }
                return Err(e);
            },
        }
        i += 1;
    }
    Ok((rest, items))
}

fn fetch_preamble(input: &[u8], version: i16) -> (r: Result<(&[u8], ()), ParseError>)
    ensures
        agrees(r, p_fetch_preamble(input@, version)),
{
    let (rest, _) = i32_value(input)?;
    let (rest, _) = i32_value(rest)?;
    let (rest, _) = i32_value(rest)?;
    if version >= 3 {
        let (rest, _) = i32_value(rest)?;
        Ok((rest, ()))
    } else {
        Ok((rest, ()))
    }
}

fn fetch(input: &[u8], version: i16) -> (r: Result<(&[u8], ApiRequest), ParseError>)
    ensures
        agrees(r, p_fetch(input@, version)),
{
    let (rest, _) = fetch_preamble(input, version)?;
    let (rest, topics) = fetch_topics(rest)?;
    Ok((rest, ApiRequest::Fetch { topics: topics }))
}

fn listed_partition(input: &[u8]) -> (r: Result<(&[u8], (u32, i64)), ParseError>)
    ensures
        agrees(r, p_listed_partition(input@)),
{
    let (rest, partition) = u32_value(input)?;
    let (rest, timestamp) = i64_value(rest)?;
    Ok((rest, (partition, timestamp)))
}

fn listed_partitions(input: &[u8]) -> (r: Result<(&[u8], Vec<(u32, i64)>), ParseError>)
    ensures
        agrees(r, p_array(input@, |s: Seq<u8>| p_listed_partition(s))),
{
    let (body, n) = array_count(input)?;
    let mut rest = body;
    let mut items: Vec<(u32, i64)> = Vec::new();
    let mut i: usize = 0;
    assert(items.deep_view() =~= Seq::<(u32, i64)>::empty());
    while i < n
        invariant
            i <= n,
            p_count(input@) == Ok::<(Seq<u8>, nat), ParseError>((body@, n as nat)),
            p_repeat(body@, i as nat, |s: Seq<u8>| p_listed_partition(s)) == Ok::<
                (Seq<u8>, Seq<(u32, i64)>),
                ParseError,
            >((rest@, items.deep_view())),
        decreases n - i,
    {
        match listed_partition(rest) {
            Ok(done) => {
                let ghost before = items.deep_view();
                items.push(done.1);
                rest = done.0;
                assert(items.deep_view() =~= before.push(done.1.deep_view()));
            },
            Err(e) => {
                proof {
                    lemma_repeat_fails(
                        body@,
                        (i + 1) as nat,
                        n as nat,
                        |s: Seq<u8>| p_listed_partition(s),
                    );
                }
                return Err(e);
            },
        }
        i += 1;
    }
    Ok((rest, items))
}

fn listed_topic(input: &[u8]) -> (r: Result<(&[u8], (String, Vec<(u32, i64)>)), ParseError>)
    ensures
        agrees(r, p_listed_topic(input@)),
{
    let (rest, name) = required_string(input)?;
    let (rest, partitions) = listed_partitions(rest)?;
    Ok((rest, (name, partitions)))
}

fn listed_topics(input: &[u8]) -> (r: Result<(&[u8], Vec<(String, Vec<(u32, i64)>)>), ParseError>)
    ensures
        agrees(r, p_array(input@, |s: Seq<u8>| p_listed_topic(s))),
{
    let (body, n) = array_count(input)?;
    let mut rest = body;
    let mut items: Vec<(String, Vec<(u32, i64)>)> = Vec::new();
    let mut i: usize = 0;
    assert(items.deep_view() =~= Seq::<(Seq<char>, Seq<(u32, i64)>)>::empty());
    while i < n
        invariant
            i <= n,
            p_count(input@) == Ok::<(Seq<u8>, nat), ParseError>((body@, n as nat)),
            p_repeat(body@, i as nat, |s: Seq<u8>| p_listed_topic(s)) == Ok::<
                (Seq<u8>, Seq<(Seq<char>, Seq<(u32, i64)>)>),
                ParseError,
            >((rest@, items.deep_view())),
        decreases n - i,
    {
        match listed_topic(rest) {
            Ok(done) => {
                let ghost before = items.deep_view();
                items.push(done.1);
                rest = done.0;
                assert(items.deep_view() =~= before.push(done.1.deep_view()));
            },
            Err(e) => {
                proof {
                    lemma_repeat_fails(
                        body@,
                        (i + 1) as nat,
                        n as nat,
                        |s: Seq<u8>| p_listed_topic(s),
                    );
                }
                return Err(e);
            },
        }
        i += 1;
    }
    Ok((rest, items))
}

fn offsets(input: &[u8]) -> (r: Result<(&[u8], ApiRequest), ParseError>)
    ensures
        agrees(r, p_offsets(input@)),
{
    let (rest, _) = i32_value(input)?;
    let (rest, topics) = listed_topics(rest)?;
    Ok((rest, ApiRequest::Offsets { topics: topics }))
}

fn commit_partition(input: &[u8]) -> (r: Result<(&[u8], u32), ParseError>)
    ensures
        agrees(r, p_commit_partition(input@)),
{
    let (rest, partition) = u32_value(input)?;
    let (rest, _) = i64_value(rest)?;
    let (rest, _) = opt_kafka_string(rest)?;
    Ok((rest, partition))
}

fn commit_partitions(input: &[u8]) -> (r: Result<(&[u8], Vec<u32>), ParseError>)
    ensures
        agrees(r, p_array(input@, |s: Seq<u8>| p_commit_partition(s))),
{
    let (body, n) = array_count(input)?;
    let mut rest = body;
    let mut items: Vec<u32> = Vec::new();
    let mut i: usize = 0;
    assert(items.deep_view() =~= Seq::<u32>::empty());
    while i < n
        invariant
            i <= n,
            p_count(input@) == Ok::<(Seq<u8>, nat), ParseError>((body@, n as nat)),
            p_repeat(body@, i as nat, |s: Seq<u8>| p_commit_partition(s)) == Ok::<
                (Seq<u8>, Seq<u32>),
                ParseError,
            >((rest@, items.deep_view())),
        decreases n - i,
    {
        match commit_partition(rest) {
            Ok(done) => {
                let ghost before = items.deep_view();
                items.push(done.1);
                rest = done.0;
                assert(items.deep_view() =~= before.push(done.1.deep_view()));
            },
            Err(e) => {
                proof {
                    lemma_repeat_fails(
                        body@,
                        (i + 1) as nat,
                        n as nat,
                        |s: Seq<u8>| p_commit_partition(s),
                    );
                }
                return Err(e);
            },
        }
        i += 1;
    }
    Ok((rest, items))
}

fn commit_topic(input: &[u8]) -> (r: Result<(&[u8], TopicWithPartitions), ParseError>)
    ensures
        agrees(r, p_commit_topic(input@)),
{
    let (rest, name) = required_string(input)?;
    let (rest, partitions) = commit_partitions(rest)?;
    proof {
        lemma_u32s_deep_view(partitions);
    }
    Ok((rest, TopicWithPartitions::new(name, partitions)))
}

fn commit_topics(input: &[u8]) -> (r: Result<(&[u8], Vec<TopicWithPartitions>), ParseError>)
    ensures
        agrees(r, p_array(input@, |s: Seq<u8>| p_commit_topic(s))),
{
    let (body, n) = array_count(input)?;
    let mut rest = body;
    let mut items: Vec<TopicWithPartitions> = Vec::new();
    let mut i: usize = 0;
    assert(items.deep_view() =~= Seq::<(Seq<char>, Seq<u32>)>::empty());
    while i < n
        invariant
            i <= n,
            p_count(input@) == Ok::<(Seq<u8>, nat), ParseError>((body@, n as nat)),
            p_repeat(body@, i as nat, |s: Seq<u8>| p_commit_topic(s)) == Ok::<
                (Seq<u8>, Seq<(Seq<char>, Seq<u32>)>),
                ParseError,
            >((rest@, items.deep_view())),
        decreases n - i,
    {
        match commit_topic(rest) {
            Ok(done) => {
                let ghost before = items.deep_view();
                items.push(done.1);
                rest = done.0;
                assert(items.deep_view() =~= before.push(done.1.deep_view()));
            },
            Err(e) => {
                proof {
                    lemma_repeat_fails(
                        body@,
                        (i + 1) as nat,
                        n as nat,
                        |s: Seq<u8>| p_commit_topic(s),
                    );
                }
                return Err(e);
            },
        }
        i += 1;
    }
    Ok((rest, items))
}

fn offset_commit(input: &[u8]) -> (r: Result<(&[u8], ApiRequest), ParseError>)
    ensures
        agrees(r, p_offset_commit(input@)),
{
    let (rest, _) = required_string(input)?;
    let (rest, _) = i32_value(rest)?;
    let (rest, _) = required_string(rest)?;
    let (rest, _) = i64_value(rest)?;
    let (rest, topics) = commit_topics(rest)?;
    Ok((rest, ApiRequest::OffsetCommit { topics: topics }))
}

fn partition_numbers(input: &[u8]) -> (r: Result<(&[u8], Vec<u32>), ParseError>)
    ensures
        agrees(r, p_array(input@, |s: Seq<u8>| p_u32(s))),
{
    let (body, n) = array_count(input)?;
    let mut rest = body;
    let mut items: Vec<u32> = Vec::new();
    let mut i: usize = 0;
    assert(items.deep_view() =~= Seq::<u32>::empty());
    while i < n
        invariant
            i <= n,
            p_count(input@) == Ok::<(Seq<u8>, nat), ParseError>((body@, n as nat)),
            p_repeat(body@, i as nat, |s: Seq<u8>| p_u32(s)) == Ok::<
                (Seq<u8>, Seq<u32>),
                ParseError,
            >((rest@, items.deep_view())),
        decreases n - i,
    {
        match u32_value(rest) {
            Ok(done) => {
                let ghost before = items.deep_view();
                items.push(done.1);
                rest = done.0;
                assert(items.deep_view() =~= before.push(done.1.deep_view()));
            },
            Err(e) => {
                proof {
                    lemma_repeat_fails(body@, (i + 1) as nat, n as nat, |s: Seq<u8>| p_u32(s));
                }
                return Err(e);
            },
        }
        i += 1;
    }
    Ok((rest, items))
}

fn partitions_topic(input: &[u8]) -> (r: Result<(&[u8], TopicWithPartitions), ParseError>)
    ensures
        agrees(r, p_partitions_topic(input@)),
{
    let (rest, name) = required_string(input)?;
    let (rest, partitions) = partition_numbers(rest)?;
    proof {
        lemma_u32s_deep_view(partitions);
    }
    Ok((rest, TopicWithPartitions::new(name, partitions)))
}

fn partitions_topics(input: &[u8]) -> (r: Result<(&[u8], Vec<TopicWithPartitions>), ParseError>)
    ensures
        agrees(r, p_array(input@, |s: Seq<u8>| p_partitions_topic(s))),
{
    let (body, n) = array_count(input)?;
    let mut rest = body;
    let mut items: Vec<TopicWithPartitions> = Vec::new();
    let mut i: usize = 0;
    assert(items.deep_view() =~= Seq::<(Seq<char>, Seq<u32>)>::empty());
    while i < n
        invariant
            i <= n,
            p_count(input@) == Ok::<(Seq<u8>, nat), ParseError>((body@, n as nat)),
            p_repeat(body@, i as nat, |s: Seq<u8>| p_partitions_topic(s)) == Ok::<
                (Seq<u8>, Seq<(Seq<char>, Seq<u32>)>),
                ParseError,
            >((rest@, items.deep_view())),
        decreases n - i,
    {
        match partitions_topic(rest) {
            Ok(done) => {
                let ghost before = items.deep_view();
                items.push(done.1);
                rest = done.0;
                assert(items.deep_view() =~= before.push(done.1.deep_view()));
            },
            Err(e) => {
                proof {
                    lemma_repeat_fails(
                        body@,
                        (i + 1) as nat,
                        n as nat,
                        |s: Seq<u8>| p_partitions_topic(s),
                    );
                }
                return Err(e);
            },
        }
        i += 1;
    }
    Ok((rest, items))
}

fn fetch_offset(input: &[u8]) -> (r: Result<(&[u8], ApiRequest), ParseError>)
    ensures
        agrees(r, p_fetch_offsets(input@)),
{
    let (rest, group_id) = required_string(input)?;
    let (rest, topics) = partitions_topics(rest)?;
    Ok((rest, ApiRequest::FetchOffsets { group_id: group_id, topics: topics }))
}

fn protocol(input: &[u8]) -> (r: Result<(&[u8], (String, Option<Vec<u8>>)), ParseError>)
    ensures
        agrees(r, p_protocol(input@)),
{
    let (rest, name) = required_string(input)?;
    let (rest, metadata) = opt_kafka_bytes(rest)?;
    Ok((rest, (name, metadata)))
}

fn protocols(input: &[u8]) -> (r: Result<(&[u8], Vec<(String, Option<Vec<u8>>)>), ParseError>)
    ensures
        agrees(r, p_array(input@, |s: Seq<u8>| p_protocol(s))),
{
    let (body, n) = array_count(input)?;
    let mut rest = body;
    let mut items: Vec<(String, Option<Vec<u8>>)> = Vec::new();
    let mut i: usize = 0;
    assert(items.deep_view() =~= Seq::<(Seq<char>, Option<Seq<u8>>)>::empty());
    while i < n
        invariant
            i <= n,
            p_count(input@) == Ok::<(Seq<u8>, nat), ParseError>((body@, n as nat)),
            p_repeat(body@, i as nat, |s: Seq<u8>| p_protocol(s)) == Ok::<
                (Seq<u8>, Seq<(Seq<char>, Option<Seq<u8>>)>),
                ParseError,
            >((rest@, items.deep_view())),
        decreases n - i,
    {
        match protocol(rest) {
            Ok(done) => {
                let ghost before = items.deep_view();
                items.push(done.1);
                rest = done.0;
                assert(items.deep_view() =~= before.push(done.1.deep_view()));
            },
            Err(e) => {
                proof {
                    lemma_repeat_fails(body@, (i + 1) as nat, n as nat, |s: Seq<u8>| p_protocol(s));
                }
                return Err(e);
            },
        }
        i += 1;
    }
    Ok((rest, items))
}

fn join_group(input: &[u8]) -> (r: Result<(&[u8], ApiRequest), ParseError>)
    ensures
        agrees(r, p_join_group(input@)),
{
    let (rest, group_id) = required_string(input)?;
    let (rest, _) = i32_value(rest)?;
    let (rest, _) = i32_value(rest)?;
    let (rest, member_id) = required_string(rest)?;
    let (rest, protocol_type) = required_string(rest)?;
    let (rest, protocols) = protocols(rest)?;
    Ok(
        (
            rest,
            ApiRequest::JoinGroup {
                group_id: group_id,
                member_id: member_id,
                protocol_type: protocol_type,
                protocols: protocols,
            },
        ),
    )
}

fn assignment(input: &[u8]) -> (r: Result<(&[u8], Option<Vec<u8>>), ParseError>)
    ensures
        agrees(r, p_assignment(input@)),
{
    let (rest, _) = required_string(input)?;
    let (rest, assignment) = opt_kafka_bytes(rest)?;
    Ok((rest, assignment))
}

fn assignments(input: &[u8]) -> (r: Result<(&[u8], Vec<Option<Vec<u8>>>), ParseError>)
    ensures
        agrees(r, p_array(input@, |s: Seq<u8>| p_assignment(s))),
{
    let (body, n) = array_count(input)?;
    let mut rest = body;
    let mut items: Vec<Option<Vec<u8>>> = Vec::new();
    let mut i: usize = 0;
    assert(items.deep_view() =~= Seq::<Option<Seq<u8>>>::empty());
    while i < n
        invariant
            i <= n,
            p_count(input@) == Ok::<(Seq<u8>, nat), ParseError>((body@, n as nat)),
            p_repeat(body@, i as nat, |s: Seq<u8>| p_assignment(s)) == Ok::<
                (Seq<u8>, Seq<Option<Seq<u8>>>),
                ParseError,
            >((rest@, items.deep_view())),
        decreases n - i,
    {
        match assignment(rest) {
            Ok(done) => {
                let ghost before = items.deep_view();
                items.push(done.1);
                rest = done.0;
                assert(items.deep_view() =~= before.push(done.1.deep_view()));
            },
            Err(e) => {
                proof {
                    lemma_repeat_fails(
                        body@,
                        (i + 1) as nat,
                        n as nat,
                        |s: Seq<u8>| p_assignment(s),
                    );
                }
                return Err(e);
            },
        }
        i += 1;
    }
    Ok((rest, items))
}

fn sync_group(input: &[u8]) -> (r: Result<(&[u8], ApiRequest), ParseError>)
    ensures
        agrees(r, p_sync_group(input@)),
{
    let (rest, group_id) = required_string(input)?;
    let (rest, _) = i32_value(rest)?;
    let (rest, member_id) = required_string(rest)?;
    let (rest, assignments) = assignments(rest)?;
    Ok(
        (
            rest,
            ApiRequest::SyncGroup {
                group_id: group_id,
                member_id: member_id,
                assignments: assignments,
            },
        ),
    )
}

/// One byte that has to be `expected`.
pub open spec fn p_tag(s: Seq<u8>, expected: u8) -> Parsed<()> {
    if s.len() < 1 {
        Err(ParseError::Truncated)
    } else if s[0] != expected {
        Err(ParseError::Invalid)
    } else {
        Ok((s.skip(1), ()))
    }
}

/// What the size field of a message measures: a checksum, which is read and
/// dropped, the magic byte 1, the attributes 0, the timestamp, the key and the
/// value.
pub open spec fn p_message_fields(s: Seq<u8>, partition: u32) -> Parsed<MessageModel> {
    match p_u32(s) {
        Err(e) => Err(e),
        Ok((rest, _)) => match p_tag(rest, 1) {
            Err(e) => Err(e),
            Ok((rest, _)) => match p_tag(rest, 0) {
                Err(e) => Err(e),
                Ok((rest, _)) => match p_u64(rest) {
                    Err(e) => Err(e),
                    Ok((rest, timestamp)) => match p_opt_bytes(rest) {
                        Err(e) => Err(e),
                        Ok((rest, key)) => match p_opt_bytes(rest) {
                            Err(e) => Err(e),
                            Ok((rest, value)) => Ok(
                                (
                                    rest,
                                    MessageModel {
                                        partition: partition,
                                        timestamp: timestamp,
                                        key: key,
                                        value: value,
                                    },
                                ),
                            ),
                        },
                    },
                },
            },
        },
    }
}

/// One message of a message set: an offset, which is read and dropped, the
/// size of what follows, and the fields, which have to take up exactly that size.
#[verifier::opaque]
pub open spec fn p_message(s: Seq<u8>, partition: u32) -> Parsed<MessageModel> {
    match p_u64(s) {
        Err(e) => Err(e),
        Ok((rest, _)) => match p_i32(rest) {
            Err(e) => Err(e),
            Ok((fields, size)) => if size < 0 {
                Err(ParseError::Invalid)
            } else {
                match p_message_fields(fields, partition) {
                    Err(e) => Err(e),
                    Ok((rest, message)) => if fields.len() - rest.len() == size {
                        Ok((rest, message))
                    } else {
                        Err(ParseError::Invalid)
                    },
                }
            },
        },
    }
}

/// A message set: messages back to back until the bytes are used up.
pub open spec fn p_messages(s: Seq<u8>, partition: u32) -> Result<Seq<MessageModel>, ParseError>
    decreases s.len(),
{
    if s.len() == 0 {
        Ok(Seq::<MessageModel>::empty())
    } else {
        proof {
            lemma_message_consumes(s, partition);
        }
        match p_message(s, partition) {
            Err(e) => Err(e),
            Ok((rest, message)) => match p_messages(rest, partition) {
                Err(e) => Err(e),
                Ok(messages) => Ok(seq![message] + messages),
            },
        }
    }
}

/// The messages for one partition: the partition number, the length of the
/// message set in bytes, and the message set, which is read from exactly
/// those bytes.
pub open spec fn p_partition_messages(s: Seq<u8>) -> Parsed<(u32, Seq<MessageModel>)> {
    match p_u32(s) {
        Err(e) => Err(e),
        Ok((rest, partition)) => match p_i32(rest) {
            Err(e) => Err(e),
            Ok((rest, set_bytes)) => if set_bytes < 0 {
                Err(ParseError::Invalid)
            } else {
                match p_take(rest, set_bytes as nat) {
                    Err(e) => Err(e),
                    Ok((rest, set)) => match p_messages(set, partition) {
                        Err(e) => Err(e),
                        Ok(messages) => Ok((rest, (partition, messages))),
                    },
                }
            },
        },
    }
}

/// One topic of a produce request.
pub open spec fn p_publish_topic(s: Seq<u8>) -> Parsed<MessageSetModel> {
    match p_string(s) {
        Err(e) => Err(e),
        Ok((rest, topic)) => match p_array(rest, |s: Seq<u8>| p_partition_messages(s)) {
            Err(e) => Err(e),
            Ok((rest, messages)) => Ok(
                (rest, MessageSetModel { topic: topic, messages: messages }),
            ),
        },
    }
}

/// The payload of a produce request: the acknowledgements asked for, the
/// timeout, and the topics.
pub open spec fn p_publish(s: Seq<u8>) -> Parsed<RequestModel> {
    match p_u16(s) {
        Err(e) => Err(e),
        Ok((rest, acks)) => match p_u32(rest) {
            Err(e) => Err(e),
            Ok((rest, timeout)) => match p_array(rest, |s: Seq<u8>| p_publish_topic(s)) {
                Err(e) => Err(e),
                Ok((rest, topics)) => Ok(
                    (rest, RequestModel::Publish { acks: acks, timeout: timeout, topics: topics }),
                ),
            },
        },
    }
}

/// The payload that belongs to a header. A produce request is read in
/// version 2, a fetch request in versions 0 to 3, a list-offsets request in
/// version 1, the other requests in any version. The payload of a
/// find-coordinator, heartbeat, leave-group or api-versions request is not
/// read. Any other API key or version gives `Unknown`, with nothing read.
pub open spec fn p_payload(h: HeaderModel, s: Seq<u8>) -> Parsed<RequestModel> {
    if h.opcode == 0 && h.version == 2 {
        p_publish(s)
    } else if h.opcode == 1 && 0 <= h.version <= 3 {
        p_fetch(s, h.version)
    } else if h.opcode == 2 && h.version == 1 {
        p_offsets(s)
    } else if h.opcode == 3 {
        p_metadata(s)
    } else if h.opcode == 8 {
        p_offset_commit(s)
    } else if h.opcode == 9 {
        p_fetch_offsets(s)
    } else if h.opcode == 10 {
        Ok((s, RequestModel::FindGroupCoordinator))
    } else if h.opcode == 11 {
        p_join_group(s)
    } else if h.opcode == 12 {
        Ok((s, RequestModel::Heartbeat))
    } else if h.opcode == 13 {
        Ok((s, RequestModel::LeaveGroup))
    } else if h.opcode == 14 {
        p_sync_group(s)
    } else if h.opcode == 18 {
        Ok((s, RequestModel::Versions))
    } else {
        Ok((s, RequestModel::Unknown))
    }
}

/// A request: its header, then the payload that belongs to the header.
pub open spec fn p_request(s: Seq<u8>) -> Parsed<KafkaRequestModel> {
    match p_header(s) {
        Err(e) => Err(e),
        Ok((rest, header)) => match p_payload(header, rest) {
            Err(e) => Err(e),
            Ok((rest, req)) => Ok((rest, KafkaRequestModel { header: header, req: req })),
        },
    }
}

/// A frame: an unsigned 32-bit length and that many bytes.
pub open spec fn p_frame(s: Seq<u8>) -> Parsed<Seq<u8>> {
    match p_u32(s) {
        Err(e) => Err(e),
        Ok((rest, len)) => p_take(rest, len as nat),
    }
}

/// A message takes up at least the twelve bytes of its offset and its size.
pub proof fn lemma_message_consumes(s: Seq<u8>, partition: u32)
    ensures
        p_message(s, partition) matches Ok(done) ==> done.0.len() + 12 <= s.len(),
{
    reveal(p_message);
}

fn tag(input: &[u8], expected: u8) -> (r: Result<(&[u8], ()), ParseError>)
    ensures
        agrees(r, p_tag(input@, expected)),
{
    if input.len() < 1 {
        Err(ParseError::Truncated)
    } else if input[0] != expected {
        Err(ParseError::Invalid)
    } else {
        let rest = slice_subrange(input, 1, input.len());
        assert(rest@ =~= input@.skip(1));
        Ok((rest, ()))
    }
}

fn message_fields(input: &[u8], partition: u32) -> (r: Result<(&[u8], KafkaMessage), ParseError>)
    ensures
        agrees(r, p_message_fields(input@, partition)),
{
    let (rest, _) = u32_value(input)?;
    let (rest, _) = tag(rest, 1)?;
    let (rest, _) = tag(rest, 0)?;
    let (rest, timestamp) = u64_value(rest)?;
    let (rest, key) = opt_kafka_bytes(rest)?;
    let (rest, value) = opt_kafka_bytes(rest)?;
    Ok((rest, KafkaMessage { partition: partition, timestamp: timestamp, key: key, value: value }))
}

fn message(input: &[u8], partition: u32) -> (r: Result<(&[u8], KafkaMessage), ParseError>)
    ensures
        agrees(r, p_message(input@, partition)),
{
    proof {
        reveal(p_message);
    }
    let (rest, _) = u64_value(input)?;
    let (fields, size) = i32_value(rest)?;
    if size < 0 {
        return Err(ParseError::Invalid);
    }
    let (rest, message) = message_fields(fields, partition)?;
    if fields.len() - rest.len() == size as usize {
        Ok((rest, message))
    } else {
        Err(ParseError::Invalid)
    }
}

#[verifier::rlimit(40)]
fn messages(input: &[u8], partition: u32) -> (r: Result<Vec<KafkaMessage>, ParseError>)
    ensures
        match r {
            Ok(found) => p_messages(input@, partition) == Ok::<Seq<MessageModel>, ParseError>(
                found.deep_view(),
            ),
            Err(e) => p_messages(input@, partition) == Err::<Seq<MessageModel>, ParseError>(e),
        },
{
    let mut rest = input;
    let mut items: Vec<KafkaMessage> = Vec::new();
    assert(items.deep_view() =~= Seq::<MessageModel>::empty());
    assert(p_messages(rest@, partition) matches Ok(ms) ==> Seq::<MessageModel>::empty() + ms
        =~= ms);
    while rest.len() > 0
        invariant
            p_messages(input@, partition) == match p_messages(rest@, partition) {
                Ok(ms) => Ok::<Seq<MessageModel>, ParseError>(items.deep_view() + ms),
                Err(e) => Err::<Seq<MessageModel>, ParseError>(e),
            },
        decreases rest@.len(),
    {
        proof {
            lemma_message_consumes(rest@, partition);
        }
        match message(rest, partition) {
            Ok(done) => {
                let ghost before = items.deep_view();
                items.push(done.1);
                assert(items.deep_view() =~= before.push(done.1.deep_view()));
                assert(p_messages(done.0@, partition) matches Ok(ms) ==> before + (seq![
                    done.1.deep_view(),
                ] + ms) =~= items.deep_view() + ms);
                rest = done.0;
            },
            Err(e) => {
                return Err(e);
            },
        }
    }
    assert(items.deep_view() + Seq::<MessageModel>::empty() =~= items.deep_view());
    Ok(items)
}

fn partition_messages(input: &[u8]) -> (r: Result<(&[u8], (u32, Vec<KafkaMessage>)), ParseError>)
    ensures
        agrees(r, p_partition_messages(input@)),
{
    let (rest, partition) = u32_value(input)?;
    let (rest, set_bytes) = i32_value(rest)?;
    if set_bytes < 0 {
        return Err(ParseError::Invalid);
    }
    let (rest, set) = take_bytes(rest, set_bytes as usize)?;
    let found = messages(set, partition)?;
    Ok((rest, (partition, found)))
}

fn partitions_messages(input: &[u8]) -> (r: Result<
    (&[u8], Vec<(u32, Vec<KafkaMessage>)>),
    ParseError,
>)
    ensures
        agrees(r, p_array(input@, |s: Seq<u8>| p_partition_messages(s))),
{
    let (body, n) = array_count(input)?;
    let mut rest = body;
    let mut items: Vec<(u32, Vec<KafkaMessage>)> = Vec::new();
    let mut i: usize = 0;
    assert(items.deep_view() =~= Seq::<(u32, Seq<MessageModel>)>::empty());
    while i < n
        invariant
            i <= n,
            p_count(input@) == Ok::<(Seq<u8>, nat), ParseError>((body@, n as nat)),
            p_repeat(body@, i as nat, |s: Seq<u8>| p_partition_messages(s)) == Ok::<
                (Seq<u8>, Seq<(u32, Seq<MessageModel>)>),
                ParseError,
            >((rest@, items.deep_view())),
        decreases n - i,
    {
        match partition_messages(rest) {
            Ok(done) => {
                let ghost before = items.deep_view();
                items.push(done.1);
                rest = done.0;
                assert(items.deep_view() =~= before.push(done.1.deep_view()));
            },
            Err(e) => {
                proof {
                    lemma_repeat_fails(
                        body@,
                        (i + 1) as nat,
                        n as nat,
                        |s: Seq<u8>| p_partition_messages(s),
                    );
                }
                return Err(e);
            },
        }
        i += 1;
    }
    Ok((rest, items))
}

fn publish_topic(input: &[u8]) -> (r: Result<(&[u8], KafkaMessageSet), ParseError>)
    ensures
        agrees(r, p_publish_topic(input@)),
{
    let (rest, topic) = required_string(input)?;
    let (rest, found) = partitions_messages(rest)?;
    Ok((rest, KafkaMessageSet { topic: topic, messages: found }))
}

fn publish_topics(input: &[u8]) -> (r: Result<(&[u8], Vec<KafkaMessageSet>), ParseError>)
    ensures
        agrees(r, p_array(input@, |s: Seq<u8>| p_publish_topic(s))),
{
    let (body, n) = array_count(input)?;
    let mut rest = body;
    let mut items: Vec<KafkaMessageSet> = Vec::new();
    let mut i: usize = 0;
    assert(items.deep_view() =~= Seq::<MessageSetModel>::empty());
    while i < n
        invariant
            i <= n,
            p_count(input@) == Ok::<(Seq<u8>, nat), ParseError>((body@, n as nat)),
            p_repeat(body@, i as nat, |s: Seq<u8>| p_publish_topic(s)) == Ok::<
                (Seq<u8>, Seq<MessageSetModel>),
                ParseError,
            >((rest@, items.deep_view())),
        decreases n - i,
    {
        match publish_topic(rest) {
            Ok(done) => {
                let ghost before = items.deep_view();
                items.push(done.1);
                rest = done.0;
                assert(items.deep_view() =~= before.push(done.1.deep_view()));
            },
            Err(e) => {
                proof {
                    lemma_repeat_fails(
                        body@,
                        (i + 1) as nat,
                        n as nat,
                        |s: Seq<u8>| p_publish_topic(s),
                    );
                }
                return Err(e);
            },
        }
        i += 1;
    }
    Ok((rest, items))
}

fn publish(input: &[u8]) -> (r: Result<(&[u8], ApiRequest), ParseError>)
    ensures
        agrees(r, p_publish(input@)),
{
    let (rest, acks) = u16_value(input)?;
    let (rest, timeout) = u32_value(rest)?;
    let (rest, topics) = publish_topics(rest)?;
    Ok((rest, ApiRequest::Publish { acks: acks, timeout: timeout, topics: topics }))
}

fn payload<'a>(header: &KafkaRequestHeader, input: &'a [u8]) -> (r: Result<
    (&'a [u8], ApiRequest),
    ParseError,
>)
    ensures
        agrees(r, p_payload(header.deep_view(), input@)),
{
    let opcode = header.opcode;
    let version = header.version;
    if opcode == 0 && version == 2 {
        publish(input)
    } else if opcode == 1 && 0 <= version && version <= 3 {
        fetch(input, version)
    } else if opcode == 2 && version == 1 {
        offsets(input)
    } else if opcode == 3 {
        metadata(input)
    } else if opcode == 8 {
        offset_commit(input)
    } else if opcode == 9 {
        fetch_offset(input)
    } else if opcode == 10 {
        Ok((input, ApiRequest::FindGroupCoordinator))
    } else if opcode == 11 {
        join_group(input)
    } else if opcode == 12 {
        Ok((input, ApiRequest::Heartbeat))
    } else if opcode == 13 {
        Ok((input, ApiRequest::LeaveGroup))
    } else if opcode == 14 {
        sync_group(input)
    } else if opcode == 18 {
        versions(input)
    } else {
        Ok((input, ApiRequest::Unknown))
    }
}

fn versions(input: &[u8]) -> (r: Result<(&[u8], ApiRequest), ParseError>)
    ensures
        r == Ok::<(&[u8], ApiRequest), ParseError>((input, ApiRequest::Versions)),
{
    Ok((input, ApiRequest::Versions))
}

/// Reads a request from the body of a frame: the header, then the payload
/// that the header's API key and version select. What is left of the body is
/// handed back with the request.
pub fn kafka_request(input: &[u8]) -> (r: Result<(&[u8], KafkaRequest), ParseError>)
    ensures
        agrees(r, p_request(input@)),
{
    let (rest, header) = request_header(input)?;
    let (rest, req) = payload(&header, rest)?;
    Ok((rest, KafkaRequest { header: header, req: req }))
}

/// Splits a frame off the front of `input`: the bytes that its 32-bit length
/// counts, and what follows them.
pub fn size_header(input: &[u8]) -> (r: Result<(&[u8], &[u8]), ParseError>)
    ensures
        match r {
            Ok(done) => p_frame(input@) == Ok::<(Seq<u8>, Seq<u8>), ParseError>(
                (done.0@, done.1@),
            ),
            Err(e) => p_frame(input@) == Err::<(Seq<u8>, Seq<u8>), ParseError>(e),
        },
{
    let (rest, len) = u32_value(input)?;
    take_bytes(rest, len as usize)
}

} // verus!
