//! Requests as a client writes them, and the law that reading what was
//! written gives the request back.

use crate::parser::{
    p_array, p_assignment, p_commit_partition, p_commit_topic, p_fetch,
    p_fetch_offsets, p_fetch_partition, p_fetch_preamble, p_fetch_topic, p_i16, p_i32, p_i64,
    p_join_group, p_listed_partition, p_listed_topic, p_metadata, p_offset_commit, p_offsets,
    p_opt_bytes, p_opt_string, p_partitions_topic, p_protocol, p_repeat, p_string, p_sync_group,
    p_message, p_message_fields, p_messages, p_partition_messages, p_publish, p_publish_topic,
    p_header, p_payload, p_request, p_tag, p_take, p_u16, p_u32, p_u64, HeaderModel,
    KafkaRequestModel, MessageModel, MessageSetModel, ParseError, Parsed, RequestModel,
};
use crate::codec::{after_decode, decoded};
use crate::parser::p_frame;
use crate::text::text_of;
use crate::wire::{
    be16, be32, be64, bits16, bits32, bits64, lemma_be16_round_trip, lemma_be32_round_trip,
    lemma_be64_round_trip, lemma_signed_bits,
};
use crate::writer::{
    enc_array, enc_nullable_bytes, enc_opt_str, enc_seq, enc_str, len16, len32,
};
use vstd::prelude::*;
use vstd::utf8::{encode_utf8, encode_utf8_decode_utf8, encode_utf8_valid_utf8};

verus! {

/// An unsigned 16-bit integer reads back from its encoding, whatever follows.
pub proof fn lemma_u16_reads_back(v: u16, tail: Seq<u8>)
    ensures
        p_u16(be16(v) + tail) == Ok::<(Seq<u8>, u16), ParseError>((tail, v)),
{
    lemma_be16_round_trip(v, tail);
    assert((be16(v) + tail).skip(2) =~= tail);
}

/// An unsigned 32-bit integer reads back from its encoding, whatever follows.
pub proof fn lemma_u32_reads_back(v: u32, tail: Seq<u8>)
    ensures
        p_u32(be32(v) + tail) == Ok::<(Seq<u8>, u32), ParseError>((tail, v)),
{
    lemma_be32_round_trip(v, tail);
    assert((be32(v) + tail).skip(4) =~= tail);
}

/// An unsigned 64-bit integer reads back from its encoding, whatever follows.
pub proof fn lemma_u64_reads_back(v: u64, tail: Seq<u8>)
    ensures
        p_u64(be64(v) + tail) == Ok::<(Seq<u8>, u64), ParseError>((tail, v)),
{
    lemma_be64_round_trip(v, tail);
    assert((be64(v) + tail).skip(8) =~= tail);
}

/// A signed 16-bit integer reads back from its encoding, whatever follows.
pub proof fn lemma_i16_reads_back(v: i16, tail: Seq<u8>)
    ensures
        p_i16(be16(bits16(v)) + tail) == Ok::<(Seq<u8>, i16), ParseError>((tail, v)),
{
    lemma_be16_round_trip(bits16(v), tail);
    lemma_signed_bits(v, 0, 0);
    assert((be16(bits16(v)) + tail).skip(2) =~= tail);
}

/// A signed 32-bit integer reads back from its encoding, whatever follows.
pub proof fn lemma_i32_reads_back(v: i32, tail: Seq<u8>)
    ensures
        p_i32(be32(bits32(v)) + tail) == Ok::<(Seq<u8>, i32), ParseError>((tail, v)),
{
    lemma_be32_round_trip(bits32(v), tail);
    lemma_signed_bits(0, v, 0);
    assert((be32(bits32(v)) + tail).skip(4) =~= tail);
}

/// A signed 64-bit integer reads back from its encoding, whatever follows.
pub proof fn lemma_i64_reads_back(v: i64, tail: Seq<u8>)
    ensures
        p_i64(be64(bits64(v)) + tail) == Ok::<(Seq<u8>, i64), ParseError>((tail, v)),
{
    lemma_be64_round_trip(bits64(v), tail);
    lemma_signed_bits(0, 0, v);
    assert((be64(bits64(v)) + tail).skip(8) =~= tail);
}

/// Whether the UTF-8 form of a text fits the length field of a string.
pub open spec fn fits_string(s: Seq<char>) -> bool {
    encode_utf8(s).len() <= 0x7fff
}

/// Whether a byte array fits the length field of a byte array.
pub open spec fn fits_bytes(b: Option<Seq<u8>>) -> bool {
    b matches Some(bytes) ==> bytes.len() <= 0x7fff_ffff
}

/// Bytes behind their 16-bit length read back as that length and those bytes.
pub proof fn lemma_sized16_reads_back(bytes: Seq<u8>, tail: Seq<u8>)
    requires
        bytes.len() <= 0x7fff,
    ensures
        p_i16(be16(len16(bytes.len())) + bytes + tail) == Ok::<(Seq<u8>, i16), ParseError>(
            (bytes + tail, bytes.len() as i16),
        ),
        p_take(bytes + tail, bytes.len()) == Ok::<(Seq<u8>, Seq<u8>), ParseError>((tail, bytes)),
        0 <= bytes.len() as i16,
        (bytes.len() as i16) as nat == bytes.len(),
{
    let n = len16(bytes.len());
    assert(n == bits16(bytes.len() as i16));
    lemma_i16_reads_back(bytes.len() as i16, bytes + tail);
    lemma_concat_assoc(be16(n), bytes, tail);
    assert((bytes + tail).skip(bytes.len() as int) =~= tail);
    assert((bytes + tail).take(bytes.len() as int) =~= bytes);
}

/// A string that fits its length field reads back from its encoding.
#[verifier::rlimit(40)]
pub proof fn lemma_string_reads_back(s: Seq<char>, tail: Seq<u8>)
    requires
        fits_string(s),
    ensures
        p_string(enc_str(s) + tail) == Ok::<(Seq<u8>, Seq<char>), ParseError>((tail, s)),
        p_opt_string(enc_opt_str(Some(s)) + tail) == Ok::<
            (Seq<u8>, Option<Seq<char>>),
            ParseError,
        >((tail, Some(s))),
{
    let bytes = encode_utf8(s);
    assert(text_of(bytes) == s) by {
        encode_utf8_valid_utf8(s);
        encode_utf8_decode_utf8(s);
    }
    lemma_sized16_reads_back(bytes, tail);
}

/// The null string reads back from its encoding.
pub proof fn lemma_null_string_reads_back(tail: Seq<u8>)
    ensures
        p_opt_string(enc_opt_str(None) + tail) == Ok::<(Seq<u8>, Option<Seq<char>>), ParseError>(
            (tail, None),
        ),
{
    assert(0xffffu16 == bits16(-1i16));
    lemma_i16_reads_back(-1i16, tail);
}

/// A nullable byte array that fits its length field reads back from its encoding.
pub proof fn lemma_bytes_read_back(b: Option<Seq<u8>>, tail: Seq<u8>)
    requires
        fits_bytes(b),
    ensures
        p_opt_bytes(enc_nullable_bytes(b) + tail) == Ok::<(Seq<u8>, Option<Seq<u8>>), ParseError>(
            (tail, b),
        ),
{
    match b {
        None => {
            assert(0xffff_ffffu32 == bits32(-1i32));
            lemma_i32_reads_back(-1i32, tail);
        },
        Some(bytes) => {
            let n = len32(bytes.len());
            assert(n == bits32(bytes.len() as i32));
            lemma_i32_reads_back(bytes.len() as i32, bytes + tail);
            assert(enc_nullable_bytes(b) + tail =~= be32(n) + (bytes + tail));
            assert((bytes + tail).skip(bytes.len() as int) =~= tail);
            assert((bytes + tail).take(bytes.len() as int) =~= bytes);
        },
    }
}

/// The items of a sequence read back from their encodings one after the
/// other, if each of them reads back from its own encoding whatever follows.
pub proof fn lemma_items_read_back<T>(
    items: Seq<T>,
    enc: spec_fn(T) -> Seq<u8>,
    p: spec_fn(Seq<u8>) -> Parsed<T>,
    tail: Seq<u8>,
)
    requires
        forall|i: int, t: Seq<u8>|
            0 <= i < items.len() ==> #[trigger] p(enc(items[i]) + t) == Ok::<
                (Seq<u8>, T),
                ParseError,
            >((t, items[i])),
    ensures
        p_repeat(enc_seq(items, enc) + tail, items.len(), p) == Ok::<(Seq<u8>, Seq<T>), ParseError>(
            (tail, items),
        ),
    decreases items.len(),
{
    if items.len() == 0 {
        assert(enc_seq(items, enc) + tail =~= tail);
        assert(items =~= Seq::<T>::empty());
    } else {
        let front = items.drop_last();
        let last = items.last();
        assert forall|i: int, t: Seq<u8>| 0 <= i < front.len() implies #[trigger] p(
            enc(front[i]) + t,
        ) == Ok::<(Seq<u8>, T), ParseError>((t, front[i])) by {
            assert(front[i] == items[i]);
        }
        lemma_items_read_back(front, enc, p, enc(last) + tail);
        assert(enc_seq(items, enc) + tail =~= enc_seq(front, enc) + (enc(last) + tail));
        assert(p(enc(items[items.len() - 1]) + tail) == Ok::<(Seq<u8>, T), ParseError>(
            (tail, last),
        ));
        assert(front.push(last) =~= items);
    }
}

/// Whether the number of items fits the count field of an array.
pub open spec fn fits_count(n: nat) -> bool {
    n <= 0x7fff_ffff
}

/// An array reads back from its encoding, if its count fits and each item
/// reads back from its own encoding whatever follows.
pub proof fn lemma_array_reads_back<T>(
    items: Seq<T>,
    enc: spec_fn(T) -> Seq<u8>,
    p: spec_fn(Seq<u8>) -> Parsed<T>,
    tail: Seq<u8>,
)
    requires
        fits_count(items.len()),
        forall|i: int, t: Seq<u8>|
            0 <= i < items.len() ==> #[trigger] p(enc(items[i]) + t) == Ok::<
                (Seq<u8>, T),
                ParseError,
            >((t, items[i])),
    ensures
        p_array(enc_array(items, enc) + tail, p) == Ok::<(Seq<u8>, Seq<T>), ParseError>(
            (tail, items),
        ),
{
    let n = len32(items.len());
    assert(n == bits32(items.len() as i32));
    lemma_i32_reads_back(items.len() as i32, enc_seq(items, enc) + tail);
    assert(enc_array(items, enc) + tail =~= be32(n) + (enc_seq(items, enc) + tail));
    lemma_items_read_back(items, enc, p, tail);
}

/// Concatenation does not depend on how it is grouped.
pub proof fn lemma_concat_assoc(a: Seq<u8>, b: Seq<u8>, c: Seq<u8>)
    ensures
        (a + b) + c == a + (b + c),
{
    assert((a + b) + c =~= a + (b + c));
}

/// One partition of a fetch request as a client writes it: its number, the
/// offset to read from, and a byte limit of 0.
pub open spec fn enc_fetch_partition(p: (u32, u64)) -> Seq<u8> {
    be32(p.0) + be64(p.1) + be32(0)
}

/// What is written reads back, whatever follows it.
pub proof fn lemma_fetch_partition_reads_back(p: (u32, u64), tail: Seq<u8>)
    ensures
        p_fetch_partition(enc_fetch_partition(p) + tail) == Ok::<(Seq<u8>, (u32, u64)), ParseError>(
            (tail, p),
        ),
{
    let t2 = be32(0) + tail;
    let t1 = be64(p.1) + t2;
    lemma_u32_reads_back(p.0, t1);
    lemma_u64_reads_back(p.1, t2);
    lemma_i32_reads_back(0i32, tail);
    assert(enc_fetch_partition(p) + tail == be32(p.0) + t1) by {
        lemma_concat_assoc(be32(p.0) + be64(p.1), be32(0), tail);
        lemma_concat_assoc(be32(p.0), be64(p.1), t2);
    }
}

/// One topic of a fetch request.
pub open spec fn enc_fetch_topic(t: (Seq<char>, Seq<(u32, u64)>)) -> Seq<u8> {
    enc_str(t.0) + enc_array(t.1, |e: (u32, u64)| enc_fetch_partition(e))
}

/// Whether every length and count of the value fits its field.
pub open spec fn valid_fetch_topic(t: (Seq<char>, Seq<(u32, u64)>)) -> bool {
    &&& fits_string(t.0)
    &&& fits_count(t.1.len())
}

/// What is written reads back, whatever follows it.
pub proof fn lemma_fetch_topic_reads_back(t: (Seq<char>, Seq<(u32, u64)>), tail: Seq<u8>)
    requires
        valid_fetch_topic(t),
    ensures
        p_fetch_topic(enc_fetch_topic(t) + tail) == Ok::<
            (Seq<u8>, (Seq<char>, Seq<(u32, u64)>)),
            ParseError,
        >(
            (tail, t),
        ),
{
    let t1 = enc_array(t.1, |e: (u32, u64)| enc_fetch_partition(e)) + tail;
    lemma_string_reads_back(t.0, t1);
    assert forall|i: int, w: Seq<u8>| 0 <= i < t.1.len() implies #[trigger] p_fetch_partition(
        enc_fetch_partition(t.1[i]) + w,
    ) == Ok::<(Seq<u8>, (u32, u64)), ParseError>((w, t.1[i])) by {
        lemma_fetch_partition_reads_back(t.1[i], w);
    }
    lemma_array_reads_back(
        t.1,
        |e: (u32, u64)| enc_fetch_partition(e),
        |s: Seq<u8>| p_fetch_partition(s),
        tail,
    );
    assert(enc_fetch_topic(t) + tail =~= enc_str(t.0) + t1);
}

/// One partition of a list-offsets request: its number and the timestamp asked
/// for.
pub open spec fn enc_listed_partition_request(p: (u32, i64)) -> Seq<u8> {
    be32(p.0) + be64(bits64(p.1))
}

/// What is written reads back, whatever follows it.
pub proof fn lemma_listed_partition_request_reads_back(p: (u32, i64), tail: Seq<u8>)
    ensures
        p_listed_partition(enc_listed_partition_request(p) + tail) == Ok::<
            (Seq<u8>, (u32, i64)),
            ParseError,
        >(
            (tail, p),
        ),
{
    let t1 = be64(bits64(p.1)) + tail;
    lemma_u32_reads_back(p.0, t1);
    lemma_i64_reads_back(p.1, tail);
    assert(enc_listed_partition_request(p) + tail =~= be32(p.0) + t1);
}

/// One topic of a list-offsets request.
pub open spec fn enc_listed_topic_request(t: (Seq<char>, Seq<(u32, i64)>)) -> Seq<u8> {
    enc_str(t.0) + enc_array(t.1, |e: (u32, i64)| enc_listed_partition_request(e))
}

/// Whether every length and count of the value fits its field.
pub open spec fn valid_listed_topic_request(t: (Seq<char>, Seq<(u32, i64)>)) -> bool {
    &&& fits_string(t.0)
    &&& fits_count(t.1.len())
}

/// What is written reads back, whatever follows it.
pub proof fn lemma_listed_topic_request_reads_back(t: (Seq<char>, Seq<(u32, i64)>), tail: Seq<u8>)
    requires
        valid_listed_topic_request(t),
    ensures
        p_listed_topic(enc_listed_topic_request(t) + tail) == Ok::<
            (Seq<u8>, (Seq<char>, Seq<(u32, i64)>)),
            ParseError,
        >(
            (tail, t),
        ),
{
    let t1 = enc_array(t.1, |e: (u32, i64)| enc_listed_partition_request(e)) + tail;
    lemma_string_reads_back(t.0, t1);
    assert forall|i: int, w: Seq<u8>| 0 <= i < t.1.len() implies #[trigger] p_listed_partition(
        enc_listed_partition_request(t.1[i]) + w,
    ) == Ok::<(Seq<u8>, (u32, i64)), ParseError>((w, t.1[i])) by {
        lemma_listed_partition_request_reads_back(t.1[i], w);
    }
    lemma_array_reads_back(
        t.1,
        |e: (u32, i64)| enc_listed_partition_request(e),
        |s: Seq<u8>| p_listed_partition(s),
        tail,
    );
    assert(enc_listed_topic_request(t) + tail =~= enc_str(t.0) + t1);
}

/// One partition of an offset-commit request: its number, the offset 0 and no
/// metadata.
pub open spec fn enc_commit_partition_request(p: u32) -> Seq<u8> {
    be32(p) + be64(0) + enc_opt_str(None)
}

/// What is written reads back, whatever follows it.
pub proof fn lemma_commit_partition_request_reads_back(p: u32, tail: Seq<u8>)
    ensures
        p_commit_partition(enc_commit_partition_request(p) + tail) == Ok::<
            (Seq<u8>, u32),
            ParseError,
        >(
            (tail, p),
        ),
{
    let t2 = enc_opt_str(None) + tail;
    let t1 = be64(0) + t2;
    lemma_u32_reads_back(p, t1);
    lemma_i64_reads_back(0i64, t2);
    lemma_null_string_reads_back(tail);
    assert(enc_commit_partition_request(p) + tail == be32(p) + t1) by {
        lemma_concat_assoc(be32(p) + be64(0), enc_opt_str(None), tail);
        lemma_concat_assoc(be32(p), be64(0), t2);
    }
}

/// One topic of an offset-commit request.
pub open spec fn enc_commit_topic_request(t: (Seq<char>, Seq<u32>)) -> Seq<u8> {
    enc_str(t.0) + enc_array(t.1, |e: u32| enc_commit_partition_request(e))
}

/// Whether every length and count of the value fits its field.
pub open spec fn valid_commit_topic_request(t: (Seq<char>, Seq<u32>)) -> bool {
    &&& fits_string(t.0)
    &&& fits_count(t.1.len())
}

/// What is written reads back, whatever follows it.
pub proof fn lemma_commit_topic_request_reads_back(t: (Seq<char>, Seq<u32>), tail: Seq<u8>)
    requires
        valid_commit_topic_request(t),
    ensures
        p_commit_topic(enc_commit_topic_request(t) + tail) == Ok::<
            (Seq<u8>, (Seq<char>, Seq<u32>)),
            ParseError,
        >(
            (tail, t),
        ),
{
    let t1 = enc_array(t.1, |e: u32| enc_commit_partition_request(e)) + tail;
    lemma_string_reads_back(t.0, t1);
    assert forall|i: int, w: Seq<u8>| 0 <= i < t.1.len() implies #[trigger] p_commit_partition(
        enc_commit_partition_request(t.1[i]) + w,
    ) == Ok::<(Seq<u8>, u32), ParseError>((w, t.1[i])) by {
        lemma_commit_partition_request_reads_back(t.1[i], w);
    }
    lemma_array_reads_back(
        t.1,
        |e: u32| enc_commit_partition_request(e),
        |s: Seq<u8>| p_commit_partition(s),
        tail,
    );
    assert(enc_commit_topic_request(t) + tail =~= enc_str(t.0) + t1);
}

/// One topic of an offset-fetch request: its name and its partition numbers.
pub open spec fn enc_partitions_topic(t: (Seq<char>, Seq<u32>)) -> Seq<u8> {
    enc_str(t.0) + enc_array(t.1, |e: u32| be32(e))
}

/// Whether every length and count of the value fits its field.
pub open spec fn valid_partitions_topic(t: (Seq<char>, Seq<u32>)) -> bool {
    &&& fits_string(t.0)
    &&& fits_count(t.1.len())
}

/// What is written reads back, whatever follows it.
pub proof fn lemma_partitions_topic_reads_back(t: (Seq<char>, Seq<u32>), tail: Seq<u8>)
    requires
        valid_partitions_topic(t),
    ensures
        p_partitions_topic(enc_partitions_topic(t) + tail) == Ok::<
            (Seq<u8>, (Seq<char>, Seq<u32>)),
            ParseError,
        >(
            (tail, t),
        ),
{
    let t1 = enc_array(t.1, |e: u32| be32(e)) + tail;
    lemma_string_reads_back(t.0, t1);
    assert forall|i: int, w: Seq<u8>| 0 <= i < t.1.len() implies #[trigger] p_u32(
        be32(t.1[i]) + w,
    ) == Ok::<(Seq<u8>, u32), ParseError>((w, t.1[i])) by {
        lemma_u32_reads_back(t.1[i], w);
    }
    lemma_array_reads_back(
        t.1,
        |e: u32| be32(e),
        |s: Seq<u8>| p_u32(s),
        tail,
    );
    assert(enc_partitions_topic(t) + tail =~= enc_str(t.0) + t1);
}

/// One protocol that a member offers: its name and its metadata.
pub open spec fn enc_protocol(p: (Seq<char>, Option<Seq<u8>>)) -> Seq<u8> {
    enc_str(p.0) + enc_nullable_bytes(p.1)
}

/// Whether every length and count of the value fits its field.
pub open spec fn valid_protocol(p: (Seq<char>, Option<Seq<u8>>)) -> bool {
    &&& fits_string(p.0)
    &&& fits_bytes(p.1)
}

/// What is written reads back, whatever follows it.
pub proof fn lemma_protocol_reads_back(p: (Seq<char>, Option<Seq<u8>>), tail: Seq<u8>)
    requires
        valid_protocol(p),
    ensures
        p_protocol(enc_protocol(p) + tail) == Ok::<
            (Seq<u8>, (Seq<char>, Option<Seq<u8>>)),
            ParseError,
        >(
            (tail, p),
        ),
{
    let t1 = enc_nullable_bytes(p.1) + tail;
    lemma_string_reads_back(p.0, t1);
    lemma_bytes_read_back(p.1, tail);
    assert(enc_protocol(p) + tail =~= enc_str(p.0) + t1);
}

/// One assignment of a sync-group request, for a member without a name.
pub open spec fn enc_assignment(a: Option<Seq<u8>>) -> Seq<u8> {
    enc_str(Seq::<char>::empty()) + enc_nullable_bytes(a)
}

/// Whether every length and count of the value fits its field.
pub open spec fn valid_assignment(a: Option<Seq<u8>>) -> bool {
    &&& fits_bytes(a)
}

/// What is written reads back, whatever follows it.
pub proof fn lemma_assignment_reads_back(a: Option<Seq<u8>>, tail: Seq<u8>)
    requires
        valid_assignment(a),
    ensures
        p_assignment(enc_assignment(a) + tail) == Ok::<(Seq<u8>, Option<Seq<u8>>), ParseError>(
            (tail, a),
        ),
{
    let t1 = enc_nullable_bytes(a) + tail;
    lemma_string_reads_back(Seq::<char>::empty(), t1);
    lemma_bytes_read_back(a, tail);
    assert(enc_assignment(a) + tail =~= enc_str(Seq::<char>::empty()) + t1);
}

/// The payload of a metadata request: the topics asked about.
pub open spec fn enc_metadata(topics: Seq<Seq<char>>) -> Seq<u8> {
    enc_array(topics, |e: Seq<char>| enc_str(e))
}

/// Whether every length and count of the payload fits its field.
pub open spec fn valid_metadata(topics: Seq<Seq<char>>) -> bool {
    &&& fits_count(topics.len())
    &&& forall|i: int| 0 <= i < topics.len() ==> fits_string(#[trigger] topics[i])
}

/// What is written reads back, whatever follows it.
pub proof fn lemma_metadata_reads_back(topics: Seq<Seq<char>>, tail: Seq<u8>)
    requires
        valid_metadata(topics),
    ensures
        p_metadata(enc_metadata(topics) + tail) == Ok::<(Seq<u8>, RequestModel), ParseError>(
            (tail, RequestModel::Metadata { topics: topics }),
        ),
{
    assert forall|i: int, w: Seq<u8>| 0 <= i < topics.len() implies #[trigger] p_string(
        enc_str(topics[i]) + w,
    ) == Ok::<(Seq<u8>, Seq<char>), ParseError>((w, topics[i])) by {
        lemma_string_reads_back(topics[i], w);
    }
    lemma_array_reads_back(
        topics,
        |e: Seq<char>| enc_str(e),
        |s: Seq<u8>| p_string(s),
        tail,
    );
}

/// The payload of a list-offsets request: replica id 0 and the topics.
pub open spec fn enc_offsets(topics: Seq<(Seq<char>, Seq<(u32, i64)>)>) -> Seq<u8> {
    be32(0) + enc_array(topics, |e: (Seq<char>, Seq<(u32, i64)>)| enc_listed_topic_request(e))
}

/// Whether every length and count of the payload fits its field.
pub open spec fn valid_offsets(topics: Seq<(Seq<char>, Seq<(u32, i64)>)>) -> bool {
    &&& fits_count(topics.len())
    &&& forall|i: int| 0 <= i < topics.len() ==> valid_listed_topic_request(#[trigger] topics[i])
}

/// What is written reads back, whatever follows it.
pub proof fn lemma_offsets_reads_back(topics: Seq<(Seq<char>, Seq<(u32, i64)>)>, tail: Seq<u8>)
    requires
        valid_offsets(topics),
    ensures
        p_offsets(enc_offsets(topics) + tail) == Ok::<(Seq<u8>, RequestModel), ParseError>(
            (tail, RequestModel::Offsets { topics: topics }),
        ),
{
    let t1 = enc_array(
        topics,
        |e: (Seq<char>, Seq<(u32, i64)>)| enc_listed_topic_request(e),
    ) + tail;
    lemma_i32_reads_back(0i32, t1);
    assert forall|i: int, w: Seq<u8>| 0 <= i < topics.len() implies #[trigger] p_listed_topic(
        enc_listed_topic_request(topics[i]) + w,
    ) == Ok::<(Seq<u8>, (Seq<char>, Seq<(u32, i64)>)), ParseError>((w, topics[i])) by {
        lemma_listed_topic_request_reads_back(topics[i], w);
    }
    lemma_array_reads_back(
        topics,
        |e: (Seq<char>, Seq<(u32, i64)>)| enc_listed_topic_request(e),
        |s: Seq<u8>| p_listed_topic(s),
        tail,
    );
    assert(enc_offsets(topics) + tail =~= be32(0) + t1);
}

/// The payload of an offset-commit request: an empty group id, generation 0, an
/// empty member id, retention time 0, and the topics.
pub open spec fn enc_offset_commit(topics: Seq<(Seq<char>, Seq<u32>)>) -> Seq<u8> {
    enc_str(Seq::<char>::empty()) + be32(0) + enc_str(Seq::<char>::empty()) + be64(0) + enc_array(
        topics,
        |e: (Seq<char>, Seq<u32>)| enc_commit_topic_request(e),
    )
}

/// Whether every length and count of the payload fits its field.
pub open spec fn valid_offset_commit(topics: Seq<(Seq<char>, Seq<u32>)>) -> bool {
    &&& fits_count(topics.len())
    &&& forall|i: int| 0 <= i < topics.len() ==> valid_commit_topic_request(#[trigger] topics[i])
}

/// What is written reads back, whatever follows it.
#[verifier::rlimit(40)]
pub proof fn lemma_offset_commit_reads_back(topics: Seq<(Seq<char>, Seq<u32>)>, tail: Seq<u8>)
    requires
        valid_offset_commit(topics),
    ensures
        p_offset_commit(enc_offset_commit(topics) + tail) == Ok::<
            (Seq<u8>, RequestModel),
            ParseError,
        >(
            (tail, RequestModel::OffsetCommit { topics: topics }),
        ),
{
    let t4 = enc_array(topics, |e: (Seq<char>, Seq<u32>)| enc_commit_topic_request(e)) + tail;
    let t3 = be64(0) + t4;
    let t2 = enc_str(Seq::<char>::empty()) + t3;
    let t1 = be32(0) + t2;
    lemma_string_reads_back(Seq::<char>::empty(), t1);
    lemma_i32_reads_back(0i32, t2);
    lemma_string_reads_back(Seq::<char>::empty(), t3);
    lemma_i64_reads_back(0i64, t4);
    assert forall|i: int, w: Seq<u8>| 0 <= i < topics.len() implies #[trigger] p_commit_topic(
        enc_commit_topic_request(topics[i]) + w,
    ) == Ok::<(Seq<u8>, (Seq<char>, Seq<u32>)), ParseError>((w, topics[i])) by {
        lemma_commit_topic_request_reads_back(topics[i], w);
    }
    lemma_array_reads_back(
        topics,
        |e: (Seq<char>, Seq<u32>)| enc_commit_topic_request(e),
        |s: Seq<u8>| p_commit_topic(s),
        tail,
    );
    assert(enc_offset_commit(topics) + tail == enc_str(Seq::<char>::empty()) + t1) by {
        lemma_concat_assoc(
            enc_str(Seq::<char>::empty()) + be32(0) + enc_str(Seq::<char>::empty()) + be64(0),
            enc_array(topics, |e: (Seq<char>, Seq<u32>)| enc_commit_topic_request(e)),
            tail,
        );
        lemma_concat_assoc(
            enc_str(Seq::<char>::empty()) + be32(0) + enc_str(Seq::<char>::empty()),
            be64(0),
            t4,
        );
        lemma_concat_assoc(
            enc_str(Seq::<char>::empty()) + be32(0),
            enc_str(Seq::<char>::empty()),
            t3,
        );
        lemma_concat_assoc(enc_str(Seq::<char>::empty()), be32(0), t2);
    }
}

/// The payload of an offset-fetch request: the group and the topics.
pub open spec fn enc_fetch_offsets(
    group_id: Seq<char>,
    topics: Seq<(Seq<char>, Seq<u32>)>,
) -> Seq<u8> {
    enc_str(group_id) + enc_array(topics, |e: (Seq<char>, Seq<u32>)| enc_partitions_topic(e))
}

/// Whether every length and count of the payload fits its field.
pub open spec fn valid_fetch_offsets(
    group_id: Seq<char>,
    topics: Seq<(Seq<char>, Seq<u32>)>,
) -> bool {
    &&& fits_string(group_id)
    &&& fits_count(topics.len())
    &&& forall|i: int| 0 <= i < topics.len() ==> valid_partitions_topic(#[trigger] topics[i])
}

/// What is written reads back, whatever follows it.
pub proof fn lemma_fetch_offsets_reads_back(
    group_id: Seq<char>,
    topics: Seq<(Seq<char>, Seq<u32>)>,
    tail: Seq<u8>,
)
    requires
        valid_fetch_offsets(group_id, topics),
    ensures
        p_fetch_offsets(enc_fetch_offsets(group_id, topics) + tail) == Ok::<
            (Seq<u8>, RequestModel),
            ParseError,
        >(
            (tail, RequestModel::FetchOffsets { group_id: group_id, topics: topics }),
        ),
{
    let t1 = enc_array(topics, |e: (Seq<char>, Seq<u32>)| enc_partitions_topic(e)) + tail;
    lemma_string_reads_back(group_id, t1);
    assert forall|i: int, w: Seq<u8>| 0 <= i < topics.len() implies #[trigger] p_partitions_topic(
        enc_partitions_topic(topics[i]) + w,
    ) == Ok::<(Seq<u8>, (Seq<char>, Seq<u32>)), ParseError>((w, topics[i])) by {
        lemma_partitions_topic_reads_back(topics[i], w);
    }
    lemma_array_reads_back(
        topics,
        |e: (Seq<char>, Seq<u32>)| enc_partitions_topic(e),
        |s: Seq<u8>| p_partitions_topic(s),
        tail,
    );
    assert(enc_fetch_offsets(group_id, topics) + tail =~= enc_str(group_id) + t1);
}

/// The payload of a join-group request: the group, session and rebalance
/// timeouts of 0, the member, the protocol type and the protocols offered.
pub open spec fn enc_join_group(
    group_id: Seq<char>,
    member_id: Seq<char>,
    protocol_type: Seq<char>,
    protocols: Seq<(Seq<char>, Option<Seq<u8>>)>,
) -> Seq<u8> {
    enc_str(group_id) + be32(0) + be32(0) + enc_str(member_id) + enc_str(protocol_type) + enc_array(
        protocols,
        |e: (Seq<char>, Option<Seq<u8>>)| enc_protocol(e),
    )
}

/// Whether every length and count of the payload fits its field.
pub open spec fn valid_join_group(
    group_id: Seq<char>,
    member_id: Seq<char>,
    protocol_type: Seq<char>,
    protocols: Seq<(Seq<char>, Option<Seq<u8>>)>,
) -> bool {
    &&& fits_string(group_id)
    &&& fits_string(member_id)
    &&& fits_string(protocol_type)
    &&& fits_count(protocols.len())
    &&& forall|i: int| 0 <= i < protocols.len() ==> valid_protocol(#[trigger] protocols[i])
}

/// What is written reads back, whatever follows it.
#[verifier::rlimit(40)]
pub proof fn lemma_join_group_reads_back(
    group_id: Seq<char>,
    member_id: Seq<char>,
    protocol_type: Seq<char>,
    protocols: Seq<(Seq<char>, Option<Seq<u8>>)>,
    tail: Seq<u8>,
)
    requires
        valid_join_group(group_id, member_id, protocol_type, protocols),
    ensures
        p_join_group(enc_join_group(group_id, member_id, protocol_type, protocols) + tail) == Ok::<
            (Seq<u8>, RequestModel),
            ParseError,
        >(
            (
                tail,
                RequestModel::JoinGroup {
                    group_id: group_id,
                    member_id: member_id,
                    protocol_type: protocol_type,
                    protocols: protocols,
                },
            ),
        ),
{
    let t5 = enc_array(protocols, |e: (Seq<char>, Option<Seq<u8>>)| enc_protocol(e)) + tail;
    let t4 = enc_str(protocol_type) + t5;
    let t3 = enc_str(member_id) + t4;
    let t2 = be32(0) + t3;
    let t1 = be32(0) + t2;
    lemma_string_reads_back(group_id, t1);
    lemma_i32_reads_back(0i32, t2);
    lemma_i32_reads_back(0i32, t3);
    lemma_string_reads_back(member_id, t4);
    lemma_string_reads_back(protocol_type, t5);
    assert forall|i: int, w: Seq<u8>| 0 <= i < protocols.len() implies #[trigger] p_protocol(
        enc_protocol(protocols[i]) + w,
    ) == Ok::<(Seq<u8>, (Seq<char>, Option<Seq<u8>>)), ParseError>((w, protocols[i])) by {
        lemma_protocol_reads_back(protocols[i], w);
    }
    lemma_array_reads_back(
        protocols,
        |e: (Seq<char>, Option<Seq<u8>>)| enc_protocol(e),
        |s: Seq<u8>| p_protocol(s),
        tail,
    );
    assert(enc_join_group(group_id, member_id, protocol_type, protocols) + tail == enc_str(group_id)
        + t1) by {
        lemma_concat_assoc(
            enc_str(group_id) + be32(0) + be32(0) + enc_str(member_id) + enc_str(protocol_type),
            enc_array(protocols, |e: (Seq<char>, Option<Seq<u8>>)| enc_protocol(e)),
            tail,
        );
        lemma_concat_assoc(
            enc_str(group_id) + be32(0) + be32(0) + enc_str(member_id),
            enc_str(protocol_type),
            t5,
        );
        lemma_concat_assoc(enc_str(group_id) + be32(0) + be32(0), enc_str(member_id), t4);
        lemma_concat_assoc(enc_str(group_id) + be32(0), be32(0), t3);
        lemma_concat_assoc(enc_str(group_id), be32(0), t2);
    }
}

/// The payload of a sync-group request: the group, generation 0, the member and
/// the assignments.
pub open spec fn enc_sync_group(
    group_id: Seq<char>,
    member_id: Seq<char>,
    assignments: Seq<Option<Seq<u8>>>,
) -> Seq<u8> {
    enc_str(group_id) + be32(0) + enc_str(member_id) + enc_array(
        assignments,
        |e: Option<Seq<u8>>| enc_assignment(e),
    )
}

/// Whether every length and count of the payload fits its field.
pub open spec fn valid_sync_group(
    group_id: Seq<char>,
    member_id: Seq<char>,
    assignments: Seq<Option<Seq<u8>>>,
) -> bool {
    &&& fits_string(group_id)
    &&& fits_string(member_id)
    &&& fits_count(assignments.len())
    &&& forall|i: int| 0 <= i < assignments.len() ==> valid_assignment(#[trigger] assignments[i])
}

/// What is written reads back, whatever follows it.
#[verifier::rlimit(40)]
pub proof fn lemma_sync_group_reads_back(
    group_id: Seq<char>,
    member_id: Seq<char>,
    assignments: Seq<Option<Seq<u8>>>,
    tail: Seq<u8>,
)
    requires
        valid_sync_group(group_id, member_id, assignments),
    ensures
        p_sync_group(enc_sync_group(group_id, member_id, assignments) + tail) == Ok::<
            (Seq<u8>, RequestModel),
            ParseError,
        >(
            (
                tail,
                RequestModel::SyncGroup {
                    group_id: group_id,
                    member_id: member_id,
                    assignments: assignments,
                },
            ),
        ),
{
    let t3 = enc_array(assignments, |e: Option<Seq<u8>>| enc_assignment(e)) + tail;
    let t2 = enc_str(member_id) + t3;
    let t1 = be32(0) + t2;
    lemma_string_reads_back(group_id, t1);
    lemma_i32_reads_back(0i32, t2);
    lemma_string_reads_back(member_id, t3);
    assert forall|i: int, w: Seq<u8>| 0 <= i < assignments.len() implies #[trigger] p_assignment(
        enc_assignment(assignments[i]) + w,
    ) == Ok::<(Seq<u8>, Option<Seq<u8>>), ParseError>((w, assignments[i])) by {
        lemma_assignment_reads_back(assignments[i], w);
    }
    lemma_array_reads_back(
        assignments,
        |e: Option<Seq<u8>>| enc_assignment(e),
        |s: Seq<u8>| p_assignment(s),
        tail,
    );
    assert(enc_sync_group(group_id, member_id, assignments) + tail == enc_str(group_id) + t1) by {
        lemma_concat_assoc(
            enc_str(group_id) + be32(0) + enc_str(member_id),
            enc_array(assignments, |e: Option<Seq<u8>>| enc_assignment(e)),
            tail,
        );
        lemma_concat_assoc(enc_str(group_id) + be32(0), enc_str(member_id), t3);
        lemma_concat_assoc(enc_str(group_id), be32(0), t2);
    }
}

/// What a client writes before the topics of a fetch request: replica id,
/// maximum wait and minimum bytes, all 0, and from version 3 on a byte limit
/// of 0.
pub open spec fn enc_fetch_preamble(version: i16) -> Seq<u8> {
    if version >= 3 {
        be32(0) + be32(0) + be32(0) + be32(0)
    } else {
        be32(0) + be32(0) + be32(0)
    }
}

/// What is written reads back, whatever follows it.
pub proof fn lemma_fetch_preamble_reads_back(version: i16, tail: Seq<u8>)
    ensures
        p_fetch_preamble(enc_fetch_preamble(version) + tail, version) == Ok::<
            (Seq<u8>, ()),
            ParseError,
        >((tail, ())),
{
    if version >= 3 {
        let t3 = be32(0) + tail;
        let t2 = be32(0) + t3;
        let t1 = be32(0) + t2;
        lemma_i32_reads_back(0i32, t1);
        lemma_i32_reads_back(0i32, t2);
        lemma_i32_reads_back(0i32, t3);
        lemma_i32_reads_back(0i32, tail);
        assert(enc_fetch_preamble(version) + tail =~= be32(0) + t1);
    } else {
        let t2 = be32(0) + tail;
        let t1 = be32(0) + t2;
        lemma_i32_reads_back(0i32, t1);
        lemma_i32_reads_back(0i32, t2);
        lemma_i32_reads_back(0i32, tail);
        assert(enc_fetch_preamble(version) + tail =~= be32(0) + t1);
    }
}

/// The payload of a fetch request of the given version.
pub open spec fn enc_fetch(topics: Seq<(Seq<char>, Seq<(u32, u64)>)>, version: i16) -> Seq<u8> {
    enc_fetch_preamble(version) + enc_array(
        topics,
        |e: (Seq<char>, Seq<(u32, u64)>)| enc_fetch_topic(e),
    )
}

/// Whether every length and count of the payload fits its field.
pub open spec fn valid_fetch(topics: Seq<(Seq<char>, Seq<(u32, u64)>)>) -> bool {
    &&& fits_count(topics.len())
    &&& forall|i: int| 0 <= i < topics.len() ==> valid_fetch_topic(#[trigger] topics[i])
}

/// What is written reads back, whatever follows it.
pub proof fn lemma_fetch_reads_back(
    topics: Seq<(Seq<char>, Seq<(u32, u64)>)>,
    version: i16,
    tail: Seq<u8>,
)
    requires
        valid_fetch(topics),
    ensures
        p_fetch(enc_fetch(topics, version) + tail, version) == Ok::<
            (Seq<u8>, RequestModel),
            ParseError,
        >((tail, RequestModel::Fetch { topics: topics })),
{
    let t1 = enc_array(topics, |e: (Seq<char>, Seq<(u32, u64)>)| enc_fetch_topic(e)) + tail;
    lemma_fetch_preamble_reads_back(version, t1);
    assert forall|i: int, w: Seq<u8>| 0 <= i < topics.len() implies #[trigger] p_fetch_topic(
        enc_fetch_topic(topics[i]) + w,
    ) == Ok::<(Seq<u8>, (Seq<char>, Seq<(u32, u64)>)), ParseError>((w, topics[i])) by {
        lemma_fetch_topic_reads_back(topics[i], w);
    }
    lemma_array_reads_back(
        topics,
        |e: (Seq<char>, Seq<(u32, u64)>)| enc_fetch_topic(e),
        |s: Seq<u8>| p_fetch_topic(s),
        tail,
    );
    assert(enc_fetch(topics, version) + tail =~= enc_fetch_preamble(version) + t1);
}

/// The encoding of a sequence starts with the encoding of its first item.
pub proof fn lemma_enc_seq_front<T>(items: Seq<T>, enc: spec_fn(T) -> Seq<u8>)
    requires
        items.len() > 0,
    ensures
        enc_seq(items, enc) == enc(items[0]) + enc_seq(items.skip(1), enc),
    decreases items.len(),
{
    if items.len() == 1 {
        assert(items.drop_last() =~= Seq::<T>::empty());
        assert(items.skip(1) =~= Seq::<T>::empty());
        assert(enc_seq(items, enc) =~= enc(items[0]) + enc_seq(items.skip(1), enc));
    } else {
        let front = items.drop_last();
        lemma_enc_seq_front(front, enc);
        assert(front.skip(1) =~= items.skip(1).drop_last());
        assert(items.skip(1).last() == items.last());
        assert(front[0] == items[0]);
        lemma_concat_assoc(enc(items[0]), enc_seq(front.skip(1), enc), enc(items.last()));
    }
}

/// One byte reads back as the tag it is.
pub proof fn lemma_tag_reads_back(tag: u8, tail: Seq<u8>)
    ensures
        p_tag(seq![tag] + tail, tag) == Ok::<(Seq<u8>, ()), ParseError>((tail, ())),
{
    assert((seq![tag] + tail).skip(1) =~= tail);
}

/// What the size field of a message measures, as a client writes it: a
/// checksum of 0, the magic byte 1, the attributes 0, the timestamp, the key
/// and the value.
pub open spec fn enc_message_fields(m: MessageModel) -> Seq<u8> {
    be32(0) + seq![1u8] + seq![0u8] + be64(m.timestamp) + enc_nullable_bytes(m.key)
        + enc_nullable_bytes(m.value)
}

/// One message of a message set as a client writes it: offset 0, the size of
/// its fields, and the fields.
pub open spec fn enc_message(m: MessageModel) -> Seq<u8> {
    be64(0) + be32(len32(enc_message_fields(m).len())) + enc_message_fields(m)
}

/// Whether the key, the value and the fields of a message fit their length fields.
pub open spec fn valid_message(m: MessageModel) -> bool {
    &&& fits_bytes(m.key)
    &&& fits_bytes(m.value)
    &&& enc_message_fields(m).len() <= 0x7fff_ffff
}

/// The fields of a message read back, whatever follows them.
#[verifier::rlimit(40)]
pub proof fn lemma_message_fields_read_back(m: MessageModel, tail: Seq<u8>)
    requires
        fits_bytes(m.key),
        fits_bytes(m.value),
    ensures
        p_message_fields(enc_message_fields(m) + tail, m.partition) == Ok::<
            (Seq<u8>, MessageModel),
            ParseError,
        >((tail, m)),
{
    let t5 = enc_nullable_bytes(m.value) + tail;
    let t4 = enc_nullable_bytes(m.key) + t5;
    let t3 = be64(m.timestamp) + t4;
    let t2 = seq![0u8] + t3;
    let t1 = seq![1u8] + t2;
    lemma_u32_reads_back(0u32, t1);
    lemma_tag_reads_back(1u8, t2);
    lemma_tag_reads_back(0u8, t3);
    lemma_u64_reads_back(m.timestamp, t4);
    lemma_bytes_read_back(m.key, t5);
    lemma_bytes_read_back(m.value, tail);
    assert(enc_message_fields(m) + tail == be32(0) + t1) by {
        lemma_concat_assoc(
            be32(0) + seq![1u8] + seq![0u8] + be64(m.timestamp) + enc_nullable_bytes(m.key),
            enc_nullable_bytes(m.value),
            tail,
        );
        lemma_concat_assoc(
            be32(0) + seq![1u8] + seq![0u8] + be64(m.timestamp),
            enc_nullable_bytes(m.key),
            t5,
        );
        lemma_concat_assoc(be32(0) + seq![1u8] + seq![0u8], be64(m.timestamp), t4);
        lemma_concat_assoc(be32(0) + seq![1u8], seq![0u8], t3);
        lemma_concat_assoc(be32(0), seq![1u8], t2);
    }
}

/// A message reads back, whatever follows it.
#[verifier::rlimit(40)]
pub proof fn lemma_message_reads_back(m: MessageModel, tail: Seq<u8>)
    requires
        valid_message(m),
    ensures
        p_message(enc_message(m) + tail, m.partition) == Ok::<(Seq<u8>, MessageModel), ParseError>(
            (tail, m),
        ),
        enc_message(m).len() >= 12,
{
    reveal(p_message);
    let fields = enc_message_fields(m);
    let n = len32(fields.len());
    let t2 = fields + tail;
    let t1 = be32(n) + t2;
    lemma_u64_reads_back(0u64, t1);
    assert(n == bits32(fields.len() as i32));
    lemma_i32_reads_back(fields.len() as i32, t2);
    lemma_message_fields_read_back(m, tail);
    assert(enc_message(m) + tail == be64(0) + t1) by {
        lemma_concat_assoc(be64(0) + be32(n), fields, tail);
        lemma_concat_assoc(be64(0), be32(n), t2);
    }
    assert(t2.len() - tail.len() == fields.len());
}

/// A message set as a client writes it: its messages back to back.
pub open spec fn enc_message_set(messages: Seq<MessageModel>) -> Seq<u8> {
    enc_seq(messages, |m: MessageModel| enc_message(m))
}

/// Whether every message of a set for the given partition fits its length
/// fields and carries the number of that partition.
pub open spec fn valid_message_set(messages: Seq<MessageModel>, partition: u32) -> bool {
    forall|i: int|
        0 <= i < messages.len() ==> valid_message(#[trigger] messages[i]) && messages[i].partition
            == partition
}

/// A message set reads back from exactly its bytes.
pub proof fn lemma_message_set_reads_back(messages: Seq<MessageModel>, partition: u32)
    requires
        valid_message_set(messages, partition),
    ensures
        p_messages(enc_message_set(messages), partition) == Ok::<Seq<MessageModel>, ParseError>(
            messages,
        ),
    decreases messages.len(),
{
    if messages.len() == 0 {
        assert(messages =~= Seq::<MessageModel>::empty());
    } else {
        let first = messages[0];
        let others = messages.skip(1);
        lemma_enc_seq_front(messages, |m: MessageModel| enc_message(m));
        lemma_message_reads_back(first, enc_message_set(others));
        assert forall|i: int| 0 <= i < others.len() implies valid_message(#[trigger] others[i])
            && others[i].partition == partition by {
            assert(others[i] == messages[i + 1]);
        }
        lemma_message_set_reads_back(others, partition);
        assert(seq![first] + others =~= messages);
    }
}

/// The messages for one partition as a client writes them: the partition
/// number, the length of the message set, and the message set.
pub open spec fn enc_partition_messages(p: (u32, Seq<MessageModel>)) -> Seq<u8> {
    be32(p.0) + be32(len32(enc_message_set(p.1).len())) + enc_message_set(p.1)
}

/// Whether the messages for one partition fit their length fields and carry
/// the number of the partition.
pub open spec fn valid_partition_messages(p: (u32, Seq<MessageModel>)) -> bool {
    &&& valid_message_set(p.1, p.0)
    &&& enc_message_set(p.1).len() <= 0x7fff_ffff
}

/// The messages for one partition read back, whatever follows them.
#[verifier::rlimit(40)]
pub proof fn lemma_partition_messages_read_back(p: (u32, Seq<MessageModel>), tail: Seq<u8>)
    requires
        valid_partition_messages(p),
    ensures
        p_partition_messages(enc_partition_messages(p) + tail) == Ok::<
            (Seq<u8>, (u32, Seq<MessageModel>)),
            ParseError,
        >((tail, p)),
{
    let set = enc_message_set(p.1);
    let n = len32(set.len());
    let t2 = set + tail;
    let t1 = be32(n) + t2;
    lemma_u32_reads_back(p.0, t1);
    assert(n == bits32(set.len() as i32));
    lemma_i32_reads_back(set.len() as i32, t2);
    assert(t2.skip(set.len() as int) =~= tail);
    assert(t2.take(set.len() as int) =~= set);
    lemma_message_set_reads_back(p.1, p.0);
    assert(enc_partition_messages(p) + tail == be32(p.0) + t1) by {
        lemma_concat_assoc(be32(p.0) + be32(n), set, tail);
        lemma_concat_assoc(be32(p.0), be32(n), t2);
    }
}

/// One topic of a produce request as a client writes it.
pub open spec fn enc_publish_topic(t: MessageSetModel) -> Seq<u8> {
    enc_str(t.topic) + enc_array(
        t.messages,
        |e: (u32, Seq<MessageModel>)| enc_partition_messages(e),
    )
}

/// Whether every length and count of a topic of a produce request fits its field.
pub open spec fn valid_publish_topic(t: MessageSetModel) -> bool {
    &&& fits_string(t.topic)
    &&& fits_count(t.messages.len())
    &&& forall|i: int|
        0 <= i < t.messages.len() ==> valid_partition_messages(#[trigger] t.messages[i])
}

/// A topic of a produce request reads back, whatever follows it.
pub proof fn lemma_publish_topic_reads_back(t: MessageSetModel, tail: Seq<u8>)
    requires
        valid_publish_topic(t),
    ensures
        p_publish_topic(enc_publish_topic(t) + tail) == Ok::<
            (Seq<u8>, MessageSetModel),
            ParseError,
        >(
            (tail, t),
        ),
{
    let t1 = enc_array(t.messages, |e: (u32, Seq<MessageModel>)| enc_partition_messages(e)) + tail;
    lemma_string_reads_back(t.topic, t1);
    assert forall|i: int, w: Seq<u8>|
        0 <= i < t.messages.len() implies #[trigger] p_partition_messages(
        enc_partition_messages(t.messages[i]) + w,
    ) == Ok::<(Seq<u8>, (u32, Seq<MessageModel>)), ParseError>((w, t.messages[i])) by {
        lemma_partition_messages_read_back(t.messages[i], w);
    }
    lemma_array_reads_back(
        t.messages,
        |e: (u32, Seq<MessageModel>)| enc_partition_messages(e),
        |s: Seq<u8>| p_partition_messages(s),
        tail,
    );
    assert(enc_publish_topic(t) + tail =~= enc_str(t.topic) + t1);
}

/// The payload of a produce request as a client writes it: the
/// acknowledgements asked for, the timeout, and the topics.
pub open spec fn enc_publish(acks: u16, timeout: u32, topics: Seq<MessageSetModel>) -> Seq<u8> {
    be16(acks) + be32(timeout) + enc_array(topics, |e: MessageSetModel| enc_publish_topic(e))
}

/// Whether every length and count of the payload fits its field.
pub open spec fn valid_publish(topics: Seq<MessageSetModel>) -> bool {
    &&& fits_count(topics.len())
    &&& forall|i: int| 0 <= i < topics.len() ==> valid_publish_topic(#[trigger] topics[i])
}

/// The payload of a produce request reads back, whatever follows it.
#[verifier::rlimit(40)]
pub proof fn lemma_publish_reads_back(
    acks: u16,
    timeout: u32,
    topics: Seq<MessageSetModel>,
    tail: Seq<u8>,
)
    requires
        valid_publish(topics),
    ensures
        p_publish(enc_publish(acks, timeout, topics) + tail) == Ok::<
            (Seq<u8>, RequestModel),
            ParseError,
        >((tail, RequestModel::Publish { acks: acks, timeout: timeout, topics: topics })),
{
    let t2 = enc_array(topics, |e: MessageSetModel| enc_publish_topic(e)) + tail;
    let t1 = be32(timeout) + t2;
    lemma_u16_reads_back(acks, t1);
    lemma_u32_reads_back(timeout, t2);
    assert forall|i: int, w: Seq<u8>| 0 <= i < topics.len() implies #[trigger] p_publish_topic(
        enc_publish_topic(topics[i]) + w,
    ) == Ok::<(Seq<u8>, MessageSetModel), ParseError>((w, topics[i])) by {
        lemma_publish_topic_reads_back(topics[i], w);
    }
    lemma_array_reads_back(
        topics,
        |e: MessageSetModel| enc_publish_topic(e),
        |s: Seq<u8>| p_publish_topic(s),
        tail,
    );
    assert(enc_publish(acks, timeout, topics) + tail == be16(acks) + t1) by {
        lemma_concat_assoc(
            be16(acks) + be32(timeout),
            enc_array(topics, |e: MessageSetModel| enc_publish_topic(e)),
            tail,
        );
        lemma_concat_assoc(be16(acks), be32(timeout), t2);
    }
}

/// The header of a request as a client writes it.
pub open spec fn enc_header(h: HeaderModel) -> Seq<u8> {
    be16(bits16(h.opcode)) + be16(bits16(h.version)) + be32(bits32(h.correlation_id)) + enc_str(
        h.client_id,
    )
}

/// A header whose client id fits its length field reads back, whatever follows.
#[verifier::rlimit(40)]
pub proof fn lemma_header_reads_back(h: HeaderModel, tail: Seq<u8>)
    requires
        fits_string(h.client_id),
    ensures
        p_header(enc_header(h) + tail) == Ok::<(Seq<u8>, HeaderModel), ParseError>((tail, h)),
{
    let t3 = enc_str(h.client_id) + tail;
    let t2 = be32(bits32(h.correlation_id)) + t3;
    let t1 = be16(bits16(h.version)) + t2;
    lemma_i16_reads_back(h.opcode, t1);
    lemma_i16_reads_back(h.version, t2);
    lemma_i32_reads_back(h.correlation_id, t3);
    lemma_string_reads_back(h.client_id, tail);
    assert(enc_header(h) + tail == be16(bits16(h.opcode)) + t1) by {
        lemma_concat_assoc(
            be16(bits16(h.opcode)) + be16(bits16(h.version)) + be32(bits32(h.correlation_id)),
            enc_str(h.client_id),
            tail,
        );
        lemma_concat_assoc(
            be16(bits16(h.opcode)) + be16(bits16(h.version)),
            be32(bits32(h.correlation_id)),
            t3,
        );
        lemma_concat_assoc(be16(bits16(h.opcode)), be16(bits16(h.version)), t2);
    }
}

/// The payload of a request as a client writes it. Fields that the broker
/// reads and drops are written as 0 or empty; a request without a payload
/// that the broker reads is written without one.
pub open spec fn enc_payload(version: i16, req: RequestModel) -> Seq<u8> {
    match req {
        RequestModel::Publish { acks, timeout, topics } => enc_publish(acks, timeout, topics),
        RequestModel::Fetch { topics } => enc_fetch(topics, version),
        RequestModel::Metadata { topics } => enc_metadata(topics),
        RequestModel::JoinGroup { group_id, member_id, protocol_type, protocols } => enc_join_group(
            group_id,
            member_id,
            protocol_type,
            protocols,
        ),
        RequestModel::SyncGroup { group_id, member_id, assignments } => enc_sync_group(
            group_id,
            member_id,
            assignments,
        ),
        RequestModel::FetchOffsets { group_id, topics } => enc_fetch_offsets(group_id, topics),
        RequestModel::Offsets { topics } => enc_offsets(topics),
        RequestModel::OffsetCommit { topics } => enc_offset_commit(topics),
        _ => Seq::<u8>::empty(),
    }
}

/// Whether every length and count of the payload fits its field, and every
/// message of a produce request carries the number of its partition.
pub open spec fn valid_payload(req: RequestModel) -> bool {
    match req {
        RequestModel::Publish { acks, timeout, topics } => valid_publish(topics),
        RequestModel::Fetch { topics } => valid_fetch(topics),
        RequestModel::Metadata { topics } => valid_metadata(topics),
        RequestModel::JoinGroup {
            group_id,
            member_id,
            protocol_type,
            protocols,
        } => valid_join_group(group_id, member_id, protocol_type, protocols),
        RequestModel::SyncGroup { group_id, member_id, assignments } => valid_sync_group(
            group_id,
            member_id,
            assignments,
        ),
        RequestModel::FetchOffsets { group_id, topics } => valid_fetch_offsets(group_id, topics),
        RequestModel::Offsets { topics } => valid_offsets(topics),
        RequestModel::OffsetCommit { topics } => valid_offset_commit(topics),
        _ => true,
    }
}

/// Whether the API key and the version of a header are those of the kind of
/// request: a served key and version for a request of that kind, and any
/// other key or version for `Unknown`.
pub open spec fn kind_matches(opcode: i16, version: i16, req: RequestModel) -> bool {
    match req {
        RequestModel::Publish { .. } => opcode == 0 && version == 2,
        RequestModel::Fetch { .. } => opcode == 1 && 0 <= version <= 3,
        RequestModel::Offsets { .. } => opcode == 2 && version == 1,
        RequestModel::Metadata { .. } => opcode == 3,
        RequestModel::OffsetCommit { .. } => opcode == 8,
        RequestModel::FetchOffsets { .. } => opcode == 9,
        RequestModel::FindGroupCoordinator => opcode == 10,
        RequestModel::JoinGroup { .. } => opcode == 11,
        RequestModel::Heartbeat => opcode == 12,
        RequestModel::LeaveGroup => opcode == 13,
        RequestModel::SyncGroup { .. } => opcode == 14,
        RequestModel::Versions => opcode == 18,
        RequestModel::Unknown => {
            &&& !(opcode == 0 && version == 2)
            &&& !(opcode == 1 && 0 <= version <= 3)
            &&& !(opcode == 2 && version == 1)
            &&& opcode != 3
            &&& opcode != 8
            &&& opcode != 9
            &&& opcode != 10
            &&& opcode != 11
            &&& opcode != 12
            &&& opcode != 13
            &&& opcode != 14
            &&& opcode != 18
        },
    }
}

/// A request as a client writes it: the header, then the payload.
pub open spec fn enc_request(q: KafkaRequestModel) -> Seq<u8> {
    enc_header(q.header) + enc_payload(q.header.version, q.req)
}

/// Whether a request is one that a client can write: its header says what
/// kind of request it is, and every length and count fits its field.
pub open spec fn valid_request(q: KafkaRequestModel) -> bool {
    &&& fits_string(q.header.client_id)
    &&& kind_matches(q.header.opcode, q.header.version, q.req)
    &&& valid_payload(q.req)
}

/// The payload of a valid request reads back, whatever follows it.
pub proof fn lemma_payload_reads_back(h: HeaderModel, req: RequestModel, tail: Seq<u8>)
    requires
        kind_matches(h.opcode, h.version, req),
        valid_payload(req),
    ensures
        p_payload(h, enc_payload(h.version, req) + tail) == Ok::<
            (Seq<u8>, RequestModel),
            ParseError,
        >((tail, req)),
{
    match req {
        RequestModel::Publish { acks, timeout, topics } => {
            lemma_publish_reads_back(acks, timeout, topics, tail);
        },
        RequestModel::Fetch { topics } => {
            lemma_fetch_reads_back(topics, h.version, tail);
        },
        RequestModel::Metadata { topics } => {
            lemma_metadata_reads_back(topics, tail);
        },
        RequestModel::JoinGroup { group_id, member_id, protocol_type, protocols } => {
            lemma_join_group_reads_back(group_id, member_id, protocol_type, protocols, tail);
        },
        RequestModel::SyncGroup { group_id, member_id, assignments } => {
            lemma_sync_group_reads_back(group_id, member_id, assignments, tail);
        },
        RequestModel::FetchOffsets { group_id, topics } => {
            lemma_fetch_offsets_reads_back(group_id, topics, tail);
        },
        RequestModel::Offsets { topics } => {
            lemma_offsets_reads_back(topics, tail);
        },
        RequestModel::OffsetCommit { topics } => {
            lemma_offset_commit_reads_back(topics, tail);
        },
        _ => {
            assert(Seq::<u8>::empty() + tail =~= tail);
        },
    }
}

/// Reading what a client writes for a valid request gives the request back,
/// and leaves what follows it.
pub proof fn lemma_request_round_trip(q: KafkaRequestModel, tail: Seq<u8>)
    requires
        valid_request(q),
    ensures
        p_request(enc_request(q) + tail) == Ok::<(Seq<u8>, KafkaRequestModel), ParseError>(
            (tail, q),
        ),
{
    let payload = enc_payload(q.header.version, q.req);
    lemma_header_reads_back(q.header, payload + tail);
    lemma_payload_reads_back(q.header, q.req, tail);
    lemma_concat_assoc(enc_header(q.header), payload, tail);
}

/// A request as it travels: the length of what a client writes for it, then
/// that.
pub open spec fn enc_frame(q: KafkaRequestModel) -> Seq<u8> {
    be32(len32(enc_request(q).len())) + enc_request(q)
}

/// A frame reads back as its body, whatever follows it.
pub proof fn lemma_frame_reads_back(body: Seq<u8>, tail: Seq<u8>)
    requires
        body.len() <= u32::MAX,
    ensures
        p_frame(be32(len32(body.len())) + body + tail) == Ok::<(Seq<u8>, Seq<u8>), ParseError>(
            (tail, body),
        ),
{
    let n = len32(body.len());
    lemma_u32_reads_back(n, body + tail);
    lemma_concat_assoc(be32(n), body, tail);
    assert((body + tail).skip(body.len() as int) =~= tail);
    assert((body + tail).take(body.len() as int) =~= body);
}

/// Decoding the frame of a valid request gives the request back and leaves
/// in the buffer what followed the frame.
#[verifier::rlimit(40)]
pub proof fn lemma_frame_round_trip(q: KafkaRequestModel, tail: Seq<u8>)
    requires
        valid_request(q),
        enc_request(q).len() <= u32::MAX,
    ensures
        decoded(enc_frame(q) + tail) == Ok::<Option<KafkaRequestModel>, ParseError>(Some(q)),
        after_decode(enc_frame(q) + tail) == tail,
{
    let body = enc_request(q);
    assert(p_frame(enc_frame(q) + tail) == Ok::<(Seq<u8>, Seq<u8>), ParseError>((tail, body))) by {
        lemma_frame_reads_back(body, tail);
    }
    assert(p_request(body) == Ok::<(Seq<u8>, KafkaRequestModel), ParseError>(
        (Seq::<u8>::empty(), q),
    )) by {
        lemma_request_round_trip(q, Seq::<u8>::empty());
        assert(body + Seq::<u8>::empty() =~= body);
    }
}

} // verus!
