//! One connection's loop, a step at a time: a frame is cut from what was
//! received, the request in it is handled, and the response is written behind
//! those of the requests before it.

use crate::backend::{handle_request, response_to, store_after, PgState};
use crate::buffer::contents;
use crate::codec::{after_decode, decoded, KafkaCodec};
use crate::parser::{p_frame, p_i32, KafkaRequestModel, ParseError};
use crate::round_trip::{
    lemma_concat_assoc, lemma_enc_seq_front, lemma_frame_reads_back, lemma_i32_reads_back,
};
use crate::wire::{be32, bits32, lemma_be_len};
use crate::settings::TopicConfig;
use crate::store::{LogModel, StoreError};
use crate::writer::{
    carries_no_records, enc_body, enc_response, enc_seq, len32, KafkaResponse, ResponseModel,
};
use bytes::BytesMut;
use vstd::prelude::*;

verus! {

/// Why a connection cannot go on.
#[derive(Debug, Clone, Copy, PartialEq, Eq, Structural)]
pub enum ServeError {
    /// A whole frame arrived whose body is no request.
    Malformed(ParseError),
    /// The store failed while the request was handled.
    Store(StoreError),
}

/// For how many milliseconds a response is held back before it is written: a
/// fetch response without a record waits a second, so that an idle consumer
/// does not poll in a tight loop; any other response is written at once.
pub open spec fn delay_for(r: ResponseModel) -> u64 {
    if carries_no_records(r) {
        1000
    } else {
        0
    }
}

/// For how many milliseconds to hold the response back before writing it.
pub fn response_delay_ms(response: &KafkaResponse) -> (delay: u64)
    ensures
        delay == delay_for(response.req.deep_view()),
{
    if response.is_empty() {
        1000
    } else {
        0
    }
}

/// Serves the first request in `input`, if a whole one is there: the frame is
/// taken out of `input`, the request is handled at time `now`, and the framed
/// response, which carries the correlation id of the request, is appended to
/// `out`. The result says for how long to hold the response back; it is
/// `None` while `input` holds no whole frame, and then nothing changes.
pub fn serve_one(
    codec: &mut KafkaCodec,
    input: &mut BytesMut,
    db: &mut PgState,
    now: u64,
    out: &mut BytesMut,
) -> (r: Result<Option<u64>, ServeError>)
    requires
        old(db).wf(),
    ensures
        final(db).wf(),
        final(db).topics == old(db).topics,
        final(db).hostname == old(db).hostname,
        contents(*final(input)) == after_decode(contents(*old(input))),
        match decoded(contents(*old(input))) {
            Err(e) => {
                &&& r == Err::<Option<u64>, ServeError>(ServeError::Malformed(e))
                &&& contents(*final(out)) == contents(*old(out))
                &&& final(db).pool@ == old(db).pool@
            },
            Ok(None) => {
                &&& r == Ok::<Option<u64>, ServeError>(None)
                &&& contents(*final(out)) == contents(*old(out))
                &&& final(db).pool@ == old(db).pool@
            },
            Ok(Some(request)) => match response_to(
                request.header.version,
                request.req,
                old(db).pool@,
                old(db).topics.deep_view(),
                old(db).hostname@,
                now,
            ) {
                Err(e) => {
                    &&& r == Err::<Option<u64>, ServeError>(ServeError::Store(e))
                    &&& contents(*final(out)) == contents(*old(out))
                },
                Ok(body) => {
                    &&& r == Ok::<Option<u64>, ServeError>(Some(delay_for(body)))
                    &&& contents(*final(out)) == contents(*old(out)) + enc_response(
                        request.header.correlation_id,
                        body,
                    )
                    &&& store_after(request.req, old(db).pool@, old(db).topics.deep_view(), now)
                        == Ok::<Seq<LogModel>, StoreError>(final(db).pool@)
                },
            },
        },
{
    let request = match codec.decode(input) {
        Err(e) => {
            return Err(ServeError::Malformed(e));
        },
        Ok(None) => {
            return Ok(None);
        },
        Ok(Some(request)) => request,
    };
    let response = match handle_request(request, db, now) {
        Err(e) => {
            return Err(ServeError::Store(e));
        },
        Ok(response) => response,
    };
    let delay = response_delay_ms(&response);
    codec.encode(response, out);
    Ok(Some(delay))
}

/// What serving everything that has arrived comes to.
pub struct Burst {
    /// The responses written, first to last: each with the correlation id of
    /// its request and its body.
    pub replies: Seq<(i32, ResponseModel)>,
    /// What is left of the input.
    pub left: Seq<u8>,
    /// The store afterwards, if nothing failed.
    pub logs: Seq<LogModel>,
    /// Why serving stopped before the input held no whole frame, if it did.
    pub failure: Option<ServeError>,
}

/// A whole frame takes up at least the four bytes of its length.
pub proof fn lemma_decode_consumes(bytes: Seq<u8>)
    ensures
        decoded(bytes) != Ok::<Option<KafkaRequestModel>, ParseError>(None) ==> after_decode(
            bytes,
        ).len() + 4 <= bytes.len(),
{
}

/// What serving the requests in `bytes` one after the other comes to: each
/// whole frame is taken from the front, its request is handled on the store
/// that the requests before it left, and its response is written behind
/// theirs. Serving stops when no whole frame is left, at a frame whose body
/// is no request, and when the store fails.
pub open spec fn served(
    bytes: Seq<u8>,
    logs: Seq<LogModel>,
    config: Seq<TopicConfig>,
    hostname: Seq<char>,
    now: u64,
) -> Burst
    decreases bytes.len(),
{
    match decoded(bytes) {
        Err(e) => Burst {
            replies: Seq::empty(),
            left: after_decode(bytes),
            logs: logs,
            failure: Some(ServeError::Malformed(e)),
        },
        Ok(None) => Burst { replies: Seq::empty(), left: bytes, logs: logs, failure: None },
        Ok(Some(request)) => match (
            response_to(request.header.version, request.req, logs, config, hostname, now),
            store_after(request.req, logs, config, now),
        ) {
            (Ok(body), Ok(next)) => {
                proof {
                    lemma_decode_consumes(bytes);
                }
                let rest = served(after_decode(bytes), next, config, hostname, now);
                Burst {
                    replies: seq![(request.header.correlation_id, body)] + rest.replies,
                    left: rest.left,
                    logs: rest.logs,
                    failure: rest.failure,
                }
            },
            (Err(e), _) => Burst {
                replies: Seq::empty(),
                left: after_decode(bytes),
                logs: logs,
                failure: Some(ServeError::Store(e)),
            },
            (_, Err(e)) => Burst {
                replies: Seq::empty(),
                left: after_decode(bytes),
                logs: logs,
                failure: Some(ServeError::Store(e)),
            },
        },
    }
}

/// One response on the wire.
pub open spec fn enc_reply(reply: (i32, ResponseModel)) -> Seq<u8> {
    enc_response(reply.0, reply.1)
}

/// Responses on the wire, first to last.
pub open spec fn wire_of(replies: Seq<(i32, ResponseModel)>) -> Seq<u8> {
    enc_seq(replies, |r: (i32, ResponseModel)| enc_reply(r))
}

/// For how long each response is held back.
pub open spec fn delays_of(replies: Seq<(i32, ResponseModel)>) -> Seq<u64> {
    Seq::new(replies.len(), |i: int| delay_for(replies[i].1))
}

/// Serves every request that `input` holds a whole frame of, in the order
/// of the frames, at time `now`. The responses are appended to `out` in that
/// order; the result says for each of them how long to hold it back. Where
/// serving fails, the responses to the requests before the failing one are
/// written all the same.
#[verifier::rlimit(40)]
pub fn serve_pending(
    codec: &mut KafkaCodec,
    input: &mut BytesMut,
    db: &mut PgState,
    now: u64,
    out: &mut BytesMut,
) -> (r: Result<Vec<u64>, ServeError>)
    requires
        old(db).wf(),
    ensures
        final(db).wf(),
        final(db).topics == old(db).topics,
        final(db).hostname == old(db).hostname,
        ({
            let burst = served(
                contents(*old(input)),
                old(db).pool@,
                old(db).topics.deep_view(),
                old(db).hostname@,
                now,
            );
            &&& contents(*final(out)) == contents(*old(out)) + wire_of(burst.replies)
            &&& contents(*final(input)) == burst.left
            &&& match r {
                Ok(delays) => {
                    &&& burst.failure is None
                    &&& delays@ == delays_of(burst.replies)
                    &&& final(db).pool@ == burst.logs
                },
                Err(e) => burst.failure == Some(e),
            }
        }),
{
    let ghost all = served(
        contents(*input),
        db.pool@,
        db.topics.deep_view(),
        db.hostname@,
        now,
    );
    let ghost config = db.topics.deep_view();
    let ghost hostname = db.hostname@;
    let ghost done: Seq<(i32, ResponseModel)> = Seq::empty();
    let mut delays: Vec<u64> = Vec::new();
    assert(contents(*out) =~= contents(*old(out)) + wire_of(done));
    assert(done + all.replies =~= all.replies);
    assert(delays@ =~= delays_of(done));
    loop
        invariant
            db.wf(),
            db.topics == old(db).topics,
            db.hostname == old(db).hostname,
            config == db.topics.deep_view(),
            hostname == db.hostname@,
            all == served(
                contents(*old(input)),
                old(db).pool@,
                old(db).topics.deep_view(),
                old(db).hostname@,
                now,
            ),
            all.replies == done + served(contents(*input), db.pool@, config, hostname, now).replies,
            all.left == served(contents(*input), db.pool@, config, hostname, now).left,
            all.logs == served(contents(*input), db.pool@, config, hostname, now).logs,
            all.failure == served(contents(*input), db.pool@, config, hostname, now).failure,
            contents(*out) == contents(*old(out)) + wire_of(done),
            delays@ == delays_of(done),
        decreases contents(*input).len(),
    {
        let ghost bytes = contents(*input);
        let ghost logs = db.pool@;
        let ghost before = contents(*out);
        proof {
            lemma_decode_consumes(bytes);
        }
        match serve_one(codec, input, db, now, out) {
            Err(e) => {
                assert(done + Seq::<(i32, ResponseModel)>::empty() =~= done);
                return Err(e);
            },
            Ok(None) => {
                assert(done + Seq::<(i32, ResponseModel)>::empty() =~= done);
                return Ok(delays);
            },
            Ok(Some(delay)) => {
                let ghost request = decoded(bytes)->Ok_0->0;
                let ghost body = response_to(
                    request.header.version,
                    request.req,
                    logs,
                    config,
                    hostname,
                    now,
                )->Ok_0;
                let ghost reply = (request.header.correlation_id, body);
                let ghost rest = served(contents(*input), db.pool@, config, hostname, now);
                proof {
                    assert(served(bytes, logs, config, hostname, now).replies == seq![reply]
                        + rest.replies);
                    assert(done + (seq![reply] + rest.replies) =~= done.push(reply)
                        + rest.replies);
                    assert(done.push(reply).drop_last() =~= done);
                    assert(wire_of(done.push(reply)) == wire_of(done) + enc_reply(reply));
                    assert(contents(*out) =~= contents(*old(out)) + wire_of(done.push(reply)));
                    done = done.push(reply);
                }
                delays.push(delay);
                assert(delays@ =~= delays_of(done));
            },
        }
    }
}

/// The correlation ids of the requests in the whole frames at the front of
/// `bytes`, up to the first frame whose body is no request.
pub open spec fn pending_ids(bytes: Seq<u8>) -> Seq<i32>
    decreases bytes.len(),
{
    match decoded(bytes) {
        Ok(Some(request)) => {
            proof {
                lemma_decode_consumes(bytes);
            }
            seq![request.header.correlation_id] + pending_ids(after_decode(bytes))
        },
        _ => Seq::empty(),
    }
}

/// The correlation ids of the frames on a wire, first to last.
pub open spec fn response_ids(wire: Seq<u8>) -> Seq<i32>
    decreases wire.len(),
{
    match p_frame(wire) {
        Err(_) => Seq::empty(),
        Ok(frame) => match p_i32(frame.1) {
            Err(_) => Seq::empty(),
            Ok(id) => seq![id.1] + response_ids(frame.0),
        },
    }
}

/// The correlation ids of responses.
pub open spec fn ids_of(replies: Seq<(i32, ResponseModel)>) -> Seq<i32> {
    Seq::new(replies.len(), |i: int| replies[i].0)
}

/// Whether each response is short enough for the length field of its frame.
pub open spec fn all_fit(replies: Seq<(i32, ResponseModel)>) -> bool {
    forall|i: int| 0 <= i < replies.len() ==> enc_body(
        (#[trigger] replies[i]).1,
    ).len() + 4 <= u32::MAX
}

/// The frames on the wire carry the correlation ids of the responses, in
/// the order of the responses.
pub proof fn lemma_wire_order(replies: Seq<(i32, ResponseModel)>)
    requires
        all_fit(replies),
    ensures
        response_ids(wire_of(replies)) == ids_of(replies),
    decreases replies.len(),
{
    if replies.len() == 0 {
        assert(wire_of(replies) =~= Seq::<u8>::empty());
        assert(ids_of(replies) =~= Seq::<i32>::empty());
    } else {
        let first = replies[0];
        let others = replies.skip(1);
        let tail = wire_of(others);
        let body = be32(bits32(first.0)) + enc_body(first.1);
        lemma_enc_seq_front(replies, |r: (i32, ResponseModel)| enc_reply(r));
        lemma_be_len(0, bits32(first.0), 0);
        lemma_frame_reads_back(body, tail);
        lemma_i32_reads_back(first.0, enc_body(first.1));
        lemma_concat_assoc(
            be32(len32(enc_body(first.1).len() + 4)),
            be32(bits32(first.0)),
            enc_body(first.1),
        );
        assert(enc_reply(first) == be32(len32(body.len())) + body);
        assert(wire_of(replies) == be32(len32(body.len())) + body + tail);
        assert forall|i: int| 0 <= i < others.len() implies enc_body(
            (#[trigger] others[i]).1,
        ).len() + 4 <= u32::MAX by {
            assert(others[i] == replies[i + 1]);
        }
        lemma_wire_order(others);
        assert(seq![first.0] + ids_of(others) =~= ids_of(replies));
    }
}

/// Responses are written in the order of their requests: the correlation ids
/// of the responses to a burst are those of its requests, first to last, as
/// far as the burst is served; and they are all of them if nothing fails.
pub proof fn lemma_responses_in_request_order(
    bytes: Seq<u8>,
    logs: Seq<LogModel>,
    config: Seq<TopicConfig>,
    hostname: Seq<char>,
    now: u64,
)
    ensures
        ({
            let burst = served(bytes, logs, config, hostname, now);
            &&& burst.replies.len() <= pending_ids(bytes).len()
            &&& ids_of(burst.replies) == pending_ids(bytes).take(burst.replies.len() as int)
            &&& burst.failure is None ==> ids_of(burst.replies) == pending_ids(bytes)
        }),
    decreases bytes.len(),
{
    let burst = served(bytes, logs, config, hostname, now);
    match decoded(bytes) {
        Ok(Some(request)) => {
            lemma_decode_consumes(bytes);
            let rest_ids = pending_ids(after_decode(bytes));
            let id = request.header.correlation_id;
            match (
                response_to(request.header.version, request.req, logs, config, hostname, now),
                store_after(request.req, logs, config, now),
            ) {
                (Ok(body), Ok(next)) => {
                    lemma_responses_in_request_order(
                        after_decode(bytes),
                        next,
                        config,
                        hostname,
                        now,
                    );
                    let rest = served(after_decode(bytes), next, config, hostname, now);
                    assert(ids_of(burst.replies) =~= seq![id] + ids_of(rest.replies));
                    assert((seq![id] + rest_ids).take(burst.replies.len() as int) =~= seq![id]
                        + rest_ids.take(rest.replies.len() as int));
                },
                _ => {
                    assert(ids_of(burst.replies) =~= pending_ids(bytes).take(0));
                },
            }
        },
        _ => {
            assert(ids_of(burst.replies) =~= pending_ids(bytes).take(0));
            assert(pending_ids(bytes).take(0) =~= pending_ids(bytes));
        },
    }
}

} // verus!
