//! Framing: every request and every response travels behind a 32-bit length.

use crate::buffer::{buffer_bytes, contents, split_front};
use crate::parser::{
    kafka_request, p_frame, p_request, size_header, KafkaRequest, KafkaRequestModel, ParseError,
};
use crate::writer::{enc_response, to_bytes, KafkaResponse};
use bytes::BytesMut;
use vstd::prelude::*;

verus! {

/// Cuts requests out of a stream of bytes and writes responses into one.
pub struct KafkaCodec;

/// What decoding leaves in the buffer: without a whole frame, all of it;
/// else what follows the first frame.
pub open spec fn after_decode(bytes: Seq<u8>) -> Seq<u8> {
    match p_frame(bytes) {
        Ok(done) => done.0,
        Err(_) => bytes,
    }
}

/// What decoding gives: nothing while the buffer holds no whole frame; else
/// the request in the body of the first frame, or the reason why the body is
/// no request.
pub open spec fn decoded(bytes: Seq<u8>) -> Result<Option<KafkaRequestModel>, ParseError> {
    match p_frame(bytes) {
        Err(_) => Ok(None),
        Ok(done) => match p_request(done.1) {
            Ok(request) => Ok(Some(request.1)),
            Err(e) => Err(e),
        },
    }
}

impl KafkaCodec {
    /// Takes the first frame out of the buffer, if the buffer holds a whole
    /// one, and reads the request in it. A buffer that holds less than a
    /// whole frame is left untouched. A frame whose body is no request is
    /// taken out all the same.
    pub fn decode(&mut self, buf: &mut BytesMut) -> (r: Result<Option<KafkaRequest>, ParseError>)
        ensures
            contents(*final(buf)) == after_decode(contents(*old(buf))),
            match r {
                Ok(request) => decoded(contents(*old(buf))) == Ok::<
                    Option<KafkaRequestModel>,
                    ParseError,
                >(request.deep_view()),
                Err(e) => decoded(contents(*old(buf))) == Err::<
                    Option<KafkaRequestModel>,
                    ParseError,
                >(e),
            },
    {
        let bytes = buffer_bytes(buf);
        let total = bytes.len();
        let (consumed, parsed) = match size_header(bytes) {
            Err(_) => {
                return Ok(None);
            },
            Ok(done) => {
                let parsed = match kafka_request(done.1) {
                    Ok(request) => Ok(request.1),
                    Err(e) => Err(e),
                };
                (total - done.0.len(), parsed)
            },
        };
        let _ = split_front(buf, consumed);
        match parsed {
            Ok(request) => Ok(Some(request)),
            Err(e) => Err(e),
        }
    }

    /// Appends the framed response to the buffer.
    pub fn encode(&mut self, msg: KafkaResponse, buf: &mut BytesMut)
        ensures
            contents(*final(buf)) == contents(*old(buf)) + enc_response(
                msg.header.correlation_id,
                msg.req.deep_view(),
            ),
    {
        to_bytes(&msg, buf);
    }
}

} // verus!
