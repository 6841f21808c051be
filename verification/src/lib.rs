//! A minimal broker that speaks the Kafka wire protocol: the big-endian
//! codec for requests and responses, the per-API handlers, the topic log
//! they act on, and the framing of a byte stream into requests.

pub mod backend;
pub mod buffer;
pub mod checksum;
pub mod codec;
pub mod parser;
pub mod pipeline;
pub mod round_trip;
pub mod settings;
pub mod store;
pub mod text;
pub mod wire;
pub mod writer;
