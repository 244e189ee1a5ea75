//! Schema-less decoder for Protocol Buffers wire data.
//!
//! Given an arbitrary byte buffer, the decoder produces a best-effort tree of
//! typed fields plus the unconsumed trailing bytes, without any `.proto`
//! schema. Length-delimited payloads are speculatively re-parsed as nested
//! messages; when that re-parse consumes the payload completely the payload is
//! reported as nested fields, otherwise as a (lossily decoded) string.

pub mod bytes;
pub mod decode;
pub mod laws;
pub mod model;
pub mod patch;
pub mod reader;
pub mod varint;

pub use decode::decode_proto;
pub use model::{DecodeErr, ProtoPart, ProtoValue};
