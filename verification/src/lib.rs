//! A verified record-aggregation library: per-stream buffers that deduplicate
//! partition and hash keys, track accumulated size, decide when to flush, and
//! serialize each flushed buffer into a compact multi-record wire message.

pub mod buffer;
pub mod codec;
pub mod lifecycle;
pub mod sink;
