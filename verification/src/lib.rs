//! A fast, zero-copy content scanner for free-form social-post text.
//!
//! The scanner splits a post into a flat, ordered sequence of typed
//! segments ("shards") — plain text runs, hashtags, and inline indexed
//! mentions — without copying the input. Every shard is a span into the
//! original buffer; concatenating the spans in order reproduces the
//! input byte for byte.

pub mod cursor;
pub mod laws;
pub mod shard;
