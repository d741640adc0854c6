//! # Yet another memcached client: the protocol
//!
//! A codec for the memcached meta text protocol. It turns operations (fetch
//! one, fetch many, store, delete, version) into request bytes, and reply
//! lines and data blocks into values or precise errors. It owns no stream:
//! the caller writes the requests and reads the replies.

pub mod error;
pub mod protocol;
pub mod text;
