//! A codec for the Redis serialization protocol (RESP): a recursive-descent
//! decoder from the bytes of a reply to a value, and an encoder from a
//! textual command to the bytes of a request.

pub mod data_type;
pub mod decoder;
pub mod parser;
pub mod redis;
pub mod resp;
pub mod text;
