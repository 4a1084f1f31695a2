//! A minimal Redis-protocol (RESP) engine: a binary-safe frame decoder,
//! a command dispatcher over an in-memory key-value store, and a reply
//! encoder. Transport I/O is left to the embedding program; the engine
//! works on plain byte buffers.

pub mod codec;
pub mod decode;
pub mod dispatch;
pub mod engine;
pub mod parser;
pub mod store;
pub mod value;
