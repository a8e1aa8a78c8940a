//! A verified key-value store core.
//!
//! Clients send typed commands (`Hget`, `Hgetall`, `Hset`); a dispatcher
//! routes each command to a storage backend and shapes a typed response.
//! Two backends implement the same `Storage` capability: an in-memory
//! table of tables, and a durable ordered-keyspace table backed by sled.
//! A length-delimited framing layer carries encoded messages over a byte
//! stream, and a hook pipeline runs around every dispatched command.

pub mod codec;
pub mod command_service;
pub mod error;
pub mod framing;
pub mod memory;
pub mod pb;
pub mod service;
pub mod sleddb;
pub mod storage;
