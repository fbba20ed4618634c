//! A small Redis-compatible server core: RESP framing, command parsing,
//! an expiring key/value store, append-only streams and replication handshake.

pub mod number;
pub mod text;
pub mod helpers;
pub mod commands;
pub mod table;
pub mod data;
pub mod types;
pub mod actions;
pub mod streams;
pub mod handler;
