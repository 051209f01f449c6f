//! An in-memory key-value store speaking a Redis-style wire protocol:
//! a streaming frame parser, a textual command grammar, a per-database
//! execution engine with string, counter and list semantics, and the
//! state kept by the connection multiplexer.

pub mod clock;
pub mod command;
pub mod db;
pub mod decimal;
pub mod grammar;
pub mod key;
pub mod parse;
pub mod server;
pub mod text;
pub mod value;
