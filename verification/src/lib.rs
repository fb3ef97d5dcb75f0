//! A chat-attached counter service: a durable store of named integer
//! counters, a parser for the `++name` / `name--` / `?name` commands found in
//! chat text, and the session state machine that keeps a line-oriented
//! connection alive and applies the commands it sees to the store.
//!
//! The library performs no input or output. Its functions take the bytes that
//! were read and return the bytes to write, so that every decision is a
//! function with a contract.

pub mod ascii;
pub mod decimal;
pub mod irc_client;
pub mod irc_client_laws;
pub mod line_parse;
pub mod line_parse_laws;
pub mod rotdb;
pub mod rotdb_laws;
pub mod text;
