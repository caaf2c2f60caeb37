//! A small in-memory key-value store speaking a textual wire protocol,
//! with a binary snapshot reader for startup persistence.
//!
//! The library is organised leaves-first:
//! - [`text`] holds character-level helpers shared by the codecs,
//! - [`cli`] parses the two startup settings from command-line words,
//! - [`store`] owns the entry map with lazy expiry and the settings maps,
//! - [`inbound`] decodes a raw read buffer into a command,
//! - [`outbound`] encodes a reply into wire text,
//! - [`rdb`] parses the binary snapshot format,
//! - [`server`] dispatches one command against the store,
//! - [`laws`] states and proves the library-wide properties.

pub mod cli;
pub mod inbound;
pub mod laws;
pub mod outbound;
pub mod rdb;
pub mod server;
pub mod store;
pub mod text;
