//! Verified connection engine for a small HTTP/1.x server: the wire codec
//! (start lines, header fields, body framing), the request-target resolver,
//! the per-connection state machine, and the admission controller.

pub mod admission;
pub mod chars;
pub mod config;
pub mod conn;
pub mod codec_laws;
pub mod http;
pub mod lex;
pub mod response;
pub mod target;

pub use chars::parse_usize;
