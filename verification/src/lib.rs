//! A verified core for a minimal HTTP/1.1 request server.
//!
//! The library parses one request from a byte stream that has already been
//! read off a connection: a request line, a sequence of header lines ended by
//! a blank line, and a body framed by the `Content-Length` header. Everything
//! around it — sockets, the accept loop, response writing — is deliberately
//! left to the embedding program, which hands the parser plain bytes.

pub mod error;
pub mod headers;
pub mod reader;
pub mod request;
