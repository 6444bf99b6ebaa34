//! A small HTTP/1.1 server library: parsing requests, reading them from a
//! connection line by line, routing, and formatting responses.
use vstd::prelude::*;

pub mod headers;
pub mod reader;
pub mod request;
pub mod response;
pub mod server;
pub mod stdcalls;
pub mod text;
pub mod written;

verus! {

/// The bytes of one request as read from a connection.
pub type RawRequest = Vec<u8>;

} // verus!
