//! A single-node participant in a line-delimited, JSON-based request/response
//! protocol.  The crate defines the message envelope and payload model, a
//! verified canonical JSON codec for that model, and the dispatch logic that
//! builds exactly one reply for each request.

pub mod protocol;
pub mod wire;
pub mod grammar;
pub mod encode;
pub mod decode;
pub mod node;
