//! Native dispatch core of an embedded HTTP server.
//!
//! The crate builds a conflict-free, per-method route table from a list of
//! route templates, resolves each request to a handler capability by method
//! and path, models the canonical request/response shapes exchanged with the
//! externally supplied handler, and maps a handler's result to a wire-ready
//! response.  Listening, connection handling and the handler environment
//! itself live outside the library; everything here is pure logic over plain
//! values and is verified.

pub mod errors;
pub mod http;
pub mod lifecycle;
pub mod response_map;
pub mod routing;
pub mod serialization;
pub mod strmap;
mod strutil;
