//! A small HTTP/1.1 server toolkit: a request parser over raw bytes, a trie
//! router with named wildcard segments, a decaying rate limiter, and the
//! per-connection state machine that ties them together.

pub mod scan;
pub mod bytes;
pub mod text;
pub mod json;
pub mod request;
pub mod encoding;
pub mod response;
pub mod sync;
pub mod rate_limiter;
pub mod router;
pub mod route_list;
pub mod connection;

pub use request::{Method, Request};
pub use response::{raw, Response};
pub use rate_limiter::{Limiter, MutexLimiter};
pub use router::{handle, Router};
pub use connection::Connection;
