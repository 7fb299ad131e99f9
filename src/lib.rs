//! Transport for a language-server endpoint: `Content-Length` framing, the decisions of
//! a non-blocking reader over a blocking source, and a queue that keeps only the newest
//! work item for each key.
pub mod bridge;
pub mod codec;
pub mod debounce;
pub mod server;
pub mod sink;
