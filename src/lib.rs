//! Request routing and middleware composition for HTTP handlers: a per-method
//! path trie, an explicit pre/after step pipeline driven as a state machine,
//! and the body codecs that sit between wire strings and handler values.

pub mod error;
pub mod path;
pub mod handle_selector;
pub mod request;
pub mod response;
pub mod middleware;
pub mod router;
pub mod deserializer;
pub mod serializer;
pub mod handler;
pub mod server;
pub mod result;
pub mod io;
