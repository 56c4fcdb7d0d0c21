//! An HTTP/1.1 client and server toolkit over raw byte streams.
//!
//! The wire codec (URLs, headers, bodies, request and response framing), the
//! proxy handshake bytes and the decisions of the client and server cores are
//! verified; the sockets, timers and TLS sessions live with the caller.
pub mod body;
pub mod bytes;
pub mod client;
pub mod error;
pub mod headers;
pub mod request;
pub mod response;
pub mod server;
pub mod stream;
pub mod text;
pub mod url;

pub use error::HttpError;
