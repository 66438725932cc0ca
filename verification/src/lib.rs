//! An incremental HTTP/1.1 client engine for constrained environments, with
//! machine-checked contracts.
//!
//! Every buffer the engine touches has a caller-chosen, compile-time
//! capacity: the outbound serialization buffer, the inbound scratch buffer
//! used while the status line and headers are reassembled, and the buffers
//! of the reference response handler. Nothing grows.
//!
//! A request is configured with [`HttpConnection::begin`] or
//! [`HttpConnection::post`], given headers and a [`ResponseHandler`], and
//! sent through a [`Sink`] by `execute` or `execute_with`. The returned
//! [`Request`] is a push-based state machine: the caller (usually a thin
//! transport pump, see [`Source`]) feeds it inbound byte fragments of
//! arbitrary size with `push_data`, and the close signal with `push_close`.
//! The engine reassembles the response head in its bounded scratch buffer,
//! decides the body framing from the `Content-Length` header, and hands the
//! handler the status once, then body fragments, then the end-of-body
//! sentinel. `complete` dissolves the request and returns the connection
//! and the handler for reuse and inspection.
//!
//! The contracts state, and the proofs establish, that the bytes put on the
//! wire are exactly the serialized request, and that what the handler
//! observes is a function of the response byte stream alone — fragment
//! boundaries may fall in the middle of the status line, a header name, or
//! the body without changing the outcome.

mod buffer;
mod con;
mod digits;
mod handler;
mod model;
mod parse;
mod serial;
mod sink;
mod source;
mod theory;

pub mod mock;

pub use buffer::ByteBuffer;
pub use con::{HttpConnection, Request, RequestBuilder};
pub use handler::{BufferResponseHandler, NoOpResponseHandler, Response, ResponseHandler};
pub use model::{Event, Phase, RequestError};
pub use sink::Sink;
pub use source::Source;
