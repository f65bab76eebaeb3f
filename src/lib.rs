//! Incremental HTTP/1.1 request framing: a byte-level parser for one
//! request, a structured request model, and the decisions of a reader that
//! accumulates chunks until a request is complete.
mod buffers;
pub mod frame;
pub mod request;
pub mod reader;

pub use frame::MalformedKind;
pub use reader::{ReadError, ReadStep, RequestReader};
pub use request::{HTTPRequest, ParseOutcome};
