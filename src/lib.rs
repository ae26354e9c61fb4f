//! Parsing of HTTP-style messages into an initial line and a header map,
//! borrowing every piece of text from the caller's buffer.
pub mod guarantees;
pub mod headers;
pub mod message;
pub mod request;
pub mod search;
pub mod text;

pub use headers::Headers;
pub use message::{LineEndingFormat, Message, ParseError};
pub use request::Request;
pub use search::split_once;
