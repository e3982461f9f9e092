//! A small HTTP/1.1 message codec over byte sequences.
//!
//! Reading takes the bytes a stream yields and turns them into a structured
//! request or response; writing turns a message back into wire bytes. A
//! separate length-prefixed framing pair supports ad hoc streaming.
pub mod bytes;
pub mod chunk;
pub mod error;
pub mod header;
pub mod message;
pub mod reader;
pub mod round_trip;
pub mod status;
pub mod version;
pub mod writer;

pub use chunk::{frame_size, read_chunk, write_chunk};
pub use error::HttpError;
pub use header::parse_header;
pub use message::{find_header, Header, Request, Response};
pub use reader::{declared_body_length, read_request, read_response};
pub use version::{format_version, parse_version, Version};
pub use writer::{write_request, write_response};
