use vstd::prelude::*;

verus! {

/// Every way a read or a write of a message or a frame can fail.
#[derive(Debug, Clone, Copy, PartialEq, Eq, Structural)]
pub enum HttpError {
    /// The stream ended before a start line arrived.
    ConnectionClosed,
    /// The start line has the wrong number of fields.
    MalformedStartLine,
    /// The version token is not one of the supported ones.
    UnsupportedVersion,
    /// The status field of a response line is not a three-digit code.
    InvalidStatusCode,
    /// A header name is not a token.
    InvalidHeaderName,
    /// A header value holds a byte outside printable ASCII and tab.
    InvalidHeaderValue,
    /// A header line has no colon.
    MalformedHeaderLine,
    /// A Content-Length value is not a decimal number.
    InvalidContentLength,
    /// The size line of a frame is not a decimal number.
    InvalidFrameSize,
    /// The stream ended before the declared number of bytes arrived.
    UnexpectedEof,
}

} // verus!
