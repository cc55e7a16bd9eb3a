//! The ways a request can fail that the library decides itself.

use vstd::prelude::*;

verus! {

/// Why a request failed, for the failures that come from the library's own
/// rules (I/O and TLS failures are reported by the caller that performs them).
#[derive(Debug, Clone, Copy, PartialEq, Eq, Structural)]
pub enum HttpError {
    /// The URL starts with neither `http://` nor `https://`.
    UnsupportedUrl,
    /// A bracketed IPv6 host has no closing `]`.
    InvalidIpv6Address,
    /// More redirects than the limit were followed.
    TooManyRedirects,
    /// The final response's status is outside `200..300`.
    HttpStatus(u16),
    /// The response holds no `\r\n\r\n` that ends its header block.
    HeadersNotFound,
    /// The header block, or a chunk-size line, is not valid UTF-8.
    InvalidUtf8,
    /// The status line holds no space, so it has no status code.
    InvalidStatusLine,
    /// The status code is not a number that fits in a `u16`.
    InvalidStatusCode,
    /// A chunk-size line has no `\r\n` after it.
    ChunkSizeNotFound,
    /// A chunk size is not a hexadecimal number that fits in a `usize`.
    InvalidChunkSize,
    /// The end of a chunk lies beyond `usize::MAX`.
    ChunkSizeOverflow,
    /// A chunk is longer than what is left of the body.
    IncompleteChunk,
    /// A chunk's data is not followed by `\r\n`.
    MissingChunkCrlf,
    /// A request header name or value holds a CR or an LF.
    InvalidHeader,
    /// The host is neither a DNS name nor an IP address, so TLS cannot
    /// check the server against it.
    InvalidServerName,
    /// rustls refuses a certificate offered as a trusted root.
    InvalidCertificate,
    /// No trusted root certificates were offered.
    NoRootCertificates,
}

} // verus!
